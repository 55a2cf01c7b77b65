//! Base64 (RFC 4648 standard alphabet, padded) through the `base64` crate.

use vstd::prelude::*;

use base64::Engine;
use vstd::utf8::encode_utf8;

verus! {

/// Declares the `base64` crate's decoding error, carried through opaquely.
#[verifier::external_type_specification]
#[verifier::external_body]
pub struct ExDecodeError(base64::DecodeError);

/// What the standard, padded base64 engine decodes `input` to, or `None`
/// where it rejects the input.
pub uninterp spec fn standard_base64_decoded(input: Seq<u8>) -> Option<Seq<u8>>;

/// The standard, padded base64 encoding of `input`.
pub uninterp spec fn standard_base64_encoded(input: Seq<u8>) -> Seq<char>;

/// Length of the padded base64 encoding of `n` bytes: four characters per
/// started group of three bytes.
pub open spec fn padded_encoded_len(n: int) -> int {
    (n / 3) * 4 + if n % 3 > 0 { 4int } else { 0int }
}

/// Decodes with `base64::engine::general_purpose::STANDARD.decode`.
///
/// Trusted: the result is `Ok` exactly where the engine accepts the input,
/// and is then the engine's decoding of it; an `Err` carries the engine's
/// error value, of which nothing is stated.
#[verifier::external_body]
pub(crate) fn decode_standard(input: &[u8]) -> (result: Result<Vec<u8>, base64::DecodeError>)
    ensures
        match result {
            Ok(bytes) => standard_base64_decoded(input@) == Some(bytes@),
            Err(_) => standard_base64_decoded(input@) is None,
        },
{
    base64::engine::general_purpose::STANDARD.decode(input)
}

/// A character of the standard base64 alphabet (`A`-`Z`, `a`-`z`, `0`-`9`,
/// `+`, `/`) or the padding `=`.
pub open spec fn is_base64_char(c: char) -> bool {
    ||| ('A' <= c && c <= 'Z')
    ||| ('a' <= c && c <= 'z')
    ||| ('0' <= c && c <= '9')
    ||| c == '+'
    ||| c == '/'
    ||| c == '='
}

/// Encodes with `base64::engine::general_purpose::STANDARD.encode`.
///
/// Trusted: the result is the engine's padded encoding of the input, which
/// the crate's `encoded_len` sizes at four characters per started group of
/// three bytes, written in the standard alphabet and `=` padding; the same
/// engine, which requires canonical padding when decoding, decodes it back
/// to the input. The engine panics where the length overflows `usize`,
/// which the `requires` rules out.
#[verifier::external_body]
pub(crate) fn encode_standard(input: &[u8]) -> (encoded: String)
    requires
        padded_encoded_len(input@.len() as int) <= usize::MAX,
    ensures
        encoded@ == standard_base64_encoded(input@),
        encoded@.len() == padded_encoded_len(input@.len() as int),
        forall|i: int| 0 <= i < encoded@.len() ==> is_base64_char(#[trigger] encoded@[i]),
        standard_base64_decoded(encode_utf8(encoded@)) == Some(input@),
{
    base64::engine::general_purpose::STANDARD.encode(input)
}

} // verus!
