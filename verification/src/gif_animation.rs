//! Animated GIF support for Stream Deck buttons.
//!
//! Stream Deck hardware has no concept of animation; images are written to
//! buttons as single frames. This module decomposes an animated GIF into a
//! list of composited frames with per-frame delays so that the device can be
//! driven frame by frame.
//!
//! Frame composition mirrors the frontend renderer so animated buttons match
//! the static rendering path: a logical 144x144 canvas, a background colour
//! fill (unless the colour starts with "#000000"), and the state's image
//! scale applied around the centre.

use vstd::prelude::*;

use crate::codec::{decode_standard, is_base64_char, standard_base64_decoded};
use crate::text::{
    chars_of, decimal, eq_ignore_ascii_case, equals_ignore_ascii_case, has_prefix, slice_chars, split_once,
    push_decimal, split_once_at, starts_with, string_of, trim, trimmed, occurs_at, first_occurrence,
    lemma_first_occurrence_unique, is_whitespace_char, trim_start, trim_end,
};
use vstd::utf8::encode_utf8;

use crate::imaging::{
    frame_into_buffer, gif_frames, image_error_text, next_frame, gif_decoding, frames_remaining, FrameOutcome, blank_picture, filled_picture, overlay_at, resize_lanczos3, Picture, Pixel, picture_rows, has_size,
    inside_rect, frame_rows, rows_width, lanczos3_resized, rgba_blend,
};

verus! {

/// Logical canvas size; mirrors the frontend renderer's 144x144 canvas.
pub const CANVAS_SIZE: u32 = 144;

/// Maximum number of frames accepted from a single GIF.
pub const MAX_FRAMES: usize = 600;

/// Maximum decoded frame dimension, in pixels.
pub const MAX_FRAME_DIM: u32 = 4096;

/// Floor for per-frame delays, in milliseconds; protects the HID write
/// pipeline and keeps the loop ticking at a rate the device can keep up with.
pub const MIN_FRAME_DELAY_MS: u32 = 20;

/// The six signature bytes of a GIF87a file: `GIF87a`.
pub open spec fn gif87a_signature() -> Seq<u8> {
    seq![0x47u8, 0x49u8, 0x46u8, 0x38u8, 0x37u8, 0x61u8]
}

/// The six signature bytes of a GIF89a file: `GIF89a`.
pub open spec fn gif89a_signature() -> Seq<u8> {
    seq![0x47u8, 0x49u8, 0x46u8, 0x38u8, 0x39u8, 0x61u8]
}

/// `p` is a prefix of `s`.
pub open spec fn has_byte_prefix(s: Seq<u8>, p: Seq<u8>) -> bool {
    p.len() <= s.len() && s.subrange(0, p.len() as int) == p
}

/// The bytes start with a GIF signature.
pub open spec fn is_gif_bytes(bytes: Seq<u8>) -> bool {
    has_byte_prefix(bytes, gif87a_signature()) || has_byte_prefix(bytes, gif89a_signature())
}

/// Returns whether the bytes look like a GIF image.
pub fn is_gif(bytes: &[u8]) -> (r: bool)
    ensures
        r == is_gif_bytes(bytes@),
{
    if bytes.len() < 6 {
        return false;
    }
    let head = bytes[0] == 0x47u8 && bytes[1] == 0x49u8 && bytes[2] == 0x46u8 && bytes[3] == 0x38u8
        && bytes[5] == 0x61u8;
    let r = head && (bytes[4] == 0x37u8 || bytes[4] == 0x39u8);
    proof {
        let s = bytes@.subrange(0, 6);
        if r {
            if bytes[4] == 0x37u8 {
                assert(s =~= gif87a_signature());
            } else {
                assert(s =~= gif89a_signature());
            }
        } else {
            assert(s[0] == bytes@[0] && s[1] == bytes@[1] && s[2] == bytes@[2]);
            assert(s[3] == bytes@[3] && s[4] == bytes@[4] && s[5] == bytes@[5]);
            assert(s != gif87a_signature() ==> !has_byte_prefix(bytes@, gif87a_signature()));
            assert(gif87a_signature()[4] == 0x37u8 && gif89a_signature()[4] == 0x39u8);
            assert(gif87a_signature()[0] == 0x47u8 && gif87a_signature()[5] == 0x61u8);
            assert(gif89a_signature()[1] == 0x49u8 && gif89a_signature()[2] == 0x46u8);
            assert(gif89a_signature()[3] == 0x38u8 && gif87a_signature()[3] == 0x38u8);
        }
    }
    r
}

/// A frame delay of `numer / denom` milliseconds rounded to the nearest
/// millisecond, halves away from zero; a zero denominator leaves the
/// numerator as it is.
pub open spec fn rounded_delay_ms(numer: int, denom: int) -> int {
    if denom == 0 {
        numer
    } else {
        (2 * numer + denom) / (2 * denom)
    }
}

/// The delay a frame is played for: its rounded delay, but at least
/// [`MIN_FRAME_DELAY_MS`].
pub open spec fn clamped_delay_ms(numer: int, denom: int) -> int {
    let ms = rounded_delay_ms(numer, denom);
    if ms < MIN_FRAME_DELAY_MS {
        MIN_FRAME_DELAY_MS as int
    } else {
        ms
    }
}

/// A delay is rounded to the nearest whole millisecond, halves upwards:
/// `r` is the rounding of `numer / denom` exactly when
/// `r - 1/2 <= numer / denom < r + 1/2`; a zero denominator leaves the
/// numerator.
pub proof fn lemma_delay_rounds_to_nearest(numer: int, denom: int)
    requires
        numer >= 0,
        denom >= 0,
    ensures
        denom == 0 ==> rounded_delay_ms(numer, denom) == numer,
        denom > 0 ==> 2 * rounded_delay_ms(numer, denom) * denom <= 2 * numer + denom,
        denom > 0 ==> 2 * numer + denom < 2 * (rounded_delay_ms(numer, denom) + 1) * denom,
{
    if denom > 0 {
        let r = rounded_delay_ms(numer, denom);
        let (x, m) = (2 * numer + denom, 2 * denom);
        vstd::arithmetic::div_mod::lemma_fundamental_div_mod(x, m);
        vstd::arithmetic::div_mod::lemma_mod_pos_bound(x, m);
        assert(x == m * r + x % m);
        assert(2 * r * denom == m * r && 2 * (r + 1) * denom == m * r + m) by (nonlinear_arith)
            requires
                m == 2 * denom,
        ;
    }
}

/// The floor only raises delays: a frame plays for its rounded delay, or
/// for 20 ms where that is shorter.
pub proof fn lemma_delay_floor(numer: int, denom: int)
    ensures
        clamped_delay_ms(numer, denom) >= 20,
        rounded_delay_ms(numer, denom) >= 20 ==> clamped_delay_ms(numer, denom) == rounded_delay_ms(numer, denom),
        rounded_delay_ms(numer, denom) < 20 ==> clamped_delay_ms(numer, denom) == 20,
{
}

/// Reads a frame duration given as `numer / denom` milliseconds, enforcing
/// the minimum frame delay. Rounds instead of integer-dividing: 33 ms written
/// as 33/100 would otherwise collapse to 0.
pub fn clamp_delay(numer: u32, denom: u32) -> (ms: u64)
    ensures
        ms == clamped_delay_ms(numer as int, denom as int),
        ms >= MIN_FRAME_DELAY_MS,
        ms <= u32::MAX,
        ms >= 20,
        rounded_delay_ms(numer as int, denom as int) >= 20 ==> ms == rounded_delay_ms(numer as int, denom as int),
        rounded_delay_ms(numer as int, denom as int) < 20 ==> ms == 20,
{
    proof {
        lemma_delay_floor(numer as int, denom as int);
    }
    let rounded: u64 = if denom == 0 {
        numer as u64
    } else {
        let n: u64 = numer as u64;
        let d: u64 = denom as u64;
        let r: u64 = (2 * n + d) / (2 * d);
        assert(r <= u32::MAX) by (nonlinear_arith)
            requires
                d >= 1,
                n <= u32::MAX,
                r == (2 * n + d) / (2 * d),
        ;
        r
    };
    if rounded < MIN_FRAME_DELAY_MS as u64 {
        MIN_FRAME_DELAY_MS as u64
    } else {
        rounded
    }
}

/// Value of a hexadecimal digit character.
pub open spec fn hex_digit_value(c: char) -> int {
    if '0' <= c && c <= '9' {
        c as int - '0' as int
    } else if 'a' <= c && c <= 'f' {
        c as int - 'a' as int + 10
    } else {
        c as int - 'A' as int + 10
    }
}

/// `c` is an ASCII hexadecimal digit.
pub open spec fn is_hex_digit(c: char) -> bool {
    ('0' <= c && c <= '9') || ('a' <= c && c <= 'f') || ('A' <= c && c <= 'F')
}

/// The byte written by two hexadecimal digits.
pub open spec fn hex_byte(hi: char, lo: char) -> u8 {
    (hex_digit_value(hi) * 16 + hex_digit_value(lo)) as u8
}

/// The byte written by one hexadecimal digit, repeated (`f` is `ff`).
pub open spec fn hex_nibble_byte(d: char) -> u8 {
    (hex_digit_value(d) * 17) as u8
}

/// The colour written as `#rgb`, `#rrggbb` or `#rrggbbaa` (digits in either
/// case); a colour without alpha is opaque.
pub open spec fn hex_colour(s: Seq<char>) -> Option<(u8, u8, u8, u8)> {
    if s.len() == 0 || s[0] != '#' {
        None
    } else {
        let h = s.drop_first();
        if !(forall|i: int| 0 <= i < h.len() ==> #[trigger] is_hex_digit(h[i])) {
            None
        } else if h.len() == 3 {
            Some((hex_nibble_byte(h[0]), hex_nibble_byte(h[1]), hex_nibble_byte(h[2]), 255u8))
        } else if h.len() == 6 {
            Some((hex_byte(h[0], h[1]), hex_byte(h[2], h[3]), hex_byte(h[4], h[5]), 255u8))
        } else if h.len() == 8 {
            Some((hex_byte(h[0], h[1]), hex_byte(h[2], h[3]), hex_byte(h[4], h[5]), hex_byte(h[6], h[7])))
        } else {
            None
        }
    }
}

/// How the colour forms relate: `#rgb` is `#rrggbb` with each digit
/// doubled, `#rrggbbff` is the opaque `#rrggbb`, and digits read the same
/// in either case.
pub proof fn lemma_hex_colour_forms(r: char, g: char, b: char, x: char, y: char, z: char)
    requires
        is_hex_digit(r),
        is_hex_digit(g),
        is_hex_digit(b),
        is_hex_digit(x),
        is_hex_digit(y),
        is_hex_digit(z),
    ensures
        hex_colour(seq!['#', r, g, b]) == hex_colour(seq!['#', r, r, g, g, b, b]),
        hex_colour(seq!['#', r, g, b, x, y, z, 'f', 'f']) == hex_colour(seq!['#', r, g, b, x, y, z]),
        hex_colour(seq!['#', r, g, b, x, y, z, 'F', 'F']) == hex_colour(seq!['#', r, g, b, x, y, z]),
        hex_colour(seq!['#', r, g, b, x, y, z]) is Some,
        ('a' <= r <= 'f') ==> hex_colour(seq!['#', r, g, b]) == hex_colour(
            seq!['#', ((r as u32) - 32) as char, g, b],
        ),
{
    let short = seq!['#', r, g, b];
    let long = seq!['#', r, r, g, g, b, b];
    assert(short.drop_first() =~= seq![r, g, b]);
    assert(long.drop_first() =~= seq![r, r, g, g, b, b]);
    let opaque = seq!['#', r, g, b, x, y, z];
    let lower = seq!['#', r, g, b, x, y, z, 'f', 'f'];
    let upper = seq!['#', r, g, b, x, y, z, 'F', 'F'];
    assert(opaque.drop_first() =~= seq![r, g, b, x, y, z]);
    assert(lower.drop_first() =~= seq![r, g, b, x, y, z, 'f', 'f']);
    assert(upper.drop_first() =~= seq![r, g, b, x, y, z, 'F', 'F']);
    assert(forall|i: int| 0 <= i < 3 ==> #[trigger] is_hex_digit(short.drop_first()[i]));
    assert(forall|i: int| 0 <= i < 6 ==> #[trigger] is_hex_digit(long.drop_first()[i]));
    assert(forall|i: int| 0 <= i < 6 ==> #[trigger] is_hex_digit(opaque.drop_first()[i]));
    assert(forall|i: int| 0 <= i < 8 ==> #[trigger] is_hex_digit(lower.drop_first()[i]));
    assert(forall|i: int| 0 <= i < 8 ==> #[trigger] is_hex_digit(upper.drop_first()[i]));
    assert(hex_byte('f', 'f') == 255u8);
    assert(hex_byte('F', 'F') == 255u8);
    if 'a' <= r <= 'f' {
        let big = ((r as u32) - 32) as char;
        let other = seq!['#', big, g, b];
        assert(other.drop_first() =~= seq![big, g, b]);
        assert('A' <= big <= 'F');
        assert(hex_digit_value(big) == hex_digit_value(r));
        assert(forall|i: int| 0 <= i < 3 ==> #[trigger] is_hex_digit(other.drop_first()[i]));
    }
}

/// Value of one hexadecimal digit.
fn hex_value(c: char) -> (v: u8)
    requires
        is_hex_digit(c),
    ensures
        v == hex_digit_value(c),
        v < 16,
{
    if '0' <= c && c <= '9' {
        ((c as u32) - ('0' as u32)) as u8
    } else if 'a' <= c && c <= 'f' {
        ((c as u32) - ('a' as u32) + 10) as u8
    } else {
        ((c as u32) - ('A' as u32) + 10) as u8
    }
}

/// Parses a hex colour (`#rgb`, `#rrggbb` or `#rrggbbaa`, case-insensitive).
pub fn parse_hex_colour(colour: &str) -> (result: Option<(u8, u8, u8, u8)>)
    ensures
        result == hex_colour(colour@),
{
    let s = chars_of(colour);
    if s.len() == 0 || s[0] != '#' {
        return None;
    }
    let ghost h = s@.drop_first();
    let n: usize = s.len() - 1;
    let mut i: usize = 1;
    while i < s.len()
        invariant
            s@ == colour@,
            s@.len() == n + 1,
            1 <= i <= s@.len(),
            h == s@.drop_first(),
            forall|k: int| 0 <= k < i - 1 ==> #[trigger] is_hex_digit(h[k]),
        decreases s.len() - i,
    {
        let c = s[i];
        if !(('0' <= c && c <= '9') || ('a' <= c && c <= 'f') || ('A' <= c && c <= 'F')) {
            assert(!is_hex_digit(h[i - 1]));
            assert(!(forall|k: int| 0 <= k < h.len() ==> #[trigger] is_hex_digit(h[k])));
            return None;
        }
        i = i + 1;
    }
    if n == 3 {
        let r: u8 = hex_value(s[1]) * 17;
        let g: u8 = hex_value(s[2]) * 17;
        let b: u8 = hex_value(s[3]) * 17;
        Some((r, g, b, 255))
    } else if n == 6 {
        let r: u8 = hex_value(s[1]) * 16 + hex_value(s[2]);
        let g: u8 = hex_value(s[3]) * 16 + hex_value(s[4]);
        let b: u8 = hex_value(s[5]) * 16 + hex_value(s[6]);
        Some((r, g, b, 255))
    } else if n == 8 {
        let r: u8 = hex_value(s[1]) * 16 + hex_value(s[2]);
        let g: u8 = hex_value(s[3]) * 16 + hex_value(s[4]);
        let b: u8 = hex_value(s[5]) * 16 + hex_value(s[6]);
        let a: u8 = hex_value(s[7]) * 16 + hex_value(s[8]);
        Some((r, g, b, a))
    } else {
        None
    }
}

/// `meta[i..j]` is one of the pieces that splitting `meta` at `;` yields.
pub open spec fn is_param_piece(meta: Seq<char>, i: int, j: int) -> bool {
    &&& 0 <= i <= j <= meta.len()
    &&& i == 0 || meta[i - 1] == ';'
    &&& j == meta.len() || meta[j] == ';'
    &&& forall|k: int| i <= k < j ==> #[trigger] meta[k] != ';'
}

/// One of the `;`-separated pieces of `meta` equals `name`, ignoring ASCII
/// case.
pub open spec fn has_param(meta: Seq<char>, name: Seq<char>) -> bool {
    exists|i: int, j: int| is_param_piece(meta, i, j) && #[trigger] eq_ignore_ascii_case(meta.subrange(i, j), name)
}

/// The only piece that ends at a `;` (or at the end) at index `j` starts
/// right after the previous `;`.
proof fn lemma_piece_start(meta: Seq<char>, start: int, i: int, j: int)
    requires
        0 <= start <= j <= meta.len(),
        start == 0 || meta[start - 1] == ';',
        forall|k: int| start <= k < j ==> #[trigger] meta[k] != ';',
        is_param_piece(meta, i, j),
    ensures
        i == start,
{
    if i < start {
        assert(meta[start - 1] != ';');
    } else if i > start {
        assert(meta[i - 1] != ';');
    }
}

/// Whether one of the `;`-separated pieces of `meta` equals `name`,
/// ignoring ASCII case.
pub fn has_param_piece(meta: &Vec<char>, name: &Vec<char>) -> (r: bool)
    ensures
        r == has_param(meta@, name@),
{
    let n: usize = meta.len();
    let mut start: usize = 0;
    let mut k: usize = 0;
    while k <= n
        invariant_except_break
            k <= n,
        invariant
            n == meta@.len(),
            start <= k,
            start == 0 || meta@[start - 1] == ';',
            k <= n ==> forall|m: int| start <= m < k ==> #[trigger] meta@[m] != ';',
            forall|i: int, j: int|
                0 <= j < k && is_param_piece(meta@, i, j) ==> !#[trigger] eq_ignore_ascii_case(
                    meta@.subrange(i, j),
                    name@,
                ),
        ensures
            forall|i: int, j: int|
                is_param_piece(meta@, i, j) ==> !#[trigger] eq_ignore_ascii_case(meta@.subrange(i, j), name@),
        decreases n + 1 - k,
    {
        if k == n || meta[k] == ';' {
            let piece = slice_chars(meta, start, k);
            if equals_ignore_ascii_case(&piece, name) {
                assert(is_param_piece(meta@, start as int, k as int));
                return true;
            }
            assert forall|i: int, j: int|
                0 <= j < k + 1 && is_param_piece(meta@, i, j) implies !#[trigger] eq_ignore_ascii_case(
                meta@.subrange(i, j),
                name@,
            ) by {
                if j == k {
                    lemma_piece_start(meta@, start as int, i, j);
                }
            }
            if k == n {
                break;
            }
            start = k + 1;
        } else {
            assert forall|i: int, j: int|
                0 <= j < k + 1 && is_param_piece(meta@, i, j) implies !#[trigger] eq_ignore_ascii_case(
                meta@.subrange(i, j),
                name@,
            ) by {
                if j == k {
                    assert(meta@[j] == ';');
                }
            }
        }
        k = k + 1;
    }
    false
}

/// The payload that a base64 `data:` URL carries: after `data:`, the
/// metadata up to the first `,` must hold a `base64` parameter, and the rest,
/// trimmed of whitespace, is decoded as standard base64.
pub open spec fn base64_payload(image: Seq<char>) -> Option<Seq<u8>> {
    if !has_prefix(image, "data:"@) {
        None
    } else {
        match split_once_at(image.subrange("data:"@.len() as int, image.len() as int), seq![',']) {
            None => None,
            Some((meta, payload)) => if has_param(meta, "base64"@) {
                standard_base64_decoded(encode_utf8(trimmed(payload)))
            } else {
                None
            },
        }
    }
}

/// Extracts the base64 payload of a `data:` URL.
///
/// Returns `None` for anything that is not a base64 data URL, so callers can
/// fall back to their usual handling instead of panicking on odd input.
pub fn extract_base64_payload(image: &str) -> (result: Option<Vec<u8>>)
    ensures
        match result {
            Some(bytes) => base64_payload(image@) == Some(bytes@),
            None => base64_payload(image@) is None,
        },
{
    let s = chars_of(image);
    let scheme = chars_of("data:");
    if !starts_with(&s, &scheme) {
        return None;
    }
    let rest = slice_chars(&s, scheme.len(), s.len());
    let mut comma: Vec<char> = Vec::new();
    comma.push(',');
    assert(comma@ =~= seq![',']);
    let (meta, payload) = match split_once(&rest, &comma) {
        Some(parts) => parts,
        None => return None,
    };
    let base64_name = chars_of("base64");
    if !has_param_piece(&meta, &base64_name) {
        return None;
    }
    let trimmed_payload = string_of(&trim(&payload));
    match decode_standard(trimmed_payload.as_str().as_bytes()) {
        Ok(bytes) => Some(bytes),
        Err(_) => None,
    }
}

/// A `data:` URL whose metadata (free of `,`) ends in the `base64`
/// parameter carries the bytes whose standard base64 encoding follows the
/// comma: the payload read back is the payload written. `encoded` is such
/// an encoding where it is written in the base64 alphabet and decodes to
/// `bytes`, as every encoding of the `base64` engine does.
pub proof fn lemma_payload_round_trip(meta: Seq<char>, encoded: Seq<char>, bytes: Seq<u8>)
    requires
        !meta.contains(','),
        forall|i: int| 0 <= i < encoded.len() ==> is_base64_char(#[trigger] encoded[i]),
        standard_base64_decoded(encode_utf8(encoded)) == Some(bytes),
    ensures
        base64_payload("data:"@ + meta + ";base64,"@ + encoded) == Some(bytes),
{
    reveal_strlit("data:");
    reveal_strlit(";base64,");
    reveal_strlit("base64");
    let url = "data:"@ + meta + ";base64,"@ + encoded;
    let rest = meta + ";base64,"@ + encoded;
    let m = meta.len() as int;
    let k = m + 7;
    assert(url.subrange(0, 5) =~= "data:"@);
    assert(url.subrange("data:"@.len() as int, url.len() as int) =~= rest);
    let comma = seq![','];
    assert(rest.subrange(k, k + 1) =~= comma);
    assert forall|j: int| 0 <= j < k implies !#[trigger] occurs_at(rest, comma, j) by {
        if j < m {
            assert(rest[j] == meta[j]);
            assert(rest.subrange(j, j + 1)[0] == rest[j]);
        } else {
            assert(rest.subrange(j, j + 1)[0] == rest[j]);
            assert(rest[j] == ";base64,"@[j - m]);
        }
    }
    assert(first_occurrence(rest, comma, k));
    let c = choose|c: int| first_occurrence(rest, comma, c);
    lemma_first_occurrence_unique(rest, comma, c, k);
    let metadata = rest.subrange(0, k);
    let payload = rest.subrange(k + 1, rest.len() as int);
    assert(split_once_at(rest, comma) == Some((metadata, payload)));
    assert(payload =~= encoded);
    assert(metadata.subrange(m + 1, k) =~= "base64"@);
    assert(is_param_piece(metadata, m + 1, k)) by {
        assert(metadata[m] == ';');
        assert forall|q: int| m + 1 <= q < k implies #[trigger] metadata[q] != ';' by {
            assert(metadata[q] == "base64"@[q - m - 1]);
        }
    }
    assert(eq_ignore_ascii_case(metadata.subrange(m + 1, k), "base64"@));
    assert(has_param(metadata, "base64"@));
    if encoded.len() > 0 {
        assert(!is_whitespace_char(encoded[0]));
        assert(!is_whitespace_char(encoded.last()));
        assert(trim_start(encoded) == encoded);
        assert(trim_end(encoded) == encoded);
    } else {
        assert(trim_start(encoded) == encoded);
        assert(trim_end(encoded) == encoded);
    }
    assert(trimmed(payload) == encoded);
}

/// A decomposed animated image: composited frames paired with their
/// display times in milliseconds.
pub struct AnimatedImage {
    pub frames: Vec<Picture>,
    pub delays: Vec<u64>,
}

impl AnimatedImage {
    /// Number of frames.
    pub fn frame_count(&self) -> (n: usize)
        ensures
            n == self.frames@.len(),
    {
        self.frames.len()
    }
}

/// The message for a GIF with more frames than [`MAX_FRAMES`].
pub open spec fn too_many_frames_message() -> Seq<char> {
    "GIF exceeds the maximum frame count (600)"@
}

/// The message for a frame larger than [`MAX_FRAME_DIM`] either way.
pub open spec fn frame_too_large_message(width: u32, height: u32) -> Seq<char> {
    "GIF frame of "@ + decimal(width as nat) + "x"@ + decimal(height as nat)
        + "px exceeds the maximum frame dimension (4096px)"@
}

/// Decides whether a decoded frame may join the `count` frames accepted so
/// far: not once [`MAX_FRAMES`] are in, and not when either side exceeds
/// [`MAX_FRAME_DIM`].
pub fn check_frame(count: usize, width: u32, height: u32) -> (result: Result<(), String>)
    ensures
        match result {
            Ok(()) => count < MAX_FRAMES && width <= MAX_FRAME_DIM && height <= MAX_FRAME_DIM,
            Err(message) => if count >= MAX_FRAMES {
                message@ == too_many_frames_message()
            } else {
                (width > MAX_FRAME_DIM || height > MAX_FRAME_DIM) && message@ == frame_too_large_message(width, height)
            },
        },
{
    if count >= MAX_FRAMES {
        return Err(String::from_str("GIF exceeds the maximum frame count (600)"));
    }
    if width > MAX_FRAME_DIM || height > MAX_FRAME_DIM {
        let mut message = String::from_str("GIF frame of ");
        push_decimal(&mut message, width);
        message.append("x");
        push_decimal(&mut message, height);
        message.append("px exceeds the maximum frame dimension (4096px)");
        return Err(message);
    }
    Ok(())
}

/// `message` reads `prefix` followed by some description.
pub open spec fn starts_with_text(message: Seq<char>, prefix: Seq<char>) -> bool {
    prefix.len() <= message.len() && message.subrange(0, prefix.len() as int) == prefix
}

/// `prefix` followed by the decoder's description of the error.
fn error_message(prefix: &str, error: &image::ImageError) -> (message: String)
    ensures
        starts_with_text(message@, prefix@),
{
    let message = String::from_str(prefix).concat(image_error_text(error).as_str());
    assert(message@.subrange(0, prefix@.len() as int) =~= prefix@);
    message
}

/// The result of decoding: an animation only from two frames on; a single
/// frame follows the regular static image path.
pub fn collect_animation(frames: Vec<Picture>, delays: Vec<u64>) -> (result: Option<AnimatedImage>)
    ensures
        match result {
            Some(animation) => frames@.len() >= 2 && animation.frames@ == frames@ && animation.delays@ == delays@,
            None => frames@.len() < 2,
        },
{
    if frames.len() < 2 {
        return None;
    }
    Some(AnimatedImage { frames, delays })
}

/// Walks decoded frame outcomes as the decoder hands them out: a decoding
/// error stops the walk (`Err(None)`), so does a frame that
/// [`check_frame`] rejects (`Err(Some(message))`); otherwise each frame's
/// clamped delay is collected.
pub open spec fn gif_walk(outcomes: Seq<FrameOutcome>) -> Result<Seq<u64>, Option<Seq<char>>>
    decreases outcomes.len(),
{
    if outcomes.len() == 0 {
        Ok(Seq::empty())
    } else {
        match gif_walk(outcomes.drop_last()) {
            Ok(delays) => match outcomes.last() {
                None => Err(None),
                Some((_rows, width, height, numer, denom)) => if delays.len() >= MAX_FRAMES {
                    Err(Some(too_many_frames_message()))
                } else if width > MAX_FRAME_DIM || height > MAX_FRAME_DIM {
                    Err(Some(frame_too_large_message(width, height)))
                } else {
                    Ok(delays.push(clamped_delay_ms(numer as int, denom as int) as u64))
                },
            },
            Err(stop) => Err(stop),
        }
    }
}

/// The pixel rows of a decoded frame outcome (none for an error).
pub open spec fn outcome_rows(outcome: FrameOutcome) -> Seq<Seq<Pixel>> {
    match outcome {
        Some(frame) => frame.0,
        None => Seq::empty(),
    }
}

/// The rows form a grid no larger than [`MAX_FRAME_DIM`] either way.
pub open spec fn within_frame_bounds(rows: Seq<Seq<Pixel>>) -> bool {
    &&& has_size(rows, rows_width(rows), rows.len() as int)
    &&& rows_width(rows) <= MAX_FRAME_DIM
    &&& rows.len() <= MAX_FRAME_DIM
}

/// A walk that goes through collects one delay per outcome, and every
/// outcome is a decoded frame.
proof fn lemma_walk_complete(outcomes: Seq<FrameOutcome>)
    requires
        gif_walk(outcomes) is Ok,
    ensures
        gif_walk(outcomes)->Ok_0.len() == outcomes.len(),
        forall|i: int| 0 <= i < outcomes.len() ==> #[trigger] outcomes[i] is Some,
    decreases outcomes.len(),
{
    if outcomes.len() > 0 {
        lemma_walk_complete(outcomes.drop_last());
        assert forall|i: int| 0 <= i < outcomes.len() implies #[trigger] outcomes[i] is Some by {
            if i < outcomes.len() - 1 {
                assert(outcomes.drop_last()[i] == outcomes[i]);
            }
        }
    }
}

/// Once the walk of a prefix has stopped, the walk of the whole stops the
/// same way.
proof fn lemma_walk_stopped(outcomes: Seq<FrameOutcome>, n: int)
    requires
        0 <= n <= outcomes.len(),
        gif_walk(outcomes.take(n)) is Err,
    ensures
        gif_walk(outcomes) == gif_walk(outcomes.take(n)),
    decreases outcomes.len() - n,
{
    if n < outcomes.len() {
        assert(outcomes.take(n + 1).drop_last() =~= outcomes.take(n));
        lemma_walk_stopped(outcomes, n + 1);
    } else {
        assert(outcomes.take(n) =~= outcomes);
    }
}

/// What decoding a GIF whose decoder yields `outcomes` returns: an error at
/// the first failed or rejected frame, else an animation of the frames when
/// there are two or more, else nothing.
pub open spec fn animation_result(
    outcomes: Seq<FrameOutcome>,
    result: Result<Option<AnimatedImage>, String>,
) -> bool {
    match gif_walk(outcomes) {
        Ok(delays) => if delays.len() < 2 {
            result matches Ok(None)
        } else {
            result matches Ok(Some(animation)) && animation.delays@ == delays && animation.frames@.len()
                == outcomes.len() && forall|i: int|
                0 <= i < outcomes.len() ==> #[trigger] picture_rows(animation.frames@[i]) == outcome_rows(
                    outcomes[i],
                )
        },
        Err(None) => result matches Err(message) && starts_with_text(message@, "GIF frame error: "@),
        Err(Some(reason)) => result matches Err(message) && message@ == reason,
    }
}

/// Every outcome is a decoded frame no larger than 4096 pixels either way.
pub open spec fn frames_within_limits(outcomes: Seq<FrameOutcome>) -> bool {
    forall|i: int|
        0 <= i < outcomes.len() ==> (#[trigger] outcomes[i] matches Some(f) && f.1 <= 4096 && f.2 <= 4096)
}

/// The walk goes through every decoding of at most 600 frames that are all
/// within the size limit: one delay per frame, each at least 20 ms.
pub proof fn lemma_walk_accepts(outcomes: Seq<FrameOutcome>)
    requires
        outcomes.len() <= 600,
        frames_within_limits(outcomes),
    ensures
        gif_walk(outcomes) is Ok,
        gif_walk(outcomes)->Ok_0.len() == outcomes.len(),
        forall|i: int| 0 <= i < outcomes.len() ==> #[trigger] gif_walk(outcomes)->Ok_0[i] >= 20,
    decreases outcomes.len(),
{
    if outcomes.len() > 0 {
        let d = outcomes.drop_last();
        assert forall|i: int| 0 <= i < d.len() implies (#[trigger] d[i] matches Some(f) && f.1 <= 4096 && f.2
            <= 4096) by {
            assert(d[i] == outcomes[i]);
        }
        lemma_walk_accepts(d);
        let last = outcomes[outcomes.len() - 1];
        assert(last matches Some(f) && f.1 <= 4096 && f.2 <= 4096);
        let f = last->Some_0;
        lemma_delay_floor(f.3 as int, f.4 as int);
        let r = rounded_delay_ms(f.3 as int, f.4 as int);
        if f.4 > 0 {
            assert(r <= f.3 + 1) by (nonlinear_arith)
                requires
                    f.4 >= 1,
                    r == (2 * f.3 + f.4) / (2 * f.4),
            ;
        }
        assert(clamped_delay_ms(f.3 as int, f.4 as int) <= u64::MAX);
    }
}

/// Decoding an animated GIF of two to 600 frames within the size limit
/// yields all of them, in order, with one delay each; fewer than two
/// frames yield no animation.
pub proof fn lemma_small_animations_decode(outcomes: Seq<FrameOutcome>, result: Result<Option<AnimatedImage>, String>)
    requires
        animation_result(outcomes, result),
        outcomes.len() <= 600,
        frames_within_limits(outcomes),
    ensures
        outcomes.len() >= 2 ==> (result matches Ok(Some(animation)) && animation.frames@.len() == outcomes.len()
            && animation.delays@.len() == outcomes.len()),
        outcomes.len() < 2 ==> result matches Ok(None),
{
    lemma_walk_accepts(outcomes);
}

/// The walk refuses a decoding for having too many frames only when it
/// holds more than 600.
proof fn lemma_walk_too_many(outcomes: Seq<FrameOutcome>)
    requires
        gif_walk(outcomes) == Err::<Seq<u64>, Option<Seq<char>>>(Some(too_many_frames_message())),
    ensures
        outcomes.len() > 600,
    decreases outcomes.len(),
{
    reveal_strlit("GIF exceeds the maximum frame count (600)");
    reveal_strlit("GIF frame of ");
    let d = outcomes.drop_last();
    if gif_walk(d) is Err {
        lemma_walk_too_many(d);
    } else {
        lemma_walk_complete(d);
        let last = outcomes.last();
        if let Some((_rows, width, height, _numer, _denom)) = last {
            if gif_walk(d)->Ok_0.len() < 600 && (width > 4096 || height > 4096) {
                let m = frame_too_large_message(width, height);
                assert(m[4] == 'f');
                assert(too_many_frames_message()[4] == 'e');
            }
        }
    }
}

/// Decoding refuses a GIF for its frame count only when the decoder yields
/// more than 600 frames.
pub proof fn lemma_too_many_frames_only_past_600(outcomes: Seq<FrameOutcome>, result: Result<Option<AnimatedImage>, String>)
    requires
        animation_result(outcomes, result),
        result matches Err(message) && message@ == too_many_frames_message(),
    ensures
        outcomes.len() > 600,
{
    reveal_strlit("GIF exceeds the maximum frame count (600)");
    reveal_strlit("GIF frame error: ");
    match gif_walk(outcomes) {
        Ok(_) => {},
        Err(None) => {
            let message = result->Err_0;
            assert(message@.subrange(0, 17)[4] == message@[4]);
            assert("GIF frame error: "@[4] == 'f');
        },
        Err(Some(reason)) => {
            lemma_walk_too_many(outcomes);
        },
    }
}

/// Decodes an animated GIF into composited frames and delays.
///
/// Returns `Ok(None)` when the bytes are not a GIF or contain fewer than two
/// frames (a static GIF follows the regular static image path).
pub fn decode_animated_gif(bytes: &[u8]) -> (result: Result<Option<AnimatedImage>, String>)
    ensures
        !is_gif_bytes(bytes@) ==> result matches Ok(None),
        is_gif_bytes(bytes@) ==> match gif_decoding(bytes@) {
            None => result matches Err(message) && starts_with_text(message@, "GIF decoder error: "@),
            Some(outcomes) => animation_result(outcomes, result),
        },
        match result {
            Ok(Some(animation)) => {
                &&& 2 <= animation.frames@.len() <= MAX_FRAMES
                &&& animation.delays@.len() == animation.frames@.len()
                &&& forall|i: int|
                    0 <= i < animation.frames@.len() ==> within_frame_bounds(
                        #[trigger] picture_rows(animation.frames@[i]),
                    )
                &&& forall|i: int|
                    0 <= i < animation.delays@.len() ==> MIN_FRAME_DELAY_MS <= #[trigger] animation.delays@[i]
                        <= u32::MAX
            },
            Ok(None) => true,
            Err(message) => {
                ||| starts_with_text(message@, "GIF decoder error: "@)
                ||| starts_with_text(message@, "GIF frame error: "@)
                ||| message@ == too_many_frames_message()
                ||| exists|w: u32, h: u32|
                    (w > MAX_FRAME_DIM || h > MAX_FRAME_DIM) && message@ == #[trigger] frame_too_large_message(w, h)
            },
        },
{
    if !is_gif(bytes) {
        return Ok(None);
    }
    let mut frames_iter = match gif_frames(bytes) {
        Ok(frames_iter) => frames_iter,
        Err(error) => return Err(error_message("GIF decoder error: ", &error)),
    };
    let ghost outcomes = frames_remaining(frames_iter);
    let mut frames: Vec<Picture> = Vec::new();
    let mut delays: Vec<u64> = Vec::new();
    loop
        invariant_except_break
            frames_remaining(frames_iter) == outcomes.skip(delays@.len() as int),
        invariant
            is_gif_bytes(bytes@),
            gif_decoding(bytes@) == Some(outcomes),
            frames@.len() == delays@.len() <= MAX_FRAMES,
            delays@.len() <= outcomes.len(),
            gif_walk(outcomes.take(delays@.len() as int)) == Ok::<Seq<u64>, Option<Seq<char>>>(delays@),
            forall|i: int| 0 <= i < delays@.len() ==> MIN_FRAME_DELAY_MS <= #[trigger] delays@[i] <= u32::MAX,
            forall|i: int|
                0 <= i < frames@.len() ==> #[trigger] picture_rows(frames@[i]) == outcome_rows(outcomes[i])
                    && within_frame_bounds(picture_rows(frames@[i])),
        ensures
            gif_walk(outcomes) == Ok::<Seq<u64>, Option<Seq<char>>>(delays@),
            frames@.len() == outcomes.len(),
        decreases MAX_FRAMES - frames@.len(),
    {
        let ghost k = delays@.len() as int;
        let ghost rest = frames_remaining(frames_iter);
        let (frame, width, height, numer, denom) = match next_frame(&mut frames_iter) {
            None => {
                assert(outcomes.skip(k).len() == 0);
                assert(outcomes.take(k) =~= outcomes);
                break;
            },
            Some(Ok(next)) => next,
            Some(Err(error)) => {
                proof {
                    assert(rest[0] == outcomes[k]);
                    assert(outcomes.take(k + 1).drop_last() =~= outcomes.take(k));
                    assert(gif_walk(outcomes.take(k + 1)) == Err::<Seq<u64>, Option<Seq<char>>>(None));
                    lemma_walk_stopped(outcomes, k + 1);
                }
                return Err(error_message("GIF frame error: ", &error));
            },
        };
        proof {
            assert(rest[0] == outcomes[k]);
            assert(outcomes.take(k + 1).drop_last() =~= outcomes.take(k));
            assert(outcomes.take(k + 1).last() == outcomes[k]);
        }
        match check_frame(frames.len(), width, height) {
            Ok(()) => {},
            Err(message) => {
                proof {
                    assert(gif_walk(outcomes.take(k + 1)) is Err);
                    lemma_walk_stopped(outcomes, k + 1);
                }
                assert(frames@.len() >= MAX_FRAMES ==> message@ == too_many_frames_message());
                return Err(message);
            },
        }
        delays.push(clamp_delay(numer, denom));
        let ghost rows = frame_rows(frame);
        proof {
            assert(outcome_rows(outcomes[k]) == rows);
            if height > 0 {
                assert(rows[0].len() == width);
            }
            assert(within_frame_bounds(rows));
        }
        frames.push(frame_into_buffer(frame));
        proof {
            assert(frames_remaining(frames_iter) =~= outcomes.skip(k + 1));
        }
    }
    proof {
        lemma_walk_complete(outcomes);
    }
    Ok(collect_animation(frames, delays))
}

/// Where and how a frame goes onto the canvas.
#[derive(Debug, Clone, Copy, PartialEq, Eq)]
pub struct FrameLayout {
    /// Background colour to fill the canvas with, if any.
    pub fill: Option<(u8, u8, u8, u8)>,
    /// Side of the square the frame is stretched to.
    pub size: u32,
    /// Offset of the frame's top-left corner on both axes; negative when the
    /// frame is larger than the canvas and is clipped.
    pub offset: i64,
}

/// The background fill: the parsed colour, except that a colour starting
/// with `#000000` (black) is skipped, as the frontend does.
pub open spec fn background_fill(background: Option<Seq<char>>) -> Option<(u8, u8, u8, u8)> {
    match background {
        Some(colour) => if has_prefix(colour, "#000000"@) {
            None
        } else {
            hex_colour(colour)
        },
        None => None,
    }
}

/// The image scale in percent: 100 when unset, and at least 10.
pub open spec fn effective_scale(image_scale: Option<u8>) -> int {
    let scale = match image_scale {
        Some(s) => s as int,
        None => 100,
    };
    if scale < 10 {
        10
    } else {
        scale
    }
}

/// Side of the stretched frame: `canvas * scale / 100`, at least 1.
pub open spec fn scaled_size(image_scale: Option<u8>) -> int {
    let size = CANVAS_SIZE * effective_scale(image_scale) / 100;
    if size < 1 {
        1
    } else {
        size
    }
}

/// Offset that centres a frame of side `size` on the canvas.
pub open spec fn centring_offset(size: int) -> int {
    CANVAS_SIZE / 2 - size / 2
}

/// The layout's rules in plain terms: the frame is stretched to 144
/// times the scale in percent (100 when unset, at least 10) over 100
/// pixels, at least one, and its corner sits at `72 - side / 2` on both axes,
/// so that it is centred on the 144-pixel canvas; a background colour is
/// skipped exactly when it starts with `#000000`, and is otherwise the
/// colour it writes.
pub proof fn lemma_layout_rules(background: Option<Seq<char>>, image_scale: Option<u8>)
    ensures
        ({
            let percent: int = match image_scale {
                Some(s) => if s < 10 { 10 } else { s as int },
                None => 100,
            };
            scaled_size(image_scale) == if 144 * percent / 100 < 1 { 1 } else { 144 * percent / 100 }
        }),
        centring_offset(scaled_size(image_scale)) == 72 - scaled_size(image_scale) / 2,
        match background {
            Some(b) => if b.len() >= 7 && b.subrange(0, 7) == "#000000"@ {
                background_fill(background) is None
            } else {
                background_fill(background) == hex_colour(b)
            },
            None => background_fill(background) is None,
        },
{
    reveal_strlit("#000000");
}

/// Computes the composition of a frame onto the canvas: the background
/// fill, the stretched size `canvas * image_scale / 100` and the offset that
/// centres it. Sizes above the canvas are kept and centred at negative
/// offsets, so the canvas clips them.
pub fn compose_layout(background: Option<&str>, image_scale: Option<u8>) -> (layout: FrameLayout)
    ensures
        layout.fill == background_fill(
            match background {
                Some(b) => Some(b@),
                None => None,
            },
        ),
        layout.size == scaled_size(image_scale),
        layout.offset == centring_offset(layout.size as int),
        1 <= layout.size <= 367,
        ({
            let percent: int = match image_scale {
                Some(s) => if s < 10 { 10 } else { s as int },
                None => 100,
            };
            layout.size == if 144 * percent / 100 < 1 { 1 } else { 144 * percent / 100 }
        }),
        layout.offset == 72 - layout.size / 2,
        match background {
            Some(b) => if b@.len() >= 7 && b@.subrange(0, 7) == "#000000"@ {
                layout.fill is None
            } else {
                layout.fill == hex_colour(b@)
            },
            None => layout.fill is None,
        },
{
    proof {
        lemma_layout_rules(
            match background {
                Some(b) => Some(b@),
                None => None,
            },
            image_scale,
        );
    }
    let fill = match background {
        Some(colour) => {
            let chars = chars_of(colour);
            if starts_with(&chars, &chars_of("#000000")) {
                None
            } else {
                parse_hex_colour(colour)
            }
        },
        None => None,
    };
    let requested: u64 = match image_scale {
        Some(s) => s as u64,
        None => 100,
    };
    let scale: u64 = if requested < 10 {
        10
    } else {
        requested
    };
    assert(scale <= 255);
    let stretched: u64 = (CANVAS_SIZE as u64) * scale / 100;
    let size: u64 = if stretched < 1 {
        1
    } else {
        stretched
    };
    let size: u32 = size as u32;
    let offset: i64 = (CANVAS_SIZE as i64) / 2 - (size as i64) / 2;
    FrameLayout { fill, size, offset }
}

/// Composites a frame onto the logical canvas, mirroring the frontend
/// renderer: the canvas is [`CANVAS_SIZE`] pixels per side, the background
/// colour is filled first unless it starts with "#000000", and the frame is
/// stretched to `canvas * image_scale / 100` around the centre, clipped by
/// the canvas where larger. The placement is [`compose_layout`]'s.
pub fn compose_frame(frame: &Picture, background: Option<&str>, image_scale: Option<u8>) -> (canvas: Picture)
    ensures
        has_size(picture_rows(canvas), CANVAS_SIZE as int, CANVAS_SIZE as int),
        forall|row: int, column: int|
            0 <= row < CANVAS_SIZE && 0 <= column < CANVAS_SIZE ==> #[trigger] picture_rows(canvas)[row][column]
                == composed_pixel(
                picture_rows(*frame),
                match background {
                    Some(b) => Some(b@),
                    None => None,
                },
                image_scale,
                row,
                column,
            ),
{
    let layout = compose_layout(background, image_scale);
    let ghost bg = match background {
        Some(b) => Some(b@),
        None => None,
    };
    let mut canvas = match layout.fill {
        Some(colour) => filled_picture(CANVAS_SIZE, CANVAS_SIZE, colour),
        None => blank_picture(CANVAS_SIZE, CANVAS_SIZE),
    };
    let ghost before = picture_rows(canvas);
    let scaled = resize_lanczos3(frame, layout.size, layout.size);
    proof {
        let top = picture_rows(scaled);
        assert(top[0].len() == layout.size);
    }
    overlay_at(&mut canvas, &scaled, layout.offset, layout.offset);
    proof {
        let after = picture_rows(canvas);
        assert forall|row: int, column: int|
            0 <= row < CANVAS_SIZE && 0 <= column < CANVAS_SIZE implies #[trigger] after[row][column]
            == composed_pixel(picture_rows(*frame), bg, image_scale, row, column) by {
            assert(before[row].len() == CANVAS_SIZE);
            assert(before[row][column] == background_pixel(bg));
        }
        assert forall|row: int| 0 <= row < CANVAS_SIZE implies #[trigger] after[row].len() == CANVAS_SIZE by {
            assert(before[row].len() == CANVAS_SIZE);
        }
    }
    canvas
}

/// The pixel at `(column, row)` of a frame with pixel rows `frame`
/// composited onto the canvas: inside the centred square of side
/// [`scaled_size`], the blend of the frame resampled to that square over the
/// background; elsewhere the background.
pub open spec fn composed_pixel(
    frame: Seq<Seq<Pixel>>,
    background: Option<Seq<char>>,
    image_scale: Option<u8>,
    row: int,
    column: int,
) -> Pixel {
    let size = scaled_size(image_scale);
    let offset = centring_offset(size);
    if inside_rect(column, row, offset, offset, size, size) {
        rgba_blend(
            background_pixel(background),
            lanczos3_resized(frame, size as u32, size as u32)[row - offset][column - offset],
        )
    } else {
        background_pixel(background)
    }
}

/// The colour of the canvas wherever the frame does not cover it: the
/// background fill, or transparent black without one.
pub open spec fn background_pixel(background: Option<Seq<char>>) -> Pixel {
    match background_fill(background) {
        Some(colour) => colour,
        None => (0u8, 0u8, 0u8, 0u8),
    }
}

/// Where a composed frame lands: on the 144 x 144 canvas, the frame is
/// stretched to a square whose side is 144 times the
/// scale in percent (100 when unset, at least 10) over 100, and whose top-left corner
/// is at `72 - side / 2` on both axes, so that it sits around the centre.
/// Inside that square a pixel is the stretched frame's pixel at the same
/// place relative to the corner, blended over the background; every other
/// pixel is the background.
pub proof fn lemma_frame_drawn_centred(
    frame: Seq<Seq<Pixel>>,
    background: Option<Seq<char>>,
    image_scale: Option<u8>,
    row: int,
    column: int,
)
    requires
        0 <= row < 144,
        0 <= column < 144,
    ensures
        ({
            let percent: int = match image_scale {
                Some(s) => if s < 10 { 10 } else { s as int },
                None => 100,
            };
            let side = if 144 * percent / 100 < 1 { 1 } else { 144 * percent / 100 };
            let corner = 72 - side / 2;
            if corner <= row < corner + side && corner <= column < corner + side {
                composed_pixel(frame, background, image_scale, row, column) == rgba_blend(
                    background_pixel(background),
                    lanczos3_resized(frame, side as u32, side as u32)[row - corner][column - corner],
                )
            } else {
                composed_pixel(frame, background, image_scale, row, column) == background_pixel(background)
            }
        }),
{
    lemma_layout_rules(background, image_scale);
}

/// From a scale of 100 percent on, the stretched frame covers the whole
/// canvas, so no background shows.
pub proof fn lemma_full_scale_covers_canvas(image_scale: Option<u8>)
    requires
        effective_scale(image_scale) >= 100,
    ensures
        forall|row: int, column: int|
            0 <= row < CANVAS_SIZE && 0 <= column < CANVAS_SIZE ==> #[trigger] inside_rect(
                column,
                row,
                centring_offset(scaled_size(image_scale)),
                centring_offset(scaled_size(image_scale)),
                scaled_size(image_scale),
                scaled_size(image_scale),
            ),
{
    let scale = effective_scale(image_scale);
    assert(CANVAS_SIZE * scale / 100 >= CANVAS_SIZE) by (nonlinear_arith)
        requires
            scale >= 100,
    ;
}

/// The stretched frame sits centred on the canvas: the margins left and
/// right of it (negative where it overflows) differ by at most one pixel.
pub proof fn lemma_frame_centred(image_scale: Option<u8>)
    ensures
        ({
            let size = scaled_size(image_scale);
            let offset = centring_offset(size);
            let trailing = CANVAS_SIZE - (offset + size);
            0 <= offset - trailing <= 1
        }),
{
}

} // verus!
