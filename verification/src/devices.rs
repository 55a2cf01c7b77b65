//! Routing of device events: to the plugin that registered the device's
//! namespace, to the built-in Elgato driver, or nowhere.

use vstd::prelude::*;
use vstd::string::StringSliceAdditionalSpecFns;
use vstd::utf8::is_char_boundary;

use crate::codec::{encode_standard, padded_encoded_len, standard_base64_encoded};
use crate::gif_animation::{base64_payload, extract_base64_payload, lemma_payload_round_trip};
use crate::imaging::{encode_jpeg, jpeg_encoding};
use crate::text::{chars_of, has_prefix, starts_with};

verus! {

/// Where an event for a device goes.
#[derive(Debug, Clone, Copy, PartialEq, Eq)]
pub enum DeviceRoute {
    /// To the plugin that registered the device's namespace.
    Plugin,
    /// To the built-in driver of Elgato Stream Decks.
    Elgato,
    /// Nowhere: no plugin owns the device and it is no Stream Deck.
    Unhandled,
}

/// Devices of the built-in Elgato driver have identifiers starting with
/// `sd-`.
pub open spec fn is_elgato_device(device: Seq<char>) -> bool {
    has_prefix(device, "sd-"@)
}

/// The route of an event for `device`, given whether a plugin registered
/// the device's namespace.
pub open spec fn route_of(plugin_registered: bool, device: Seq<char>) -> DeviceRoute {
    if plugin_registered {
        DeviceRoute::Plugin
    } else if is_elgato_device(device) {
        DeviceRoute::Elgato
    } else {
        DeviceRoute::Unhandled
    }
}

/// The namespace of a device: the first two bytes of its identifier, by
/// which plugins register the devices they drive. The identifier must have a
/// character boundary after its second byte.
pub fn device_namespace(device: &str) -> (namespace: &str)
    requires
        is_char_boundary(device.spec_bytes(), 2),
    ensures
        namespace.spec_bytes() == device.spec_bytes().subrange(0, 2),
{
    device.split_at(2).0
}

/// Decides where an event for `device` goes: to the plugin owning its
/// namespace if there is one, else to the Elgato driver for `sd-` devices.
pub fn route_device(plugin_registered: bool, device: &str) -> (route: DeviceRoute)
    ensures
        route == route_of(plugin_registered, device@),
        plugin_registered ==> route == DeviceRoute::Plugin,
        !plugin_registered ==> (route == DeviceRoute::Elgato <==> (device@.len() >= 3 && device@.subrange(0, 3)
            == "sd-"@)),
        !plugin_registered ==> route != DeviceRoute::Plugin,
{
    proof {
        lemma_routes(plugin_registered, device@);
    }
    if plugin_registered {
        DeviceRoute::Plugin
    } else if starts_with(&chars_of(device), &chars_of("sd-")) {
        DeviceRoute::Elgato
    } else {
        DeviceRoute::Unhandled
    }
}

/// An event goes to the plugin that registered the device's namespace
/// whenever there is one, whatever the device's identifier; without one,
/// it goes to the Elgato driver exactly for identifiers starting with
/// `sd-`, and nowhere otherwise.
pub proof fn lemma_routes(plugin_registered: bool, device: Seq<char>)
    ensures
        plugin_registered ==> route_of(plugin_registered, device) == DeviceRoute::Plugin,
        !plugin_registered ==> (route_of(plugin_registered, device) == DeviceRoute::Elgato <==> (device.len() >= 3
            && device.subrange(0, 3) == "sd-"@)),
        !plugin_registered ==> (route_of(plugin_registered, device) == DeviceRoute::Unhandled <==> !(device.len()
            >= 3 && device.subrange(0, 3) == "sd-"@)),
{
    reveal_strlit("sd-");
}

/// Decides where a brightness change for `device` goes; a sleeping device
/// is left alone.
pub fn brightness_route(sleeping: bool, plugin_registered: bool, device: &str) -> (route: Option<DeviceRoute>)
    ensures
        route == if sleeping {
            None
        } else {
            Some(route_of(plugin_registered, device@))
        },
        sleeping ==> route is None,
        !sleeping && plugin_registered ==> route == Some(DeviceRoute::Plugin),
        !sleeping && !plugin_registered ==> (route == Some(DeviceRoute::Elgato) <==> (device@.len() >= 3
            && device@.subrange(0, 3) == "sd-"@)),
{
    proof {
        lemma_routes(plugin_registered, device@);
    }
    if sleeping {
        None
    } else {
        Some(route_device(plugin_registered, device))
    }
}

/// Images for encoders (dials) go to plugins as JPEG data URIs, converted
/// from the image given; images for other controllers go as they are.
pub fn needs_encoder_conversion(controller: &str, image: &Option<String>) -> (convert: bool)
    ensures
        convert == (controller@ == "Encoder"@ && image is Some),
{
    image.is_some() && string_equals(controller, "Encoder")
}

/// Whether the two strings have the same characters.
fn string_equals(a: &str, b: &str) -> (r: bool)
    ensures
        r == (a@ == b@),
{
    let (x, y) = (chars_of(a), chars_of(b));
    if x.len() != y.len() {
        return false;
    }
    let r = starts_with(&x, &y);
    assert(x@.subrange(0, y@.len() as int) =~= x@);
    r
}

/// Why an image cannot be sent to an encoder.
#[derive(Debug)]
pub enum EncoderImageError {
    /// The image is not a base64 data URL.
    UnsupportedPayload,
    /// The rendered encoder image could not be encoded as JPEG.
    Jpeg(image::ImageError),
}

/// The image bytes to render an encoder image from: the payload of the
/// image's base64 data URL.
pub fn encoder_payload(image: &str) -> (result: Result<Vec<u8>, EncoderImageError>)
    ensures
        match result {
            Ok(bytes) => base64_payload(image@) == Some(bytes@),
            Err(EncoderImageError::UnsupportedPayload) => base64_payload(image@) is None,
            Err(_) => false,
        },
{
    match extract_base64_payload(image) {
        Some(bytes) => Ok(bytes),
        None => Err(EncoderImageError::UnsupportedPayload),
    }
}

/// The `data:` URI of JPEG bytes: `data:image/jpeg;base64,` followed by
/// their standard base64 encoding.
pub fn jpeg_data_uri(jpeg: &[u8]) -> (uri: String)
    requires
        jpeg@.len() <= isize::MAX,
    ensures
        uri@ == "data:image/jpeg;base64,"@ + standard_base64_encoded(jpeg@),
        base64_payload(uri@) == Some(jpeg@),
{
    assert(padded_encoded_len(jpeg@.len() as int) <= usize::MAX) by (nonlinear_arith)
        requires
            jpeg@.len() <= isize::MAX,
            isize::MAX < usize::MAX / 2 + 1,
    ;
    let encoded = encode_standard(jpeg);
    let uri = String::from_str("data:image/jpeg;base64,").concat(encoded.as_str());
    proof {
        reveal_strlit("data:image/jpeg;base64,");
        reveal_strlit("data:");
        reveal_strlit(";base64,");
        reveal_strlit("image/jpeg");
        assert(!"image/jpeg"@.contains(',')) by {
            assert forall|i: int| 0 <= i < "image/jpeg"@.len() implies "image/jpeg"@[i] != ',' by {}
        }
        lemma_payload_round_trip("image/jpeg"@, encoded@, jpeg@);
        assert("data:image/jpeg;base64,"@ =~= "data:"@ + "image/jpeg"@ + ";base64,"@);
        assert(uri@ =~= "data:"@ + "image/jpeg"@ + ";base64,"@ + encoded@);
    }
    uri
}

/// Encodes a rendered encoder image as a JPEG data URI.
pub fn encoder_jpeg_data_uri(image: &image::DynamicImage) -> (result: Result<String, EncoderImageError>)
    ensures
        match result {
            Ok(uri) => jpeg_encoding(*image) matches Some(jpeg) && uri@ == "data:image/jpeg;base64,"@
                + standard_base64_encoded(jpeg) && base64_payload(uri@) == Some(jpeg),
            Err(e) => e is Jpeg && jpeg_encoding(*image) is None,
        },
{
    match encode_jpeg(image) {
        Ok(bytes) => {
            let uri = jpeg_data_uri(bytes.as_slice());
            assert(uri@ == "data:image/jpeg;base64,"@ + standard_base64_encoded(bytes@));
            Ok(uri)
        },
        Err(error) => Err(EncoderImageError::Jpeg(error)),
    }
}

} // verus!
