use opendeck::devices::{
    brightness_route, device_namespace, encoder_jpeg_data_uri, encoder_payload, jpeg_data_uri,
    needs_encoder_conversion, route_device, DeviceRoute, EncoderImageError,
};

#[test]
fn namespaces_are_the_first_two_bytes() {
    assert_eq!(device_namespace("sd-AB12"), "sd");
    assert_eq!(device_namespace("op"), "op");
}

#[test]
fn events_are_routed_to_plugins_then_elgato() {
    assert_eq!(route_device(true, "sd-1"), DeviceRoute::Plugin);
    assert_eq!(route_device(false, "sd-1"), DeviceRoute::Elgato);
    assert_eq!(route_device(false, "xx-1"), DeviceRoute::Unhandled);
    assert_eq!(brightness_route(true, true, "sd-1"), None);
    assert_eq!(brightness_route(false, false, "sd-1"), Some(DeviceRoute::Elgato));
}

#[test]
fn only_encoder_images_are_converted() {
    assert!(needs_encoder_conversion("Encoder", &Some("data:image/png;base64,AA==".to_string())));
    assert!(!needs_encoder_conversion("Encoder", &None));
    assert!(!needs_encoder_conversion("Keypad", &Some("x".to_string())));
}

#[test]
fn encoder_images_need_base64_data_urls() {
    assert_eq!(encoder_payload("data:image/png;base64,aGk=").unwrap(), b"hi".to_vec());
    assert!(matches!(encoder_payload("/tmp/image.png"), Err(EncoderImageError::UnsupportedPayload)));
}

#[test]
fn jpeg_data_uris_carry_base64() {
    assert_eq!(jpeg_data_uri(b"hi"), "data:image/jpeg;base64,aGk=");
    let image = image::DynamicImage::ImageRgb8(image::RgbImage::from_pixel(4, 4, image::Rgb([9, 9, 9])));
    let uri = encoder_jpeg_data_uri(&image).unwrap();
    assert!(uri.starts_with("data:image/jpeg;base64,/9j/"));
    let mut jpeg = Vec::new();
    image.write_to(&mut std::io::Cursor::new(&mut jpeg), image::ImageFormat::Jpeg).unwrap();
    assert_eq!(encoder_payload(&uri).unwrap(), jpeg);
    let other = image::DynamicImage::ImageRgb8(image::RgbImage::from_pixel(4, 4, image::Rgb([200, 9, 9])));
    assert_ne!(encoder_jpeg_data_uri(&other).unwrap(), uri);
}
