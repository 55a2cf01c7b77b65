use base64::Engine;
use std::borrow::Cow;
use std::time::Duration;

use opendeck::gif_animation::{
    check_frame, clamp_delay, compose_frame, compose_layout, decode_animated_gif, extract_base64_payload, is_gif, parse_hex_colour,
    FrameLayout, CANVAS_SIZE, MIN_FRAME_DELAY_MS,
};

const RED: [u8; 3] = [255, 0, 0];
const BLUE: [u8; 3] = [0, 0, 255];

/// One frame of a test GIF: its placement, colour indices, delay (in
/// hundredths of a second) and disposal.
struct TestFrame {
    left: u16,
    top: u16,
    width: u16,
    height: u16,
    pixels: Vec<u8>,
    delay: u16,
    dispose: gif::DisposalMethod,
}

fn solid(width: u16, height: u16, index: u8, delay: u16) -> TestFrame {
    TestFrame {
        left: 0,
        top: 0,
        width,
        height,
        pixels: vec![index; width as usize * height as usize],
        delay,
        dispose: gif::DisposalMethod::Keep,
    }
}

/// Encodes a GIF with a red (0) / blue (1) palette.
fn encode_gif(width: u16, height: u16, frames: &[TestFrame]) -> Vec<u8> {
    let mut palette = Vec::new();
    palette.extend_from_slice(&RED);
    palette.extend_from_slice(&BLUE);
    let mut bytes = Vec::new();
    {
        let mut encoder = gif::Encoder::new(&mut bytes, width, height, &palette).unwrap();
        for f in frames {
            let frame = gif::Frame {
                delay: f.delay,
                dispose: f.dispose,
                left: f.left,
                top: f.top,
                width: f.width,
                height: f.height,
                buffer: Cow::Borrowed(&f.pixels),
                ..gif::Frame::default()
            };
            encoder.write_frame(&frame).unwrap();
        }
    }
    bytes
}

/// Two 16x16 frames: red for 50 ms, then blue for 100 ms.
fn swap_gif() -> Vec<u8> {
    encode_gif(16, 16, &[solid(16, 16, 0, 5), solid(16, 16, 1, 10)])
}

/// A 64x64 red frame with a blue square at (4..20, 4..20), then a partial
/// frame holding a blue square at (40..56, 40..56).
fn moved_square_gif(first_disposal: gif::DisposalMethod, second: TestFrame) -> Vec<u8> {
    let mut first = solid(64, 64, 0, 10);
    for y in 4..20usize {
        for x in 4..20usize {
            first.pixels[y * 64 + x] = 1;
        }
    }
    first.dispose = first_disposal;
    encode_gif(64, 64, &[first, second])
}

#[test]
fn decodes_two_frame_swap() {
    let bytes = swap_gif();
    let animation = decode_animated_gif(&bytes).unwrap().expect("swap.gif is animated");

    assert_eq!(animation.frame_count(), 2);
    assert_eq!(Duration::from_millis(animation.delays[0]), Duration::from_millis(50));
    assert_eq!(Duration::from_millis(animation.delays[1]), Duration::from_millis(100));

    assert_eq!(animation.frames[0].image.get_pixel(0, 0).0, [255, 0, 0, 255]);
    assert_eq!(animation.frames[1].image.get_pixel(0, 0).0, [0, 0, 255, 255]);
}

#[test]
fn treats_static_gif_as_not_animated() {
    let bytes = encode_gif(16, 16, &[solid(16, 16, 0, 0)]);
    assert!(decode_animated_gif(&bytes).unwrap().is_none());
}

#[test]
fn rejects_non_gif_bytes() {
    assert!(decode_animated_gif(b"\x89PNG\r\n\x1a\nnot a gif").unwrap().is_none());
}

/// disposal=1: frame 2 only carries a moved rectangle, so decoding must
/// composite it onto the previous frame.
#[test]
fn composites_disposal1_frames() {
    let second = TestFrame {
        left: 40,
        top: 40,
        width: 16,
        height: 16,
        pixels: vec![1; 256],
        delay: 10,
        dispose: gif::DisposalMethod::Keep,
    };
    let bytes = moved_square_gif(gif::DisposalMethod::Keep, second);
    let animation = decode_animated_gif(&bytes).unwrap().expect("disposal1.gif is animated");

    assert_eq!(animation.frame_count(), 2);
    // The moved rectangle is solid in frame 2.
    assert_eq!(animation.frames[1].image.get_pixel(48, 48).0, [0, 0, 255, 255]);
    // Far from the rectangle, frame 2 must show the first frame's content.
    assert_eq!(animation.frames[1].image.get_pixel(0, 0).0, [255, 0, 0, 255]);
}

/// disposal=2: the previous rectangle is restored to the background in
/// frame 2 instead of remaining visible.
#[test]
fn composites_disposal2_frames() {
    // Frame 2 repaints the red background over rows 0..60 and moves the
    // square; rows 60.. show the disposed first frame.
    let mut pixels = vec![0u8; 64 * 60];
    for y in 40..56usize {
        for x in 40..56usize {
            pixels[y * 64 + x] = 1;
        }
    }
    let second = TestFrame { left: 0, top: 0, width: 64, height: 60, pixels, delay: 10, dispose: gif::DisposalMethod::Keep };
    let bytes = moved_square_gif(gif::DisposalMethod::Background, second);
    let animation = decode_animated_gif(&bytes).unwrap().expect("disposal2.gif is animated");

    assert_eq!(animation.frame_count(), 2);
    // Restored area (frame 1's rectangle) must no longer show blue...
    assert_eq!(animation.frames[1].image.get_pixel(8, 8).0[0], 255);
    assert_ne!(animation.frames[1].image.get_pixel(8, 8).0, [0, 0, 255, 255]);
    // ...and the moved rectangle must be present at its new position.
    assert_eq!(animation.frames[1].image.get_pixel(48, 48).0, [0, 0, 255, 255]);
}

#[test]
fn clamps_tiny_frame_delays() {
    let bytes = encode_gif(8, 8, &[solid(8, 8, 0, 1), solid(8, 8, 1, 0)]);
    let animation = decode_animated_gif(&bytes).unwrap().expect("tiny_delay.gif is animated");
    for delay in animation.delays {
        assert!(Duration::from_millis(delay) >= Duration::from_millis(u64::from(MIN_FRAME_DELAY_MS)));
    }
}

#[test]
fn extracts_base64_payload() {
    let data = b"gif-bytes";
    let encoded = base64::engine::general_purpose::STANDARD.encode(data);
    let url = format!("data:image/gif;base64,{encoded}");
    assert_eq!(extract_base64_payload(&url).as_deref(), Some(data.as_slice()));

    let urlencoded = "data:image/gif,%3Csvg%3E";
    assert!(extract_base64_payload(urlencoded).is_none());
    assert!(extract_base64_payload("/path/without/comma").is_none());
}

#[test]
fn base64_parameter_is_found_anywhere_and_in_any_case() {
    assert_eq!(extract_base64_payload("data:BASE64;image/gif, aGVsbG8= \n").as_deref(), Some(&b"hello"[..]));
    assert_eq!(extract_base64_payload("data:;charset=x;Base64,aGk=").as_deref(), Some(&b"hi"[..]));
    assert!(extract_base64_payload("data:image/gif;base6,aGk=").is_none());
    assert!(extract_base64_payload("data:image/gif;base64,@@").is_none());
    assert!(extract_base64_payload("Data:image/gif;base64,aGk=").is_none());
}

#[test]
fn compose_frame_matches_frontend_canvas() {
    let bytes = swap_gif();
    let animation = decode_animated_gif(&bytes).unwrap().unwrap();

    // No background: transparent corners with the frame centred.
    let composed = compose_frame(&animation.frames[0], None, Some(50));
    assert_eq!(composed.image.get_pixel(0, 0).0[3], 0);
    assert_eq!(composed.image.get_pixel(CANVAS_SIZE / 2, CANVAS_SIZE / 2).0, [255, 0, 0, 255]);

    // Background colour shows through wherever the frame leaves canvas space.
    let composed = compose_frame(&animation.frames[0], Some("#00FF00"), Some(50));
    assert_eq!(composed.image.get_pixel(0, 0).0, [0, 255, 0, 255]);
    assert_eq!(composed.image.get_pixel(CANVAS_SIZE / 2, CANVAS_SIZE / 2).0, [255, 0, 0, 255]);

    // Black backgrounds are skipped, leaving transparency like the frontend.
    let composed = compose_frame(&animation.frames[0], None, Some(50));
    assert_eq!(composed.image.get_pixel(0, 0).0[3], 0);

    // Scaling above 100 clips to the canvas.
    let composed = compose_frame(&animation.frames[0], None, Some(200));
    assert_eq!(composed.image.get_pixel(0, 0).0, [255, 0, 0, 255]);
}

#[test]
fn black_backgrounds_are_not_filled() {
    let bytes = swap_gif();
    let animation = decode_animated_gif(&bytes).unwrap().unwrap();
    let composed = compose_frame(&animation.frames[0], Some("#000000ff"), Some(50));
    assert_eq!(composed.image.get_pixel(0, 0).0[3], 0);
    assert_eq!(composed.image.dimensions(), (CANVAS_SIZE, CANVAS_SIZE));
}

#[test]
fn layout_scales_and_centres() {
    assert_eq!(compose_layout(None, Some(50)), FrameLayout { fill: None, size: 72, offset: 36 });
    assert_eq!(compose_layout(None, None), FrameLayout { fill: None, size: 144, offset: 0 });
    assert_eq!(compose_layout(None, Some(0)), FrameLayout { fill: None, size: 14, offset: 65 });
    assert_eq!(compose_layout(None, Some(200)), FrameLayout { fill: None, size: 288, offset: -72 });
    assert_eq!(compose_layout(None, Some(255)), FrameLayout { fill: None, size: 367, offset: -111 });
    assert_eq!(compose_layout(Some("#000000"), Some(100)).fill, None);
    assert_eq!(compose_layout(Some("#0000001"), Some(100)).fill, None);
    assert_eq!(compose_layout(Some("#f00"), Some(100)).fill, Some((255, 0, 0, 255)));
    assert_eq!(compose_layout(Some("red"), Some(100)).fill, None);
}

#[test]
fn recognises_gif_signatures() {
    assert!(is_gif(b"GIF87a..."));
    assert!(is_gif(b"GIF89a"));
    assert!(!is_gif(b"GIF88a"));
    assert!(!is_gif(b"GIF8"));
    assert!(!is_gif(b""));
}

#[test]
fn parses_hex_colours() {
    assert_eq!(parse_hex_colour("#abc"), Some((0xaa, 0xbb, 0xcc, 255)));
    assert_eq!(parse_hex_colour("#A0B1C2"), Some((0xa0, 0xb1, 0xc2, 255)));
    assert_eq!(parse_hex_colour("#a0b1c2d3"), Some((0xa0, 0xb1, 0xc2, 0xd3)));
    assert_eq!(parse_hex_colour("#abcd"), None);
    assert_eq!(parse_hex_colour("#"), None);
    assert_eq!(parse_hex_colour("abc"), None);
    assert_eq!(parse_hex_colour("#abg"), None);
    assert_eq!(parse_hex_colour("#ab\u{e9}"), None);
}

#[test]
fn rounds_and_clamps_delays() {
    assert_eq!(clamp_delay(33, 100), 20);
    assert_eq!(clamp_delay(50, 1), 50);
    assert_eq!(clamp_delay(101, 2), 51);
    assert_eq!(clamp_delay(201, 4), 50);
    assert_eq!(clamp_delay(203, 4), 51);
    assert_eq!(clamp_delay(70, 0), 70);
    assert_eq!(clamp_delay(0, 0), 20);
    assert_eq!(clamp_delay(u32::MAX, 1), u64::from(u32::MAX));
}

#[test]
fn frame_checks_report_limits() {
    assert_eq!(check_frame(0, 4096, 4096), Ok(()));
    assert_eq!(check_frame(600, 1, 1), Err("GIF exceeds the maximum frame count (600)".to_string()));
    assert_eq!(
        check_frame(3, 5000, 12),
        Err("GIF frame of 5000x12px exceeds the maximum frame dimension (4096px)".to_string())
    );
}
