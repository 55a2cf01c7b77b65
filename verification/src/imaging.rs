//! Image decoding and pixel work done by the `image` crate. Image values
//! are carried through opaquely; what the library decides from them goes
//! through the plain values these wrappers return.

use vstd::prelude::*;

use image::codecs::gif::GifDecoder;
use image::AnimationDecoder;
use image::{DynamicImage, Frame, Frames, ImageError, RgbaImage};
use std::io::Cursor;

verus! {

/// An RGBA pixel buffer (`image::RgbaImage`). Verus refuses to declare
/// `image::ImageBuffer` itself (its `Pixel` bound is an outside trait), so
/// the buffer is held here, opaque to proofs, and reached only through the
/// wrappers of this module.
#[verifier::external_body]
pub struct Picture {
    pub image: RgbaImage,
}

/// A pixel's RGBA channels.
pub type Pixel = (u8, u8, u8, u8);

/// What a picture holds: its rows of pixels, top to bottom, each left to
/// right.
pub uninterp spec fn picture_rows(picture: Picture) -> Seq<Seq<Pixel>>;

/// The rows form a `width` x `height` grid.
pub open spec fn has_size(rows: Seq<Seq<Pixel>>, width: int, height: int) -> bool {
    rows.len() == height && forall|y: int| 0 <= y < height ==> #[trigger] rows[y].len() == width
}

/// Every pixel of the rows is `colour`.
pub open spec fn all_pixels(rows: Seq<Seq<Pixel>>, colour: Pixel) -> bool {
    forall|y: int, x: int| 0 <= y < rows.len() && 0 <= x < rows[y].len() ==> #[trigger] rows[y][x] == colour
}

/// Width of a picture's rows (that of the first row; 0 without rows).
pub open spec fn rows_width(rows: Seq<Seq<Pixel>>) -> int {
    if rows.len() == 0 {
        0
    } else {
        rows[0].len() as int
    }
}

/// Pixel `(x, y)` lies inside the `width` x `height` rectangle placed with
/// its top-left corner at `(left, top)`.
pub open spec fn inside_rect(x: int, y: int, left: int, top: int, width: int, height: int) -> bool {
    left <= x < left + width && top <= y < top + height
}

/// Declares `image::Frame`, one decoded animation frame.
#[verifier::external_type_specification]
#[verifier::external_body]
pub struct ExFrame(image::Frame);

/// Declares `image::Frames`, the iterator over an animation's frames.
#[verifier::external_type_specification]
#[verifier::external_body]
pub struct ExFrames<'a>(image::Frames<'a>);

/// Declares `image::DynamicImage`, a decoded image of any pixel format.
#[verifier::external_type_specification]
#[verifier::external_body]
pub struct ExDynamicImage(image::DynamicImage);

/// Declares `image::ImageError`.
#[verifier::external_type_specification]
#[verifier::external_body]
pub struct ExImageError(image::ImageError);

/// One outcome of decoding the next frame: `None` for a decoding error,
/// else the frame's pixel rows, width, height, and delay as numerator and
/// denominator in milliseconds.
pub type FrameOutcome = Option<(Seq<Seq<Pixel>>, u32, u32, u32, u32)>;

/// What a decoded frame holds: its composited pixel rows.
pub uninterp spec fn frame_rows(frame: Frame) -> Seq<Seq<Pixel>>;

/// What a frame iterator still yields: its outcomes in order, up to the end
/// of the animation or up to and including its first error.
pub uninterp spec fn frames_remaining(frames: Frames) -> Seq<FrameOutcome>;

/// What decoding GIF `bytes` gives: `None` where the decoder rejects the
/// bytes, else the frame outcomes in order, as [`frames_remaining`] lists
/// them.
pub uninterp spec fn gif_decoding(bytes: Seq<u8>) -> Option<Seq<FrameOutcome>>;

/// Decodes in-memory GIF bytes into an iterator over their frames:
/// `GifDecoder::new` on a `Cursor` over the bytes, then
/// `AnimationDecoder::into_frames` on the decoder (the decoder type cannot
/// be declared to Verus, so it does not leave this function).
///
/// Trusted: decoding depends on the bytes alone, so whether the decoder
/// accepts them, and the frames it yields, are named by [`gif_decoding`].
#[verifier::external_body]
pub(crate) fn gif_frames<'a>(bytes: &'a [u8]) -> (frames: Result<Frames<'a>, ImageError>)
    ensures
        match frames {
            Ok(f) => gif_decoding(bytes@) == Some(frames_remaining(f)),
            Err(_) => gif_decoding(bytes@) is None,
        },
{
    GifDecoder::new(Cursor::new(bytes)).map(AnimationDecoder::into_frames)
}

/// The next decoded frame (`Frames::next`), with the decoder's compositing
/// of partial frames already applied, handed out with its size
/// (`Frame::buffer`, then `ImageBuffer::dimensions`) and its delay
/// (`Frame::delay`, then `Delay::numer_denom_ms`) as plain values.
///
/// Trusted: the call yields the first of the iterator's remaining outcomes
/// ([`frames_remaining`]), a frame with its rows ([`frame_rows`]), which
/// form a grid of the size handed out; after a frame, what remains is the
/// rest. What remains after an error or the end is not stated.
#[verifier::external_body]
pub(crate) fn next_frame<'a>(frames: &mut Frames<'a>) -> (next: Option<Result<(Frame, u32, u32, u32, u32), ImageError>>)
    ensures
        match next {
            None => frames_remaining(*old(frames)).len() == 0,
            Some(Err(_)) => frames_remaining(*old(frames)).len() > 0 && frames_remaining(*old(frames))[0] is None,
            Some(Ok((frame, width, height, numer, denom))) => {
                &&& frames_remaining(*old(frames)).len() > 0
                &&& frames_remaining(*old(frames))[0] == Some((frame_rows(frame), width, height, numer, denom))
                &&& has_size(frame_rows(frame), width as int, height as int)
                &&& frames_remaining(*final(frames)) == frames_remaining(*old(frames)).drop_first()
            },
        },
{
    match frames.next() {
        None => None,
        Some(Err(error)) => Some(Err(error)),
        Some(Ok(frame)) => {
            let (width, height) = frame.buffer().dimensions();
            let (numer, denom) = frame.delay().numer_denom_ms();
            Some(Ok((frame, width, height, numer, denom)))
        },
    }
}

/// The frame's pixel buffer (`Frame::into_buffer`), which holds the frame's
/// rows.
#[verifier::external_body]
pub(crate) fn frame_into_buffer(frame: Frame) -> (buffer: Picture)
    ensures
        picture_rows(buffer) == frame_rows(frame),
{
    Picture { image: frame.into_buffer() }
}

/// The error's message (`ImageError`'s `Display`). Nothing is stated of
/// the text.
#[verifier::external_body]
pub(crate) fn image_error_text(error: &ImageError) -> (text: String) {
    error.to_string()
}

/// A fully transparent `width` x `height` buffer (`ImageBuffer::new`,
/// whose every channel starts at zero), which panics where the buffer's byte
/// length overflows `usize`; the `requires` keeps to sizes far below that.
#[verifier::external_body]
pub(crate) fn blank_picture(width: u32, height: u32) -> (picture: Picture)
    requires
        width <= 4096,
        height <= 4096,
    ensures
        has_size(picture_rows(picture), width as int, height as int),
        all_pixels(picture_rows(picture), (0u8, 0u8, 0u8, 0u8)),
{
    Picture { image: RgbaImage::new(width, height) }
}

/// A `width` x `height` buffer with every pixel set to the given RGBA
/// colour (`ImageBuffer::from_pixel`); same size bounds as [`blank_picture`].
#[verifier::external_body]
pub(crate) fn filled_picture(width: u32, height: u32, colour: (u8, u8, u8, u8)) -> (picture: Picture)
    requires
        width <= 4096,
        height <= 4096,
    ensures
        has_size(picture_rows(picture), width as int, height as int),
        all_pixels(picture_rows(picture), colour),
{
    Picture { image: RgbaImage::from_pixel(width, height, image::Rgba([colour.0, colour.1, colour.2, colour.3])) }
}

/// What resampling pixel rows to `width` x `height` with the Lanczos3
/// filter gives (`imageops::resize`, a computation on the pixels alone).
pub uninterp spec fn lanczos3_resized(rows: Seq<Seq<Pixel>>, width: u32, height: u32) -> Seq<Seq<Pixel>>;

/// The picture resampled to `width` x `height` with the Lanczos3 filter
/// (`imageops::resize`).
///
/// Trusted: the result has the requested size and its pixels are the
/// resampling of the picture's pixels ([`lanczos3_resized`]).
#[verifier::external_body]
pub(crate) fn resize_lanczos3(picture: &Picture, width: u32, height: u32) -> (resized: Picture)
    requires
        width <= 4096,
        height <= 4096,
    ensures
        has_size(picture_rows(resized), width as int, height as int),
        picture_rows(resized) == lanczos3_resized(picture_rows(*picture), width, height),
{
    Picture { image: image::imageops::resize(&picture.image, width, height, image::imageops::FilterType::Lanczos3) }
}

/// What blending RGBA pixel `top` over `bottom` gives (`Rgba::blend`, a
/// floating-point computation on the two pixels alone).
pub uninterp spec fn rgba_blend(bottom: Pixel, top: Pixel) -> Pixel;

/// Blends `top` onto `bottom` with its top-left corner at `(x, y)`,
/// clipping what falls outside (`imageops::overlay`). Stated: the bottom
/// keeps its size; every pixel outside the rectangle that `top` covers
/// keeps its value (the function writes only within `overlay_bounds_ext`'s
/// clipped range); every pixel inside it becomes the blend
/// ([`rgba_blend`]) of its old value and the top pixel over it.
#[verifier::external_body]
pub(crate) fn overlay_at(bottom: &mut Picture, top: &Picture, x: i64, y: i64)
    requires
        has_size(picture_rows(*top), rows_width(picture_rows(*top)), picture_rows(*top).len() as int),
    ensures
        picture_rows(*final(bottom)).len() == picture_rows(*old(bottom)).len(),
        forall|row: int|
            0 <= row < picture_rows(*old(bottom)).len() ==> #[trigger] picture_rows(*final(bottom))[row].len()
                == picture_rows(*old(bottom))[row].len(),
        forall|row: int, column: int|
            0 <= row < picture_rows(*old(bottom)).len() && 0 <= column < picture_rows(*old(bottom))[row].len()
                && !inside_rect(
                column,
                row,
                x as int,
                y as int,
                rows_width(picture_rows(*top)),
                picture_rows(*top).len() as int,
            ) ==> #[trigger] picture_rows(*final(bottom))[row][column] == picture_rows(*old(bottom))[row][column],
        forall|row: int, column: int|
            0 <= row < picture_rows(*old(bottom)).len() && 0 <= column < picture_rows(*old(bottom))[row].len()
                && inside_rect(
                column,
                row,
                x as int,
                y as int,
                rows_width(picture_rows(*top)),
                picture_rows(*top).len() as int,
            ) ==> #[trigger] picture_rows(*final(bottom))[row][column] == rgba_blend(
                picture_rows(*old(bottom))[row][column],
                picture_rows(*top)[row - y][column - x],
            ),
{
    image::imageops::overlay(&mut bottom.image, &top.image, x, y)
}

/// What a decoded image holds: its width, height and its pixels converted
/// to 8-bit RGBA, row by row.
pub uninterp spec fn decoded_pixels(image: DynamicImage) -> (u32, u32, Seq<Seq<Pixel>>);

/// What decoding image `bytes` gives, as [`decoded_pixels`] reads it, or
/// `None` where no supported format decodes them.
pub uninterp spec fn image_decoding(bytes: Seq<u8>) -> Option<(u32, u32, Seq<Seq<Pixel>>)>;

/// Decodes an image of any supported format from memory
/// (`image::load_from_memory`, with its fixed default limits).
///
/// Trusted: decoding depends on the bytes alone ([`image_decoding`]); the
/// decoded pixels form a grid of the image's size.
#[verifier::external_body]
pub(crate) fn load_image(bytes: &[u8]) -> (image: Result<DynamicImage, ImageError>)
    ensures
        match image {
            Ok(decoded) => {
                &&& image_decoding(bytes@) == Some(decoded_pixels(decoded))
                &&& has_size(decoded_pixels(decoded).2, decoded_pixels(decoded).0 as int, decoded_pixels(decoded).1 as int)
            },
            Err(_) => image_decoding(bytes@) is None,
        },
{
    image::load_from_memory(bytes)
}

/// Width of a decoded image in pixels (`DynamicImage::width`).
#[verifier::external_body]
pub(crate) fn image_width(image: &DynamicImage) -> (width: u32)
    ensures
        width == decoded_pixels(*image).0,
{
    image.width()
}

/// Height of a decoded image in pixels (`DynamicImage::height`).
#[verifier::external_body]
pub(crate) fn image_height(image: &DynamicImage) -> (height: u32)
    ensures
        height == decoded_pixels(*image).1,
{
    image.height()
}

/// The image converted to 8-bit RGBA (`DynamicImage::to_rgba8`).
#[verifier::external_body]
pub(crate) fn image_to_rgba(image: &DynamicImage) -> (rgba: Picture)
    ensures
        picture_rows(rgba) == decoded_pixels(*image).2,
{
    Picture { image: image.to_rgba8() }
}

/// The smaller of two integers.
pub open spec fn min_int(a: int, b: int) -> int {
    if a <= b {
        a
    } else {
        b
    }
}

/// The region of `width` x `height` pixels at `(x, y)`, clipped to the
/// rows as `imageops::crop_imm` clips it: the corner is moved inside the
/// picture, then the size is cut to what fits.
pub open spec fn cropped(rows: Seq<Seq<Pixel>>, x: int, y: int, width: int, height: int) -> Seq<Seq<Pixel>> {
    let left = min_int(x, rows_width(rows));
    let top = min_int(y, rows.len() as int);
    let w = min_int(width, rows_width(rows) - left);
    let h = min_int(height, rows.len() - top);
    Seq::new(h as nat, |r: int| Seq::new(w as nat, |c: int| rows[top + r][left + c]))
}

/// A copy of the `width` x `height` region at `(x, y)`, clipped to the
/// picture (`imageops::crop_imm`, then `SubImage::to_image`, which copies
/// pixel by pixel).
#[verifier::external_body]
pub(crate) fn crop_picture(picture: &Picture, x: u32, y: u32, width: u32, height: u32) -> (tile: Picture)
    requires
        has_size(picture_rows(*picture), rows_width(picture_rows(*picture)), picture_rows(*picture).len() as int),
    ensures
        picture_rows(tile) == cropped(picture_rows(*picture), x as int, y as int, width as int, height as int),
{
    Picture { image: image::imageops::crop_imm(&picture.image, x, y, width, height).to_image() }
}

/// What encoding the image as JPEG gives, or `None` where the encoder
/// fails.
pub uninterp spec fn jpeg_encoding(image: DynamicImage) -> Option<Seq<u8>>;

/// The image encoded as JPEG (`DynamicImage::write_to` into an in-memory
/// `Cursor` with `ImageFormat::Jpeg`).
///
/// Trusted: the encoding depends on the image alone ([`jpeg_encoding`]);
/// as for every `Vec`, its length is at most `isize::MAX`.
#[verifier::external_body]
pub(crate) fn encode_jpeg(image: &DynamicImage) -> (jpeg: Result<Vec<u8>, ImageError>)
    ensures
        match jpeg {
            Ok(bytes) => jpeg_encoding(*image) == Some(bytes@) && bytes@.len() <= isize::MAX,
            Err(_) => jpeg_encoding(*image) is None,
        },
{
    let mut buffer: Vec<u8> = Vec::new();
    image.write_to(&mut Cursor::new(&mut buffer), image::ImageFormat::Jpeg).map(|_| buffer)
}

} // verus!
