//! The frame that a render fills: an RGB image of the `image` crate, of
//! which the library reads the dimensions and reads and writes single
//! pixels.

use vstd::prelude::*;

verus! {

/// An RGB frame with eight bits per channel, backed by `image::RgbImage`.
/// The image itself is opaque to the verifier: what the contracts know of a
/// frame is its view, and what they know of the image's methods is stated
/// on the functions of this module that call them.
#[verifier::external_body]
pub struct FrameBuffer {
    image: image::RgbImage,
}

/// The width, in pixels, that `image::ImageBuffer::width` reports.
pub uninterp spec fn frame_width(frame: FrameBuffer) -> u32;

/// The height, in pixels, that `image::ImageBuffer::height` reports.
pub uninterp spec fn frame_height(frame: FrameBuffer) -> u32;

/// The red, green and blue channel of each pixel of the image, by column
/// and row.
pub uninterp spec fn frame_pixels(frame: FrameBuffer) -> Map<(u32, u32), (u8, u8, u8)>;

/// The coordinates inside a frame of the given dimensions.
pub open spec fn coordinates(width: u32, height: u32) -> Set<(u32, u32)> {
    Set::new(|at: (u32, u32)| at.0 < width && at.1 < height)
}

/// The number of samples in a frame of the given dimensions: three to a
/// pixel.
pub open spec fn sample_count(width: u32, height: u32) -> int {
    3 * (width as int * height as int)
}

/// What a frame is, to the library's contracts.
pub struct FrameView {
    pub width: u32,
    pub height: u32,
    pub pixels: Map<(u32, u32), (u8, u8, u8)>,
}

impl View for FrameBuffer {
    type V = FrameView;

    open spec fn view(&self) -> FrameView {
        FrameView {
            width: frame_width(*self),
            height: frame_height(*self),
            pixels: frame_pixels(*self),
        }
    }
}

/// `image::ImageBuffer::new`: a frame of the given dimensions with every
/// channel of every pixel zero.  The call panics when the sample buffer
/// would be larger than a vector can be, which the precondition rules out.
#[verifier::external_body]
pub(crate) fn frame_blank(width: u32, height: u32) -> (frame: FrameBuffer)
    requires
        sample_count(width, height) <= isize::MAX,
    ensures
        frame_width(frame) == width,
        frame_height(frame) == height,
        frame_pixels(frame) == Map::new(
            |at: (u32, u32)| coordinates(width, height).contains(at),
            |at: (u32, u32)| (0u8, 0u8, 0u8),
        ),
{
    FrameBuffer { image: image::RgbImage::new(width, height) }
}

/// `image::ImageBuffer::width`.
#[verifier::external_body]
pub(crate) fn frame_width_of(frame: &FrameBuffer) -> (width: u32)
    ensures
        width == frame_width(*frame),
{
    frame.image.width()
}

/// `image::ImageBuffer::height`.
#[verifier::external_body]
pub(crate) fn frame_height_of(frame: &FrameBuffer) -> (height: u32)
    ensures
        height == frame_height(*frame),
{
    frame.image.height()
}

/// `image::ImageBuffer::put_pixel`: the pixel at `(x, y)` takes the given
/// channels and nothing else changes.  The call panics outside the frame,
/// which the precondition rules out.
#[verifier::external_body]
pub(crate) fn frame_put(frame: &mut FrameBuffer, x: u32, y: u32, red: u8, green: u8, blue: u8)
    requires
        x < frame_width(*old(frame)),
        y < frame_height(*old(frame)),
    ensures
        frame_width(*final(frame)) == frame_width(*old(frame)),
        frame_height(*final(frame)) == frame_height(*old(frame)),
        frame_pixels(*final(frame)) == frame_pixels(*old(frame)).insert((x, y), (red, green, blue)),
{
    frame.image.put_pixel(x, y, image::Rgb([red, green, blue]))
}

/// `image::ImageBuffer::get_pixel`: the channels of the pixel at `(x, y)`.
/// The call panics outside the frame, which the precondition rules out.
#[verifier::external_body]
pub(crate) fn frame_get(frame: &FrameBuffer, x: u32, y: u32) -> (pixel: (u8, u8, u8))
    requires
        x < frame_width(*frame),
        y < frame_height(*frame),
    ensures
        pixel == frame_pixels(*frame)[(x, y)],
{
    let channels = frame.image.get_pixel(x, y).0;
    (channels[0], channels[1], channels[2])
}

impl FrameBuffer {
    /// The number of columns.
    pub fn width(&self) -> (width: u32)
        ensures
            width == self@.width,
    {
        frame_width_of(self)
    }

    /// The number of rows.
    pub fn height(&self) -> (height: u32)
        ensures
            height == self@.height,
    {
        frame_height_of(self)
    }

    /// The channels of the pixel at `(x, y)`, or `None` outside the frame.
    pub fn pixel(&self, x: u32, y: u32) -> (channels: Option<(u8, u8, u8)>)
        ensures
            x < self@.width && y < self@.height ==> channels == Some(self@.pixels[(x, y)]),
            !(x < self@.width && y < self@.height) ==> channels is None,
    {
        if x < frame_width_of(self) && y < frame_height_of(self) {
            Some(frame_get(self, x, y))
        } else {
            None
        }
    }
}

} // verus!
