//! Images of the visual log are shrunk before they are sent.
use vstd::prelude::*;

use crate::num::{count, deterministic, Geometric};
use crate::visualize::needs_resize;

verus! {

/// An image of three color bytes per pixel, row by row.
pub struct RgbPixels {
    pub width: u32,
    pub height: u32,
    pub pixels: Vec<u8>,
}

impl RgbPixels {
    /// The pixels fill the image.
    pub open spec fn wf(&self) -> bool {
        self.pixels.len() == byte_count(self.width as int, self.height as int)
    }

    /// The image is within what the sampling filter can address and weigh.
    pub open spec fn fits(&self) -> bool {
        &&& self.width <= MAX_SIDE
        &&& self.height <= MAX_SIDE
        &&& 16 * (self.width * self.height) <= isize::MAX
    }
}

/// The longest side on which single precision still tells neighbouring pixels
/// apart.
pub const MAX_SIDE: u32 = 0x40_0000;

/// The bytes of an image.
pub open spec fn byte_count(width: int, height: int) -> int {
    3 * (width * height)
}

/// The bytes of an image that the triangle filter resampled to another size.
pub uninterp spec fn triangle_resampled(
    pixels: Seq<u8>,
    width: u32,
    height: u32,
    new_width: u32,
    new_height: u32,
) -> Seq<u8>;

/// Calls `image::imageops::resize` with the triangle filter. Claims that the new
/// bytes are a function of the old ones and of the two sizes, and that they fill
/// the new size. Sizes on which the filter's weights could vanish, or whose
/// buffers could not be allocated, are left out: it panics there.
#[verifier::external_body]
fn resize(img: RgbPixels, new_width: u32, new_height: u32) -> (out: Vec<u8>)
    requires
        img.wf(),
        img.fits(),
        0 < new_width,
        0 < new_height,
        new_width <= img.width || new_width == 1,
        new_height <= img.height || new_height == 1,
    ensures
        out@ == triangle_resampled(img.pixels@, img.width, img.height, new_width, new_height),
        out.len() == byte_count(new_width as int, new_height as int),
{
    let source = image::RgbImage::from_raw(img.width, img.height, img.pixels)
        .expect("the pixels fill the image");
    let filter = image::imageops::FilterType::Triangle;
    image::imageops::resize(&source, new_width, new_height, filter).into_raw()
}

/// A side of the image that has been scaled by `max_size` over the longest side,
/// at least one pixel.
pub open spec fn scaled_side<S: Geometric>(side: u32, longest: u32, max_size: u32) -> u32 {
    let n = (count::<S>(side) * (count(max_size) / count(longest))).nearest();
    if n == 0 {
        1
    } else if n >= u32::MAX {
        u32::MAX
    } else {
        n as u32
    }
}

fn scale_side<S: Geometric>(side: u32, longest: u32, max_size: u32) -> (r: u32)
    ensures
        r > 0,
        deterministic::<S>() ==> r == scaled_side::<S>(side, longest, max_size),
{
    let n: u64 = (count::<S>(side) * (count(max_size) / count(longest))).nearest();
    if n == 0 {
        1
    } else if n >= u32::MAX as u64 {
        u32::MAX
    } else {
        n as u32
    }
}

pub open spec fn longest_side(width: u32, height: u32) -> u32 {
    if width > height {
        width
    } else {
        height
    }
}

/// The size of an image after it was shrunk so that its longest side is
/// `max_size`; the size that it has where it is small enough.
pub fn shrunk_size<S: Geometric>(width: u32, height: u32, max_size: u32) -> (r: (u32, u32))
    ensures
        max_size == 0 || (width <= max_size && height <= max_size) ==> r == (width, height),
        deterministic::<S>() && max_size != 0 && (width > max_size || height > max_size) ==> r == (
            scaled_side::<S>(width, longest_side(width, height), max_size),
            scaled_side::<S>(height, longest_side(width, height), max_size),
        ),
        max_size != 0 && (width > max_size || height > max_size) ==> r.0 > 0 && r.1 > 0,
{
    if !needs_resize(width, height, max_size) {
        return (width, height);
    }
    let longest: u32 = if width > height {
        width
    } else {
        height
    };
    (scale_side::<S>(width, longest, max_size), scale_side::<S>(height, longest, max_size))
}

/// The image in a size that [`shrunk_size`] gave: as it is where that is its own
/// size. None where a side would grow past the image.
pub fn resize_to(img: RgbPixels, size: (u32, u32)) -> (out: Option<RgbPixels>)
    requires
        img.wf(),
        size == (img.width, img.height) || img.fits(),
    ensures
        size == (img.width, img.height) ==> out == Some(img),
        size != (img.width, img.height) ==> match out {
            None => size.0 == 0 || size.1 == 0 || (size.0 > img.width && size.0 != 1) || (size.1
                > img.height && size.1 != 1),
            Some(small) => {
                &&& small.wf()
                &&& (small.width, small.height) == size
                &&& size.0 != 0 && size.1 != 0
                &&& size.0 <= img.width || size.0 == 1
                &&& size.1 <= img.height || size.1 == 1
                &&& small.pixels@ == triangle_resampled(
                    img.pixels@,
                    img.width,
                    img.height,
                    size.0,
                    size.1,
                )
            },
        },
{
    let (width, height): (u32, u32) = size;
    if width == img.width && height == img.height {
        return Some(img);
    }
    if width == 0 || height == 0 || (width > img.width && width != 1) || (height > img.height
        && height != 1) {
        return None;
    }
    Some(RgbPixels { width, height, pixels: resize(img, width, height) })
}

/// Shrinks an image so that its longest side is `max_size`; a maximum of zero
/// stands for none. None where rounding in `S` would make a side grow.
pub fn resize_to_max<S: Geometric>(img: RgbPixels, max_size: u32) -> (out: Option<RgbPixels>)
    requires
        img.wf(),
        max_size != 0 && (img.width > max_size || img.height > max_size) ==> img.fits(),
    ensures
        out matches Some(small) ==> small.wf(),
        max_size == 0 || (img.width <= max_size && img.height <= max_size) ==> out == Some(img),
        deterministic::<S>() && max_size != 0 && (img.width > max_size || img.height > max_size)
            ==> {
            let longest = longest_side(img.width, img.height);
            let width = scaled_side::<S>(img.width, longest, max_size);
            let height = scaled_side::<S>(img.height, longest, max_size);
            match out {
                None => (width > img.width && width != 1) || (height > img.height && height != 1),
                Some(small) => (width, height) == (img.width, img.height) && small == img || {
                    &&& (small.width, small.height) == (width, height)
                    &&& small.pixels@ == triangle_resampled(
                        img.pixels@,
                        img.width,
                        img.height,
                        width,
                        height,
                    )
                },
            }
        },
{
    let size: (u32, u32) = shrunk_size::<S>(img.width, img.height, max_size);
    resize_to(img, size)
}

/// The longest side is a side, and no side is longer.
pub proof fn longest_side_is_a_side(width: u32, height: u32)
    ensures
        longest_side(width, height) == width || longest_side(width, height) == height,
        longest_side(width, height) >= width,
        longest_side(width, height) >= height,
{
}

/// Every row of an image takes three bytes for each of its columns.
pub proof fn rows_take_three_bytes_a_column(width: int, height: int)
    ensures
        byte_count(width, 0) == 0,
        byte_count(width, height + 1) == byte_count(width, height) + 3 * width,
{
    assert(width * 0 == 0) by (nonlinear_arith);
    assert(width * (height + 1) == width * height + width) by (nonlinear_arith);
}

} // verus!
