//! The picture that the tubes are found on, as the `image` crate holds it.
//!
//! Nothing in this file is proved: it says what is taken on trust about
//! pictures of the `image` crate.
use image::RgbImage;
use vstd::prelude::*;

verus! {

/// A screenshot of the game: a picture of red, green and blue pixels. The
/// verifier does not look into it; what it holds is named by `pixel_rows`
/// and `row_width`.
#[verifier::external_body]
pub struct Screenshot {
    pub image: RgbImage,
}

/// The pixels of a screenshot, row by row from the top, each row from the
/// left: `pixel_rows(shot)[y][x]` holds the red, green and blue part of the
/// pixel in column `x` of row `y`, and there are as many rows as the
/// picture is high.
pub uninterp spec fn pixel_rows(shot: Screenshot) -> Seq<Seq<[u8; 3]>>;

/// The number of pixels in each row of a screenshot: its width.
pub uninterp spec fn row_width(shot: Screenshot) -> nat;

/// Calls `ImageBuffer::width` of the `image` crate, which gives the number
/// of pixels in a row of the picture.
#[verifier::external_body]
pub(crate) fn shot_width(shot: &Screenshot) -> (width: u32)
    ensures
        width == row_width(*shot),
{
    shot.image.width()
}

/// Calls `ImageBuffer::height` of the `image` crate, which gives the number
/// of rows of the picture.
#[verifier::external_body]
pub(crate) fn shot_height(shot: &Screenshot) -> (height: u32)
    ensures
        height == pixel_rows(*shot).len(),
{
    shot.image.height()
}

/// Calls `ImageBuffer::get_pixel` of the `image` crate, which gives the
/// pixel in column `x` of row `y`, and hands on its three parts. The call
/// panics on a place outside the picture, which `requires` leaves out.
#[verifier::external_body]
pub(crate) fn shot_pixel(shot: &Screenshot, x: u32, y: u32) -> (pixel: [u8; 3])
    requires
        x < row_width(*shot),
        y < pixel_rows(*shot).len(),
    ensures
        pixel == pixel_rows(*shot)[y as int][x as int],
{
    shot.image.get_pixel(x, y).0
}

} // verus!
