//! Letterboxing: fitting a picture of any size into the square input of the
//! network.
//!
//! The picture is scaled down or up, keeping its aspect ratio, until it
//! fits the square, and is then centred in it on a black ground.  The
//! module yields the network input in channel-first order, each colour
//! byte normalised to the unit interval, together with the numbers that map
//! a box of the network back onto the picture.

use vstd::prelude::*;
use crate::error::DetectError;
use crate::normalize::{normalize_bytes, unit_number};
use crate::scale::{lemma_same_size_has_scale_one, resize_factor, scale};
use crate::single::number::{lemma_number_is_one, number_of};
use crate::single::pattern::ONE_BITS;

verus! {

/// Side of the square network input, in pixels.
pub const INPUT_SIZE: u32 = 320;

/// Number of colour channels of the network input: red, green, blue.
pub const CHANNELS: usize = 3;

/// Number of bytes of one pixel of an `Image`: red, green, blue, alpha.
pub const PIXEL_BYTES: usize = 4;

/// A picture: `height` rows of `width` pixels, four bytes each.
#[derive(Debug, Clone, PartialEq, Eq)]
pub struct Image {
    pub width: u32,
    pub height: u32,
    /// Red, green, blue and alpha of each pixel, row after row.
    pub pixels: Vec<u8>,
}

/// The mathematical content of an `Image`.
pub struct ImageView {
    pub width: int,
    pub height: int,
    pub pixels: Seq<u8>,
}

impl View for Image {
    type V = ImageView;

    open spec fn view(&self) -> ImageView {
        ImageView {
            width: self.width as int,
            height: self.height as int,
            pixels: self.pixels@,
        }
    }
}

impl ImageView {
    /// Whether the picture has a pixel and its buffer holds four bytes for
    /// each pixel and nothing else.
    pub open spec fn is_valid(self) -> bool {
        &&& self.width > 0
        &&& self.height > 0
        &&& self.pixels.len() == PIXEL_BYTES * self.width * self.height
    }

    /// Whether the picture is valid and no larger than the network input.
    pub open spec fn fits(self) -> bool {
        self.is_valid() && self.width <= INPUT_SIZE && self.height <= INPUT_SIZE
    }

    /// Channel `c` of the pixel in column `x` of row `y`.
    pub open spec fn channel(self, c: int, y: int, x: int) -> u8 {
        self.pixels[PIXEL_BYTES * (y * self.width + x) + c]
    }
}

/// The black margins around the scaled picture, in pixels.
#[derive(Debug, Clone, Copy, PartialEq, Eq, Structural)]
pub struct Padding {
    pub top: u32,
    pub bottom: u32,
    pub left: u32,
    pub right: u32,
}

/// The margins that centre a picture of the given size in the network
/// input.  Where a pair of margins has an odd sum, the bottom or right one
/// is the larger.
pub open spec fn centered(width: int, height: int) -> Padding {
    let top = (INPUT_SIZE - height) / 2;
    let left = (INPUT_SIZE - width) / 2;
    Padding {
        top: top as u32,
        bottom: (INPUT_SIZE - height - top) as u32,
        left: left as u32,
        right: (INPUT_SIZE - width - left) as u32,
    }
}

/// Computes `centered`.
pub fn padding(width: u32, height: u32) -> (pad: Padding)
    requires
        width <= INPUT_SIZE,
        height <= INPUT_SIZE,
    ensures
        pad == centered(width as int, height as int),
        pad.top + pad.bottom == INPUT_SIZE - height,
        pad.left + pad.right == INPUT_SIZE - width,
        pad.top <= pad.bottom <= pad.top + 1,
        pad.left <= pad.right <= pad.left + 1,
{
    let top: u32 = (INPUT_SIZE - height) / 2;
    let left: u32 = (INPUT_SIZE - width) / 2;
    Padding {
        top,
        bottom: INPUT_SIZE - height - top,
        left,
        right: INPUT_SIZE - width - left,
    }
}

/// Position of channel `c`, row `y`, column `x` in the network input.
pub open spec fn tensor_index(c: int, y: int, x: int) -> int {
    (c * INPUT_SIZE + y) * INPUT_SIZE + x
}

/// What the network input holds in channel `c`, row `y`, column `x`: the
/// pixel of `scaled` that the margins move there, and 0 in the margins.
pub open spec fn letterbox_value(scaled: ImageView, pad: Padding, c: int, y: int, x: int) -> u8 {
    if pad.left <= x < pad.left + scaled.width && pad.top <= y < pad.top + scaled.height {
        scaled.channel(c, y - pad.top, x - pad.left)
    } else {
        0
    }
}

/// Whether `bytes` is `scaled` centred with the margins `pad`: three planes
/// of `INPUT_SIZE` rows of `INPUT_SIZE` bytes.
pub open spec fn is_letterbox(tensor: Seq<u8>, scaled: ImageView, pad: Padding) -> bool {
    &&& tensor.len() == CHANNELS * INPUT_SIZE * INPUT_SIZE
    &&& forall|c: int, y: int, x: int|
        0 <= c < CHANNELS && 0 <= y < INPUT_SIZE && 0 <= x < INPUT_SIZE ==> tensor[tensor_index(
            c,
            y,
            x,
        )] == #[trigger] letterbox_value(scaled, pad, c, y, x)
}

/// Whether `tensor` is the network input made of `scaled` and the margins
/// `pad`: the letterbox with every byte divided by 255, as bit patterns of
/// singles between 0 and 1.
pub open spec fn is_network_input(tensor: Seq<u32>, scaled: ImageView, pad: Padding) -> bool {
    &&& tensor.len() == CHANNELS * INPUT_SIZE * INPUT_SIZE
    &&& forall|i: int| 0 <= i < tensor.len() ==> #[trigger] tensor[i] <= ONE_BITS
    &&& forall|c: int, y: int, x: int|
        0 <= c < CHANNELS && 0 <= y < INPUT_SIZE && 0 <= x < INPUT_SIZE ==> number_of(
            tensor[tensor_index(c, y, x)],
        ) == unit_number(#[trigger] letterbox_value(scaled, pad, c, y, x))
}

/// What `image::DynamicImage::resize` with the triangle filter makes of an
/// RGBA picture with eight bits per channel: the width, the height and the
/// buffer of the result, for the width, height and buffer of the picture
/// and the bounds to fit it into.
pub uninterp spec fn triangle_resized(
    width: u32,
    height: u32,
    pixels: Seq<u8>,
    nwidth: u32,
    nheight: u32,
) -> (u32, u32, Seq<u8>);

/// Scales a picture with `image::DynamicImage::resize` and the triangle
/// filter so that it fits into `nwidth` by `nheight`.
///
/// Trusted: the result is what `triangle_resized` names.  It has at least
/// one pixel in each direction, since `resize` never goes below 1.  It
/// exceeds neither bound and reaches one of them, as `resize` documents
/// that it keeps the aspect ratio and gives the largest size that fits
/// within the bounds.  Its buffer has four bytes for each of its pixels.
#[verifier::external_body]
fn resize_triangle(source: &Image, nwidth: u32, nheight: u32) -> (scaled: Image)
    requires
        source@.is_valid(),
        nwidth >= 1,
        nheight >= 1,
    ensures
        (scaled.width, scaled.height, scaled.pixels@) == triangle_resized(
            source.width,
            source.height,
            source.pixels@,
            nwidth,
            nheight,
        ),
        1 <= scaled.width <= nwidth,
        1 <= scaled.height <= nheight,
        scaled.width == nwidth || scaled.height == nheight,
        scaled.pixels.len() == PIXEL_BYTES * scaled.width * scaled.height,
{
    let buffer = image::RgbaImage::from_raw(source.width, source.height, source.pixels.clone());
    let scaled = image::DynamicImage::ImageRgba8(buffer.unwrap())
        .resize(nwidth, nheight, image::imageops::FilterType::Triangle)
        .into_rgba8();
    Image { width: scaled.width(), height: scaled.height(), pixels: scaled.into_raw() }
}

/// The picture that is centred in the network input: `image` itself where
/// it has the size of the input already, else `image` scaled to fit.
pub open spec fn fitted(image: ImageView) -> ImageView {
    if image.width == INPUT_SIZE && image.height == INPUT_SIZE {
        image
    } else {
        let scaled = triangle_resized(
            image.width as u32,
            image.height as u32,
            image.pixels,
            INPUT_SIZE,
            INPUT_SIZE,
        );
        ImageView { width: scaled.0 as int, height: scaled.1 as int, pixels: scaled.2 }
    }
}

/// A picture prepared for the network.
#[derive(Debug, Clone, PartialEq, Eq)]
pub struct Letterboxed {
    /// The network input: for each of the three channels `INPUT_SIZE` rows
    /// of `INPUT_SIZE` values between 0 and 1, as bit patterns of singles.
    pub tensor: Vec<u32>,
    /// The margins around the scaled picture.
    pub padding: Padding,
    /// Size of the scaled picture.
    pub resized_width: u32,
    pub resized_height: u32,
    /// Size of the picture as it was given.
    pub source_width: u32,
    pub source_height: u32,
    /// Bit pattern of the scale between the picture and its scaled copy.
    pub resize_factor: u32,
}

impl Image {
    /// Whether the picture has a pixel and its buffer holds four bytes for
    /// each pixel and nothing else.
    pub fn is_valid(&self) -> (valid: bool)
        ensures
            valid == self@.is_valid(),
    {
        let w: u128 = self.width as u128;
        let h: u128 = self.height as u128;
        assert(0 <= w * h <= 0xffff_ffff * 0xffff_ffff) by (nonlinear_arith)
            requires
                0 <= w <= 0xffff_ffff,
                0 <= h <= 0xffff_ffff,
        ;
        assert(PIXEL_BYTES * self.width * self.height == 4 * (w * h)) by (nonlinear_arith)
            requires
                PIXEL_BYTES == 4,
                w == self.width,
                h == self.height,
        ;
        self.width > 0 && self.height > 0 && self.pixels.len() as u128 == 4 * (w * h)
    }
}

/// Centres a picture that fits the network input on a black ground and
/// lays the result out channel by channel.
pub fn letterbox(scaled: &Image) -> (tensor: Vec<u8>)
    requires
        scaled@.fits(),
    ensures
        is_letterbox(tensor@, scaled@, centered(scaled.width as int, scaled.height as int)),
{
    let side: usize = INPUT_SIZE as usize;
    let pad = padding(scaled.width, scaled.height);
    let top: usize = pad.top as usize;
    let left: usize = pad.left as usize;
    let width: usize = scaled.width as usize;
    let height: usize = scaled.height as usize;
    let mut tensor: Vec<u8> = Vec::new();
    let mut c: usize = 0;
    while c < CHANNELS
        invariant
            scaled@.fits(),
            side == INPUT_SIZE,
            pad == centered(scaled.width as int, scaled.height as int),
            top == pad.top,
            left == pad.left,
            width == scaled.width,
            height == scaled.height,
            top + height <= side,
            left + width <= side,
            c <= CHANNELS,
            tensor.len() == tensor_index(c as int, 0, 0),
            forall|c0: int, y0: int, x0: int|
                0 <= c0 < c && 0 <= y0 < INPUT_SIZE && 0 <= x0 < INPUT_SIZE ==> tensor[tensor_index(
                    c0,
                    y0,
                    x0,
                )] == #[trigger] letterbox_value(scaled@, pad, c0, y0, x0),
        decreases CHANNELS - c,
    {
        let mut y: usize = 0;
        while y < side
            invariant
                scaled@.fits(),
                side == INPUT_SIZE,
                pad == centered(scaled.width as int, scaled.height as int),
                top == pad.top,
                left == pad.left,
                width == scaled.width,
                height == scaled.height,
                top + height <= side,
                left + width <= side,
                c < CHANNELS,
                y <= side,
                tensor.len() == tensor_index(c as int, y as int, 0),
                forall|c0: int, y0: int, x0: int|
                    0 <= c0 < c && 0 <= y0 < INPUT_SIZE && 0 <= x0 < INPUT_SIZE
                        ==> tensor[tensor_index(c0, y0, x0)] == #[trigger] letterbox_value(
                        scaled@,
                        pad,
                        c0,
                        y0,
                        x0,
                    ),
                forall|y0: int, x0: int|
                    0 <= y0 < y && 0 <= x0 < INPUT_SIZE ==> tensor[tensor_index(c as int, y0, x0)]
                        == #[trigger] letterbox_value(scaled@, pad, c as int, y0, x0),
            decreases side - y,
        {
            let mut x: usize = 0;
            while x < side
                invariant
                    scaled@.fits(),
                    side == INPUT_SIZE,
                    pad == centered(scaled.width as int, scaled.height as int),
                    top == pad.top,
                    left == pad.left,
                    width == scaled.width,
                    height == scaled.height,
                    top + height <= side,
                    left + width <= side,
                    c < CHANNELS,
                    y < side,
                    x <= side,
                    tensor.len() == tensor_index(c as int, y as int, x as int),
                    forall|c0: int, y0: int, x0: int|
                        0 <= c0 < c && 0 <= y0 < INPUT_SIZE && 0 <= x0 < INPUT_SIZE
                            ==> tensor[tensor_index(c0, y0, x0)] == #[trigger] letterbox_value(
                            scaled@,
                            pad,
                            c0,
                            y0,
                            x0,
                        ),
                    forall|y0: int, x0: int|
                        0 <= y0 < y && 0 <= x0 < INPUT_SIZE ==> tensor[tensor_index(
                            c as int,
                            y0,
                            x0,
                        )] == #[trigger] letterbox_value(scaled@, pad, c as int, y0, x0),
                    forall|x0: int|
                        0 <= x0 < x ==> tensor[tensor_index(c as int, y as int, x0)]
                            == #[trigger] letterbox_value(scaled@, pad, c as int, y as int, x0),
                decreases side - x,
            {
                let value: u8 = if left <= x && x < left + width && top <= y && y < top + height {
                    let row: usize = y - top;
                    let column: usize = x - left;
                    assert(PIXEL_BYTES * (row * width + column) + c < PIXEL_BYTES * width * height
                        && 0 <= row * width <= row * width + column <= 320 * 320)
                        by (nonlinear_arith)
                        requires
                            PIXEL_BYTES == 4,
                            0 <= row < height <= 320,
                            0 <= column < width <= 320,
                            0 <= c < 3,
                    ;
                    scaled.pixels[PIXEL_BYTES * (row * width + column) + c]
                } else {
                    0
                };
                tensor.push(value);
                x += 1;
            }
            y += 1;
        }
        c += 1;
    }
    tensor
}

/// The network input of a picture that fits it: the letterbox, normalised.
pub fn network_input(scaled: &Image) -> (tensor: Vec<u32>)
    requires
        scaled@.fits(),
    ensures
        is_network_input(tensor@, scaled@, centered(scaled.width as int, scaled.height as int)),
{
    let bytes = letterbox(scaled);
    let tensor = normalize_bytes(&bytes);
    proof {
        let pad = centered(scaled.width as int, scaled.height as int);
        assert forall|c: int, y: int, x: int|
            0 <= c < CHANNELS && 0 <= y < INPUT_SIZE && 0 <= x < INPUT_SIZE implies number_of(
            tensor[tensor_index(c, y, x)],
        ) == unit_number(#[trigger] letterbox_value(scaled@, pad, c, y, x)) by {
            let i = tensor_index(c, y, x);
            assert(0 <= i < bytes.len());
            assert(number_of(tensor[i]) == unit_number(bytes[i]));
        }
    }
    tensor
}

/// Prepares a picture for the network.
///
/// A picture without pixels, or whose buffer does not match its size, is
/// refused.  A picture of the size of the network input is taken as it is;
/// any other is scaled with the triangle filter to the largest size of its
/// aspect ratio that fits, so that one of its sides fills the input.  The
/// outcome is centred on black, laid out channel by channel and normalised
/// to the unit interval.  The margins add up to what the scaled picture
/// leaves free.  With them comes the scale between the picture and its
/// scaled copy.  A picture of the size of the input gets no margins and the
/// scale one.
pub fn preprocess(image: &Image) -> (result: Result<Letterboxed, DetectError>)
    ensures
        result.is_ok() <==> image@.is_valid(),
        result matches Err(e) ==> e == DetectError::ImageLoad,
        result matches Ok(out) ==> {
            &&& out.source_width == image.width
            &&& out.source_height == image.height
            &&& out.resized_width == fitted(image@).width
            &&& out.resized_height == fitted(image@).height
            &&& 1 <= out.resized_width <= INPUT_SIZE
            &&& 1 <= out.resized_height <= INPUT_SIZE
            &&& out.resized_width == INPUT_SIZE || out.resized_height == INPUT_SIZE
            &&& out.padding == centered(out.resized_width as int, out.resized_height as int)
            &&& out.padding.top + out.padding.bottom == INPUT_SIZE - out.resized_height
            &&& out.padding.left + out.padding.right == INPUT_SIZE - out.resized_width
            &&& out.padding.top <= out.padding.bottom <= out.padding.top + 1
            &&& out.padding.left <= out.padding.right <= out.padding.left + 1
            &&& is_network_input(out.tensor@, fitted(image@), out.padding)
            &&& number_of(out.resize_factor) == scale(
                image.width,
                image.height,
                out.resized_width,
                out.resized_height,
            )
        },
        result matches Ok(out) ==> (image.width == INPUT_SIZE && image.height == INPUT_SIZE
            ==> out.resized_width == INPUT_SIZE && out.resized_height == INPUT_SIZE && out.padding
            == Padding { top: 0, bottom: 0, left: 0, right: 0 } && out.resize_factor == ONE_BITS),
{
    if !image.is_valid() {
        return Err(DetectError::ImageLoad);
    }
    if image.width == INPUT_SIZE && image.height == INPUT_SIZE {
        let tensor = network_input(image);
        let factor = resize_factor(image.width, image.height, INPUT_SIZE, INPUT_SIZE);
        proof {
            lemma_same_size_has_scale_one(INPUT_SIZE, INPUT_SIZE);
            lemma_number_is_one(factor);
        }
        Ok(
            Letterboxed {
                tensor,
                padding: padding(INPUT_SIZE, INPUT_SIZE),
                resized_width: INPUT_SIZE,
                resized_height: INPUT_SIZE,
                source_width: image.width,
                source_height: image.height,
                resize_factor: factor,
            },
        )
    } else {
        let scaled = resize_triangle(image, INPUT_SIZE, INPUT_SIZE);
        assert(scaled@ == fitted(image@));
        let tensor = network_input(&scaled);
        Ok(
            Letterboxed {
                tensor,
                padding: padding(scaled.width, scaled.height),
                resized_width: scaled.width,
                resized_height: scaled.height,
                source_width: image.width,
                source_height: image.height,
                resize_factor: resize_factor(
                    image.width,
                    image.height,
                    scaled.width,
                    scaled.height,
                ),
            },
        )
    }
}

} // verus!
