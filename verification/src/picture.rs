//! Pictures as files, and pictures brought to the size of a page.

use image::DynamicImage::{
    ImageLuma16, ImageLuma8, ImageLumaA16, ImageLumaA8, ImageRgb16, ImageRgb8, ImageRgba16,
    ImageRgba8,
};
use image::ImageBuffer;
use image::ImageEncoder;
use vstd::prelude::*;

use crate::mask::GrayMask;

verus! {

/// The longest side that is brought to any other length.
pub const MAX_RESIZED_SIDE: u32 = 2097152;

/// The samples of a picture, row by row and pixel by pixel, with their channels.
#[derive(Clone, Debug)]
pub enum Samples {
    Gray(Vec<u8>),
    GrayAlpha(Vec<u8>),
    Rgb(Vec<u8>),
    Rgba(Vec<u8>),
    Gray16(Vec<u16>),
    GrayAlpha16(Vec<u16>),
    Rgb16(Vec<u16>),
    Rgba16(Vec<u16>),
}

/// Samples of 8 bits as numbers.
pub open spec fn widened(samples: Seq<u8>) -> Seq<u16> {
    samples.map_values(|sample: u8| sample as u16)
}

impl Samples {
    /// The number of samples of a pixel.
    pub open spec fn channels(self) -> u8 {
        match self {
            Samples::Gray(_) | Samples::Gray16(_) => 1,
            Samples::GrayAlpha(_) | Samples::GrayAlpha16(_) => 2,
            Samples::Rgb(_) | Samples::Rgb16(_) => 3,
            Samples::Rgba(_) | Samples::Rgba16(_) => 4,
        }
    }

    /// The samples have 16 bits.
    pub open spec fn wide(self) -> bool {
        match self {
            Samples::Gray16(_) | Samples::GrayAlpha16(_) | Samples::Rgb16(_) | Samples::Rgba16(_)
                => true,
            _ => false,
        }
    }

    /// The samples as numbers.
    pub open spec fn values(self) -> Seq<u16> {
        match self {
            Samples::Gray(samples) => widened(samples@),
            Samples::GrayAlpha(samples) => widened(samples@),
            Samples::Rgb(samples) => widened(samples@),
            Samples::Rgba(samples) => widened(samples@),
            Samples::Gray16(samples) => samples@,
            Samples::GrayAlpha16(samples) => samples@,
            Samples::Rgb16(samples) => samples@,
            Samples::Rgba16(samples) => samples@,
        }
    }
}

/// A picture.
#[derive(Clone, Debug)]
pub struct Picture {
    pub width: u32,
    pub height: u32,
    pub samples: Samples,
}

impl Picture {
    /// Every pixel has its samples.
    pub open spec fn well_formed(&self) -> bool {
        self.samples.values().len() == self.samples.channels() * (self.width * self.height)
    }

    /// The picture has this size.
    pub open spec fn sized(&self, width: u32, height: u32) -> bool {
        self.width == width && self.height == height
    }

    /// The picture as a PNG file.
    pub open spec fn png(&self) -> Seq<u8> {
        png_bytes(
            self.width,
            self.height,
            self.samples.channels(),
            self.samples.wide(),
            self.samples.values(),
        )
    }
}

/// The picture in a file, where there is one: its size, how many samples a pixel has, whether they
/// have 16 bits, and the samples.
pub uninterp spec fn decoded(bytes: Seq<u8>) -> Option<(u32, u32, u8, bool, Seq<u16>)>;

/// The bytes of a picture as PNG, given its size, the samples of a pixel, whether they have 16
/// bits, and the samples.
pub uninterp spec fn png_bytes(
    width: u32,
    height: u32,
    channels: u8,
    wide: bool,
    values: Seq<u16>,
) -> Seq<u8>;

/// The bytes of a gray image as a PNG that is written quickly.
pub uninterp spec fn gray_png_bytes(pixels: Seq<u8>, width: u32, height: u32) -> Seq<u8>;

/// `image::DynamicImage`.
#[verifier::external_type_specification]
#[verifier::external_body]
pub struct ExDynamicImage(image::DynamicImage);

/// The `image::DynamicImage` with the same size and samples.
#[verifier::external_body]
fn to_outside(width: u32, height: u32, samples: Samples) -> (result: image::DynamicImage)
    requires
        samples.values().len() == samples.channels() * (width * height),
{
    match samples {
        Samples::Gray(s) => ImageBuffer::from_raw(width, height, s).map(ImageLuma8),
        Samples::GrayAlpha(s) => ImageBuffer::from_raw(width, height, s).map(ImageLumaA8),
        Samples::Rgb(s) => ImageBuffer::from_raw(width, height, s).map(ImageRgb8),
        Samples::Rgba(s) => ImageBuffer::from_raw(width, height, s).map(ImageRgba8),
        Samples::Gray16(s) => ImageBuffer::from_raw(width, height, s).map(ImageLuma16),
        Samples::GrayAlpha16(s) => ImageBuffer::from_raw(width, height, s).map(ImageLumaA16),
        Samples::Rgb16(s) => ImageBuffer::from_raw(width, height, s).map(ImageRgb16),
        Samples::Rgba16(s) => ImageBuffer::from_raw(width, height, s).map(ImageRgba16),
    }.unwrap_or_default()
}

/// The picture with the same size and samples as an `image::DynamicImage`. PNG, JPEG and WebP have
/// no samples but those of 8 and 16 bits.
#[verifier::external_body]
fn from_outside(image: image::DynamicImage) -> (result: Picture) {
    let (width, height) = (image.width(), image.height());
    let samples = match image {
        ImageLuma8(buffer) => Samples::Gray(buffer.into_raw()),
        ImageLumaA8(buffer) => Samples::GrayAlpha(buffer.into_raw()),
        ImageRgb8(buffer) => Samples::Rgb(buffer.into_raw()),
        ImageRgba8(buffer) => Samples::Rgba(buffer.into_raw()),
        ImageLuma16(buffer) => Samples::Gray16(buffer.into_raw()),
        ImageLumaA16(buffer) => Samples::GrayAlpha16(buffer.into_raw()),
        ImageRgb16(buffer) => Samples::Rgb16(buffer.into_raw()),
        ImageRgba16(buffer) => Samples::Rgba16(buffer.into_raw()),
        other => Samples::Rgba(other.into_rgba8().into_raw()),
    };
    Picture { width, height, samples }
}

/// `image::load_from_memory`, which reads PNG, JPEG and WebP: whether the bytes are a picture, and
/// which one, depends on the bytes alone. All three are decoded with integers, and what is computed
/// with vector instructions of a processor gives the same numbers as without them.
#[verifier::external_body]
fn load_from_memory(bytes: &Vec<u8>) -> (result: Option<Picture>)
    ensures
        match result {
            Some(picture) => picture.well_formed() && decoded(bytes@) == Some(
                (
                    picture.width,
                    picture.height,
                    picture.samples.channels(),
                    picture.samples.wide(),
                    picture.samples.values(),
                ),
            ),
            None => decoded(bytes@) is None,
        },
{
    image::load_from_memory(bytes).ok().map(from_outside)
}

/// A side can be brought to another length: one of the two is short enough for the place of every
/// new pixel to be found in single precision. Where both are longer, the place can be rounded past
/// all the pixels that a new one is made of, which then weigh nothing, and the outside call panics.
pub open spec fn side_resizable(side: u32, new_side: u32) -> bool {
    side <= MAX_RESIZED_SIDE || new_side <= MAX_RESIZED_SIDE
}

/// A picture of one size can be brought to another: it has that size, or its sides can be brought
/// to the new lengths, and what is computed on the way (four numbers of four bytes for a pixel,
/// then at most eight bytes) can be held.
pub open spec fn resizable(width: u32, height: u32, new_width: u32, new_height: u32) -> bool {
    ||| (width == new_width && height == new_height)
    ||| {
        &&& side_resizable(width, new_width)
        &&& side_resizable(height, new_height)
        &&& 32 * (width * new_height) <= usize::MAX
        &&& 16 * (new_width * new_height) <= usize::MAX
    }
}

/// `image::DynamicImage::resize_exact` with a Lanczos filter: the result has the size that was
/// asked for and the channels of the picture, and is the picture where that has the size. Other
/// samples are not stated, as the filter weighs them by a sine whose last digits depend on the
/// machine.
#[verifier::external_body]
fn resize_exact(picture: Picture, width: u32, height: u32) -> (result: Picture)
    requires
        picture.well_formed(),
        resizable(picture.width, picture.height, width, height),
    ensures
        result.well_formed(),
        result.sized(width, height),
        result.samples.channels() == picture.samples.channels(),
        result.samples.wide() == picture.samples.wide(),
        picture.sized(width, height) ==> result.samples.values() == picture.samples.values(),
{
    let filter = image::imageops::FilterType::Lanczos3;
    let outside = to_outside(picture.width, picture.height, picture.samples);
    from_outside(outside.resize_exact(width, height, filter))
}

/// `image::DynamicImage::write_to` with the format PNG: the bytes depend on the size and the
/// samples alone. It succeeds if and only if both sides are positive.
#[verifier::external_body]
fn write_to_png(picture: &Picture) -> (result: Option<Vec<u8>>)
    requires
        picture.well_formed(),
    ensures
        result is Some == (picture.width > 0 && picture.height > 0),
        result matches Some(bytes) ==> bytes@ == png_bytes(
            picture.width,
            picture.height,
            picture.samples.channels(),
            picture.samples.wide(),
            picture.samples.values(),
        ),
{
    let mut bytes = std::io::Cursor::new(Vec::new());
    to_outside(picture.width, picture.height, picture.samples.clone())
        .write_to(&mut bytes, image::ImageFormat::Png)
        .ok()?;
    Some(bytes.into_inner())
}

/// `image::codecs::png::PngEncoder::write_image` with fast compression and without filters: the
/// bytes depend on the pixels and the size alone. It succeeds if and only if both sides are
/// positive.
#[verifier::external_body]
fn write_gray_png(pixels: &Vec<u8>, width: u32, height: u32) -> (result: Option<Vec<u8>>)
    requires
        pixels.len() == width * height,
    ensures
        result is Some == (width > 0 && height > 0),
        result matches Some(bytes) ==> bytes@ == gray_png_bytes(pixels@, width, height),
{
    let mut bytes = std::io::Cursor::new(Vec::new());
    let (speed, plain) = (
        image::codecs::png::CompressionType::Fast,
        image::codecs::png::FilterType::NoFilter,
    );
    image::codecs::png::PngEncoder::new_with_quality(&mut bytes, speed, plain)
        .write_image(pixels, width, height, image::ExtendedColorType::L8)
        .ok()?;
    Some(bytes.into_inner())
}

/// Writes a picture as a PNG file. It fails if and only if a side is zero.
pub fn encode_png(picture: &Picture) -> (result: Option<Vec<u8>>)
    requires
        picture.well_formed(),
    ensures
        result is Some == (picture.width > 0 && picture.height > 0),
        result matches Some(bytes) ==> bytes@ == picture.png(),
{
    write_to_png(picture)
}

/// Writes a mask as a PNG file. It fails if and only if a side is zero.
pub fn encode_mask(mask: &GrayMask) -> (result: Option<Vec<u8>>)
    requires
        mask.well_formed(),
    ensures
        result is Some == (mask.width > 0 && mask.height > 0),
        result matches Some(bytes) ==> bytes@ == gray_png_bytes(
            mask.pixels@,
            mask.width,
            mask.height,
        ),
{
    write_gray_png(&mask.pixels, mask.width, mask.height)
}

/// The picture has the size and the channels that were told of it.
pub open spec fn shaped(picture: Picture, shape: (u32, u32, u8, bool)) -> bool {
    &&& picture.well_formed()
    &&& picture.sized(shape.0, shape.1)
    &&& picture.samples.channels() == shape.2
    &&& picture.samples.wide() == shape.3
}

/// A picture was brought to the size of a page: it has that size and its old channels, and its
/// samples too where it had the size.
pub open spec fn fitted(picture: Picture, page_width: u32, page_height: u32, image: Picture) -> bool {
    &&& shaped(
        image,
        (page_width, page_height, picture.samples.channels(), picture.samples.wide()),
    )
    &&& picture.sized(page_width, page_height) ==> image.samples.values()
        == picture.samples.values()
}

/// The bytes are a file with this picture.
pub open spec fn holds_picture(bytes: Seq<u8>, picture: Picture) -> bool {
    &&& picture.well_formed()
    &&& decoded(bytes) == Some(
        (
            picture.width,
            picture.height,
            picture.samples.channels(),
            picture.samples.wide(),
            picture.samples.values(),
        ),
    )
}

/// Reads the picture in a file.
pub fn decode_picture(bytes: &Vec<u8>) -> (result: Option<Picture>)
    ensures
        match result {
            Some(picture) => holds_picture(bytes@, picture),
            None => decoded(bytes@) is None,
        },
{
    load_from_memory(bytes)
}

/// Brings a picture to a size, where it can be brought to it.
pub fn fit_picture(picture: Picture, width: u32, height: u32) -> (result: Option<Picture>)
    requires
        picture.well_formed(),
    ensures
        match result {
            Some(image) => {
                &&& resizable(picture.width, picture.height, width, height)
                &&& fitted(picture, width, height, image)
            },
            None => !resizable(picture.width, picture.height, width, height),
        },
{
    proof {
        assert(picture.width * height <= u32::MAX * u32::MAX) by (nonlinear_arith)
            requires
                picture.width <= u32::MAX,
                height <= u32::MAX,
        ;
        assert(width * height <= u32::MAX * u32::MAX) by (nonlinear_arith)
            requires
                width <= u32::MAX,
                height <= u32::MAX,
        ;
        assert(0 <= picture.width * height) by (nonlinear_arith);
        assert(0 <= width * height) by (nonlinear_arith);
    }
    let between: u128 = 32 * (picture.width as u128 * height as u128);
    let after: u128 = 16 * (width as u128 * height as u128);
    let same = picture.width == width && picture.height == height;
    let sides = (picture.width <= MAX_RESIZED_SIDE || width <= MAX_RESIZED_SIDE) && (picture.height
        <= MAX_RESIZED_SIDE || height <= MAX_RESIZED_SIDE);
    if same || (sides && between <= usize::MAX as u128 && after <= usize::MAX as u128) {
        Some(resize_exact(picture, width, height))
    } else {
        None
    }
}

} // verus!
