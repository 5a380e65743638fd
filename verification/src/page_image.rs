//! Page images as they are sent along with a request.

use image::ImageEncoder;
use vstd::prelude::*;

use crate::encoding::{base64_text, encode};
use crate::typography::RgbPage;

verus! {

/// The longest side of an image that is sent.
pub const MAX_IMAGE_DIMENSION: u32 = 2048;

/// The quality at which an image is sent.
pub const JPEG_QUALITY: u8 = 88;

/// A side of an image after it was made to fit, given the longest side.
pub open spec fn fitted_side(side: u32, longest: u32) -> int {
    let fitted = (side * MAX_IMAGE_DIMENSION) / (longest as int);
    if fitted < 1 {
        1
    } else {
        fitted
    }
}

/// The longest side of an image.
pub open spec fn longest_side(width: u32, height: u32) -> u32 {
    if width >= height {
        width
    } else {
        height
    }
}

fn fit_side(side: u32, longest: u32) -> (result: u32)
    requires
        side <= longest,
        0 < longest,
    ensures
        result == fitted_side(side, longest),
        1 <= result <= MAX_IMAGE_DIMENSION,
{
    proof {
        assert(side as int * MAX_IMAGE_DIMENSION as int <= longest as int * 2048) by (nonlinear_arith)
            requires
                side <= longest,
                MAX_IMAGE_DIMENSION == 2048,
        ;
        assert((side as int * MAX_IMAGE_DIMENSION as int) / (longest as int) <= 2048) by (nonlinear_arith)
            requires
                side as int * MAX_IMAGE_DIMENSION as int <= longest as int * 2048,
                0 < longest,
        ;
    }
    let scaled: u64 = side as u64 * MAX_IMAGE_DIMENSION as u64;
    let fitted: u64 = scaled / longest as u64;
    if fitted < 1 {
        1
    } else {
        fitted as u32
    }
}

/// `fast_image_resize::Resizer::resize` by convolution with a Lanczos filter: between two images
/// of the same kind it succeeds, and the result has the size that was asked for. The colors are
/// not stated, as the filter weighs them by a sine whose last digits depend on the machine.
#[verifier::external_body]
fn resize_lanczos(
    pixels: &Vec<u8>,
    width: u32,
    height: u32,
    new_width: u32,
    new_height: u32,
) -> (result: Option<Vec<u8>>)
    requires
        pixels.len() == 3 * (width * height),
        1 <= new_width <= MAX_IMAGE_DIMENSION,
        1 <= new_height <= MAX_IMAGE_DIMENSION,
    ensures
        result is Some,
        result matches Some(resized) ==> resized.len() == 3 * (new_width * new_height),
{
    let source = image::RgbImage::from_raw(width, height, pixels.clone())?;
    let mut resized = image::RgbImage::new(new_width, new_height);
    let filter = fast_image_resize::ResizeAlg::Convolution(fast_image_resize::FilterType::Lanczos3);
    let options = fast_image_resize::ResizeOptions::new().resize_alg(filter).use_alpha(false);
    fast_image_resize::Resizer::new().resize(&source, &mut resized, &options).ok()?;
    Some(resized.into_raw())
}

/// Both sides of an image are positive and fit 16 bits.
pub open spec fn encodable(width: u32, height: u32) -> bool {
    1 <= width <= 0xffff && 1 <= height <= 0xffff
}

/// The bytes of pixels as JPEG.
pub uninterp spec fn jpeg_bytes(pixels: Seq<u8>, width: u32, height: u32, quality: u8) -> Seq<u8>;

/// `image::codecs::jpeg::JpegEncoder::write_image`: the bytes depend on the pixels, the size and
/// the quality alone. It succeeds if and only if both sides are positive and fit 16 bits.
#[verifier::external_body]
fn jpeg_encode(pixels: &Vec<u8>, width: u32, height: u32, quality: u8) -> (result: Option<Vec<u8>>)
    requires
        pixels.len() == 3 * (width * height),
    ensures
        result is Some == encodable(width, height),
        result matches Some(bytes) ==> bytes@ == jpeg_bytes(pixels@, width, height, quality),
{
    let mut bytes = std::io::Cursor::new(Vec::new());
    image::codecs::jpeg::JpegEncoder::new_with_quality(&mut bytes, quality)
        .write_image(pixels, width, height, image::ExtendedColorType::Rgb8)
        .ok()?;
    Some(bytes.into_inner())
}

/// What is made of an image so that it can be sent.
pub open spec fn prepared(before: RgbPage, after: RgbPage) -> bool {
    let longest = longest_side(before.width, before.height);
    if longest <= MAX_IMAGE_DIMENSION {
        after == before
    } else {
        &&& after.width == fitted_side(before.width, longest)
        &&& after.height == fitted_side(before.height, longest)
        &&& after.well_formed()
    }
}

/// A side is what comes of another where the longest side becomes 2048: it is the greatest whole
/// number that is not too long for the proportions, but at least one.
pub open spec fn scaled(side: int, longest: int, result: int) -> bool {
    ||| result >= 1 && result * longest <= side * 2048 < (result + 1) * longest
    ||| result == 1 && side * 2048 < longest
}

proof fn lemma_fitted_side(side: u32, longest: u32)
    requires
        side <= longest,
        2048 < longest,
    ensures
        scaled(side as int, longest as int, fitted_side(side, longest)),
        1 <= fitted_side(side, longest) <= 2048,
        side == longest ==> fitted_side(side, longest) == 2048,
        side >= 1 ==> fitted_side(side, longest) <= side,
{
    let total = side as int * 2048;
    let count = longest as int;
    let quotient = total / count;
    assert(quotient * count <= total < (quotient + 1) * count && 0 <= quotient) by (nonlinear_arith)
        requires
            quotient == total / count,
            0 < count,
            0 <= total,
    ;
    assert(quotient <= 2048) by (nonlinear_arith)
        requires
            quotient * count <= total,
            total <= count * 2048,
            0 < count,
    ;
    assert(quotient <= side) by (nonlinear_arith)
        requires
            quotient * count <= side * 2048,
            2048 < count,
            0 <= quotient,
            0 <= side,
    ;
    assert(side == longest ==> quotient == 2048) by (nonlinear_arith)
        requires
            total == side * 2048,
            total < (quotient + 1) * count,
            count == longest,
            quotient <= 2048,
            0 < count,
    ;
    assert(quotient < 1 ==> total < count) by (nonlinear_arith)
        requires
            total < (quotient + 1) * count,
            0 <= quotient,
    ;
}

/// An image that is at most 2048 wide and high is sent as it is. Of any other the longest side
/// becomes 2048, and the other side keeps the proportions, rounded down but to no less than one.
/// So no side grows, none vanishes, and the longest side stays the longest.
pub proof fn law_resizing_keeps_proportions(before: RgbPage, after: RgbPage)
    requires
        prepared(before, after),
    ensures
        before.width <= 2048 && before.height <= 2048 ==> after == before,
        before.width >= before.height && before.width > 2048 ==> {
            &&& after.width == 2048
            &&& after.height >= 1
            &&& after.height == 1 || after.height * before.width <= before.height * 2048
            &&& before.height * 2048 < (after.height + 1) * before.width
        },
        before.height >= before.width && before.height > 2048 ==> {
            &&& after.height == 2048
            &&& after.width >= 1
            &&& after.width == 1 || after.width * before.height <= before.width * 2048
            &&& before.width * 2048 < (after.width + 1) * before.height
        },
        before.width >= before.height && before.width > 2048 ==> scaled(
            before.height as int,
            before.width as int,
            after.height as int,
        ),
        before.height >= before.width && before.height > 2048 ==> scaled(
            before.width as int,
            before.height as int,
            after.width as int,
        ),
        after.width <= 2048 && after.height <= 2048,
        before.width >= 1 ==> 1 <= after.width <= before.width,
        before.height >= 1 ==> 1 <= after.height <= before.height,
        before.width >= before.height ==> after.width >= after.height,
        before.height >= before.width ==> after.height >= after.width,
        before.well_formed() ==> after.well_formed(),
{
    let longest = longest_side(before.width, before.height);
    if longest > 2048 {
        lemma_fitted_side(before.width, longest);
        lemma_fitted_side(before.height, longest);
        let width = after.width as int;
        let height = after.height as int;
        let count = longest as int;
        assert(count < 2 * count && 2 * count == (1 + 1) * count) by (nonlinear_arith)
            requires
                0 < count,
        ;
    }
}

/// Making an image fit once more leaves it as it is.
pub proof fn law_resizing_is_done_once(before: RgbPage, after: RgbPage, again: RgbPage)
    requires
        prepared(before, after),
        prepared(after, again),
    ensures
        again == after,
{
    law_resizing_keeps_proportions(before, after);
    law_resizing_keeps_proportions(after, again);
}

/// Makes an image fit the size in which images are sent. One that fits is left as it is.
pub fn prepare_image(image: &mut Option<RgbPage>) -> (result: Result<(), &'static str>)
    requires
        *old(image) matches Some(source) ==> source.well_formed(),
    ensures
        result is Ok,
        match (*old(image), *final(image)) {
            (Some(before), Some(after)) => {
                &&& prepared(before, after)
                &&& before.width <= 2048 && before.height <= 2048 ==> after == before
                &&& before.width >= before.height && before.width > 2048 ==> {
                    &&& after.width == 2048
                    &&& scaled(before.height as int, before.width as int, after.height as int)
                }
                &&& before.height >= before.width && before.height > 2048 ==> {
                    &&& after.height == 2048
                    &&& scaled(before.width as int, before.height as int, after.width as int)
                }
            },
            (None, None) => true,
            _ => false,
        },
{
    proof {
        if *image is Some {
            let before = (*image)->0;
            assert forall|after: RgbPage| #[trigger] prepared(before, after) implies {
                &&& before.width >= before.height && before.width > 2048 ==> {
                    &&& after.width == 2048
                    &&& scaled(before.height as int, before.width as int, after.height as int)
                }
                &&& before.height >= before.width && before.height > 2048 ==> {
                    &&& after.height == 2048
                    &&& scaled(before.width as int, before.height as int, after.width as int)
                }
            } by {
                law_resizing_keeps_proportions(before, after);
            }
        }
    }
    let replacement: Option<RgbPage> = match image {
        None => None,
        Some(source) => {
            let longest: u32 = if source.width >= source.height {
                source.width
            } else {
                source.height
            };
            if longest <= MAX_IMAGE_DIMENSION {
                None
            } else {
                let width = fit_side(source.width, longest);
                let height = fit_side(source.height, longest);
                match resize_lanczos(&source.pixels, source.width, source.height, width, height) {
                    Some(pixels) => Some(RgbPage { width, height, pixels }),
                    None => return Err("failed to resize translation image"),
                }
            }
        },
    };
    if let Some(resized) = replacement {
        *image = Some(resized);
    }
    Ok(())
}

/// An image as text.
pub struct EncodedImage {
    pub data: String,
}

impl EncodedImage {
    /// The image as a link that holds it.
    pub fn data_url(&self) -> (result: String)
        ensures
            result@ == "data:image/jpeg;base64,"@ + self.data@,
    {
        let mut result = "data:image/jpeg;base64,".to_owned();
        result.append(self.data.as_str());
        result
    }
}

/// Writes an image as text. It fails if and only if a side is zero or does not fit 16 bits.
pub fn encode_image(image: &RgbPage) -> (result: Result<EncodedImage, &'static str>)
    requires
        image.well_formed(),
    ensures
        match result {
            Ok(encoded) => encodable(image.width, image.height) && encoded.data@ == base64_text(
                jpeg_bytes(image.pixels@, image.width, image.height, JPEG_QUALITY),
            ),
            Err(message) => !encodable(image.width, image.height) && message@ == "failed to encode translation image"@,
        },
{
    match jpeg_encode(&image.pixels, image.width, image.height, JPEG_QUALITY) {
        Some(bytes) => Ok(EncodedImage { data: encode(&bytes) }),
        None => Err("failed to encode translation image"),
    }
}

} // verus!
