//! Masks of detected regions, and their morphology.

use vstd::prelude::*;

use imageproc::distance_transform::Norm;

use crate::color::square;
use crate::grid::{cell, cell_index, in_grid, lemma_cell_bounds, lemma_cell_injective};
use crate::text;

verus! {

/// The longest side of an image whose distances are computed exactly.
pub const MAX_IMAGE_SIDE: u32 = 16777216;

/// An image with one channel, row by row.
pub struct GrayMask {
    pub width: u32,
    pub height: u32,
    pub pixels: Vec<u8>,
}

impl GrayMask {
    pub open spec fn well_formed(&self) -> bool {
        self.pixels.len() == self.width * self.height
    }

    /// The value at a place of the image.
    pub open spec fn at(&self, x: int, y: int) -> u8 {
        self.pixels@[cell(x, y, self.width as int)]
    }

    pub open spec fn contains_cell(&self, x: int, y: int) -> bool {
        in_grid(x, y, self.width as int, self.height as int)
    }

    /// A black image.
    pub fn new(width: u32, height: u32) -> (result: GrayMask)
        requires
            width * height <= usize::MAX,
        ensures
            result.well_formed(),
            result.width == width,
            result.height == height,
            forall|x: int, y: int|
                in_grid(x, y, width as int, height as int) ==> #[trigger] result.at(x, y) == 0,
    {
        let result = GrayMask { width, height, pixels: vec![0u8; width as usize * height as usize] };
        proof {
            assert forall|x: int, y: int| in_grid(x, y, width as int, height as int) implies (
            #[trigger] result.at(x, y)) == 0 by {
                lemma_cell_bounds(x, y, width as int, height as int);
            }
        }
        result
    }

    /// The value at a place of the image.
    pub fn get(&self, x: u32, y: u32) -> (result: u8)
        requires
            self.well_formed(),
            self.contains_cell(x as int, y as int),
        ensures
            result == self.at(x as int, y as int),
    {
        let index: usize = cell_index(x, y, self.width, self.height, self.pixels.len());
        self.pixels[index]
    }

    /// Sets the value at a place of the image.
    pub fn put(&mut self, x: u32, y: u32, value: u8)
        requires
            old(self).well_formed(),
            old(self).contains_cell(x as int, y as int),
        ensures
            final(self).well_formed(),
            final(self).width == old(self).width,
            final(self).height == old(self).height,
            forall|u: int, v: int|
                old(self).contains_cell(u, v) ==> #[trigger] final(self).at(u, v) == (if u == x && v
                    == y {
                    value
                } else {
                    old(self).at(u, v)
                }),
    {
        let index: usize = cell_index(x, y, self.width, self.height, self.pixels.len());
        self.pixels.set(index, value);
        proof {
            assert forall|u: int, v: int| old(self).contains_cell(u, v) implies #[trigger] self.at(
                u,
                v,
            ) == (if u == x && v == y {
                value
            } else {
                old(self).at(u, v)
            }) by {
                lemma_cell_bounds(u, v, self.width as int, self.height as int);
                if cell(u, v, self.width as int) == index {
                    lemma_cell_injective(u, v, x as int, y as int, self.width as int);
                }
            }
        }
    }
}

/// The squared distance of two places.
pub open spec fn apart(x: int, y: int, u: int, v: int) -> int {
    square(x - u) + square(y - v)
}

/// Some place of the image that is not black lies within a distance.
pub open spec fn lit_within(image: &GrayMask, x: int, y: int, reach: int) -> bool {
    exists|u: int, v: int|
        image.contains_cell(u, v) && #[trigger] image.at(u, v) != 0 && apart(x, y, u, v) <= square(
            reach,
        )
}

/// Some black place of the image lies within a distance.
pub open spec fn dark_within(image: &GrayMask, x: int, y: int, reach: int) -> bool {
    exists|u: int, v: int|
        image.contains_cell(u, v) && #[trigger] image.at(u, v) == 0 && apart(x, y, u, v) <= square(
            reach,
        )
}

/// The image has a side that is not empty and none too long for exact distances.
pub open spec fn measurable(width: int, height: int) -> bool {
    0 < width <= MAX_IMAGE_SIDE && 0 < height <= MAX_IMAGE_SIDE
}

/// `result` is white within the distance of what is lit in `image`, and black elsewhere.
/// A distance of 255 or more is not told apart from 255.
pub open spec fn is_dilated(result: &GrayMask, image: &GrayMask, reach: u8) -> bool {
    &&& result.well_formed()
    &&& result.width == image.width
    &&& result.height == image.height
    &&& forall|x: int, y: int|
        image.contains_cell(x, y) ==> #[trigger] result.at(x, y) == (if reach == 255 || lit_within(
            image,
            x,
            y,
            reach as int,
        ) {
            255u8
        } else {
            0
        })
}

/// `result` is black within the distance of what is black in `image`, and white elsewhere.
pub open spec fn is_eroded(result: &GrayMask, image: &GrayMask, reach: u8) -> bool {
    &&& result.well_formed()
    &&& result.width == image.width
    &&& result.height == image.height
    &&& forall|x: int, y: int|
        image.contains_cell(x, y) ==> #[trigger] result.at(x, y) == (if reach == 255 || dark_within(
            image,
            x,
            y,
            reach as int,
        ) {
            0u8
        } else {
            255
        })
}

/// `result` is the erosion of the dilation of `image`.
pub open spec fn is_closed(result: &GrayMask, image: &GrayMask, reach: u8) -> bool {
    exists|middle: GrayMask| #[trigger]
        is_dilated(&middle, image, reach) && is_eroded(result, &middle, reach)
}

/// `imageproc::morphology::dilate` with the Euclidean norm sets every pixel to white that
/// is within the given distance of a pixel that is not black, and every other to black.
/// Distances are rounded up and saturate at 255.
#[verifier::external_body]
pub(crate) fn dilate(image: &GrayMask, reach: u8) -> (result: GrayMask)
    requires
        image.well_formed(),
        measurable(image.width as int, image.height as int),
    ensures
        is_dilated(&result, image, reach),
{
    let source = image::GrayImage::from_raw(image.width, image.height, image.pixels.clone());
    let dilated = imageproc::morphology::dilate(&source.unwrap_or_default(), Norm::L2, reach);
    GrayMask { width: image.width, height: image.height, pixels: dilated.into_raw() }
}

/// `imageproc::morphology::close` with the Euclidean norm is a dilation followed by an
/// erosion, which sets every pixel to black that is within the given distance of a black one,
/// and every other to white.
#[verifier::external_body]
pub(crate) fn close(image: &GrayMask, reach: u8) -> (result: GrayMask)
    requires
        image.well_formed(),
        measurable(image.width as int, image.height as int),
    ensures
        is_closed(&result, image, reach),
{
    let source = image::GrayImage::from_raw(image.width, image.height, image.pixels.clone());
    let closed = imageproc::morphology::close(&source.unwrap_or_default(), Norm::L2, reach);
    GrayMask { width: image.width, height: image.height, pixels: closed.into_raw() }
}

/// `imageproc::distance_transform::distance_transform` with the Euclidean norm gives each
/// pixel its distance from the closest pixel that is not black, rounded up, and 255 where
/// that is farther or there is none.
#[verifier::external_body]
pub(crate) fn distance_transform(image: &GrayMask) -> (result: GrayMask)
    requires
        image.well_formed(),
        measurable(image.width as int, image.height as int),
    ensures
        is_distances(&result, image),
{
    let source = image::GrayImage::from_raw(image.width, image.height, image.pixels.clone());
    let image = source.unwrap_or_default();
    let distances = imageproc::distance_transform::distance_transform(&image, Norm::L2);
    GrayMask { width: image.width(), height: image.height(), pixels: distances.into_raw() }
}

/// Each value of `result` is the distance to the closest place that is lit, rounded up, at
/// most 255.
pub open spec fn is_distances(result: &GrayMask, image: &GrayMask) -> bool {
    &&& result.well_formed()
    &&& result.width == image.width
    &&& result.height == image.height
    &&& forall|x: int, y: int, reach: int|
        image.contains_cell(x, y) && 0 <= reach < 255 ==> (#[trigger] result.at(x, y) <= reach) == (
        #[trigger] lit_within(image, x, y, reach))
}

/// The mask of a detected region: a rectangle of a page, and which of its pixels the region
/// covers.
pub struct LayoutMask {
    pub x: u32,
    pub y: u32,
    pub width: u32,
    pub height: u32,
    pub pixels: Vec<u8>,
}

impl LayoutMask {
    /// The mask has one value for each pixel of its rectangle.
    pub open spec fn valid(&self) -> bool {
        self.width * self.height <= u32::MAX && self.width * self.height == self.pixels.len()
    }

    /// The place lies in the mask's rectangle.
    pub open spec fn frames(&self, x: int, y: int) -> bool {
        self.x <= x < self.x + self.width && self.y <= y < self.y + self.height
    }

    /// The region covers the place.
    pub open spec fn covers(&self, x: int, y: int) -> bool {
        let index = cell(x - self.x, y - self.y, self.width as int);
        self.frames(x, y) && index < self.pixels.len() && self.pixels@[index] != 0
    }

    /// Tests whether the region covers a place of the page.
    pub fn contains(&self, x: u32, y: u32) -> (result: bool)
        ensures
            result == self.covers(x as int, y as int),
    {
        if x < self.x || y < self.y || x - self.x >= self.width || y - self.y >= self.height {
            return false;
        }
        let left: u64 = (x - self.x) as u64;
        let top: u64 = (y - self.y) as u64;
        proof {
            assert(0 <= top * self.width + left <= 0xffff_ffff * 0xffff_ffff) by (nonlinear_arith)
                requires
                    0 <= top < 0xffff_ffff,
                    0 <= left < self.width,
                    self.width <= 0xffff_ffff,
            ;
            assert(0 <= top * self.width <= 0xffff_ffff * 0xffff_ffff) by (nonlinear_arith)
                requires
                    0 <= top < 0xffff_ffff,
                    self.width <= 0xffff_ffff,
            ;
        }
        let index: u64 = top * self.width as u64 + left;
        if index >= self.pixels.len() as u64 {
            return false;
        }
        self.pixels[index as usize] != 0
    }
}

/// Tests whether a mask has one value for each pixel of its rectangle.
pub fn valid_mask(mask: &LayoutMask) -> (result: bool)
    ensures
        result == mask.valid(),
{
    match mask.width.checked_mul(mask.height) {
        Some(count) => count as u64 == mask.pixels.len() as u64,
        None => false,
    }
}

/// The place of an image at an origin lies on the page.
pub open spec fn on_page(x: int, y: int) -> bool {
    x <= u32::MAX && y <= u32::MAX
}

/// Turns white what a mask covers of an image whose corner lies at an origin of the page.
pub fn stamp_mask(target: &mut GrayMask, mask: &LayoutMask, origin_x: u32, origin_y: u32)
    requires
        old(target).well_formed(),
    ensures
        final(target).well_formed(),
        final(target).width == old(target).width,
        final(target).height == old(target).height,
        forall|x: int, y: int|
            old(target).contains_cell(x, y) ==> #[trigger] final(target).at(x, y) == (
            if mask.valid() && on_page(x + origin_x, y + origin_y) && mask.covers(
                x + origin_x,
                y + origin_y,
            ) {
                255u8
            } else {
                old(target).at(x, y)
            }),
{
    if !valid_mask(mask) {
        return;
    }
    let mut local_y: u32 = 0;
    while local_y < mask.height
        invariant
            mask.valid(),
            local_y <= mask.height,
            target.well_formed(),
            target.width == old(target).width,
            target.height == old(target).height,
            forall|x: int, y: int|
                old(target).contains_cell(x, y) ==> #[trigger] target.at(x, y) == (if on_page(
                    x + origin_x,
                    y + origin_y,
                ) && mask.covers(x + origin_x, y + origin_y) && y + origin_y - mask.y < local_y {
                    255u8
                } else {
                    old(target).at(x, y)
                }),
        decreases mask.height - local_y,
    {
        let page_y: Option<u32> = mask.y.checked_add(local_y);
        let target_y: Option<u32> = match page_y {
            Some(page_y) => page_y.checked_sub(origin_y),
            None => None,
        };
        if let Some(target_y) = target_y {
            if target_y < target.height {
                let mut local_x: u32 = 0;
                while local_x < mask.width
                    invariant
                        mask.valid(),
                        local_y < mask.height,
                        local_x <= mask.width,
                        target_y == mask.y + local_y - origin_y,
                        mask.y + local_y <= u32::MAX,
                        target_y < target.height,
                        target.well_formed(),
                        target.width == old(target).width,
                        target.height == old(target).height,
                        forall|x: int, y: int|
                            old(target).contains_cell(x, y) ==> #[trigger] target.at(x, y) == (
                            if on_page(x + origin_x, y + origin_y) && mask.covers(
                                x + origin_x,
                                y + origin_y,
                            ) && (y + origin_y - mask.y < local_y || (y == target_y && x + origin_x
                                - mask.x < local_x)) {
                                255u8
                            } else {
                                old(target).at(x, y)
                            }),
                    decreases mask.width - local_x,
                {
                    let page_x: Option<u32> = mask.x.checked_add(local_x);
                    let target_x: Option<u32> = match page_x {
                        Some(page_x) => page_x.checked_sub(origin_x),
                        None => None,
                    };
                    if let Some(target_x) = target_x {
                        if target_x < target.width {
                            let index: usize = cell_index(
                                local_x,
                                local_y,
                                mask.width,
                                mask.height,
                                mask.pixels.len(),
                            );
                            if mask.pixels[index] != 0 {
                                target.put(target_x, target_y, 255);
                            }
                        }
                    }
                    local_x += 1;
                }
            }
        }
        local_y += 1;
    }
    proof {
        assert forall|x: int, y: int| old(target).contains_cell(x, y) implies #[trigger] target.at(
            x,
            y,
        ) == (if mask.valid() && on_page(x + origin_x, y + origin_y) && mask.covers(
            x + origin_x,
            y + origin_y,
        ) {
            255u8
        } else {
            old(target).at(x, y)
        }) by {}
    }
}

/// The size of an image.
#[derive(Clone, Copy, Debug, PartialEq, Eq, Structural)]
pub struct ImageSize {
    pub width: u32,
    pub height: u32,
}

/// A detected region: its label, and its mask. The bounds and the score are kept as the bits
/// of their floating-point numbers.
pub struct LayoutDetection {
    pub label: String,
    pub score: u32,
    pub bbox: [u32; 4],
    pub area: u32,
    pub mask: LayoutMask,
}

impl LayoutDetection {
    /// The detection is text of some kind.
    pub open spec fn is_text(&self) -> bool {
        self.label@ == "text"@ || self.label@ == "onomatopoeia"@
    }

    /// The detection belongs to the mask for `label`; every kind of text to that for text.
    pub open spec fn has_mask_label(&self, label: Seq<char>) -> bool {
        if label == "text"@ {
            self.is_text()
        } else {
            self.label@ == label
        }
    }
}

/// Tests whether a detection is text of some kind.
pub fn is_text_detection(detection: &LayoutDetection) -> (result: bool)
    ensures
        result == detection.is_text(),
{
    text::same(detection.label.as_str(), "text") || text::same(
        detection.label.as_str(),
        "onomatopoeia",
    )
}

/// Tests whether a detection belongs to the mask for a label.
pub fn matches_mask_label(detection: &LayoutDetection, label: &str) -> (result: bool)
    ensures
        result == detection.has_mask_label(label@),
{
    if text::same(label, "text") {
        is_text_detection(detection)
    } else {
        text::same(detection.label.as_str(), label)
    }
}

/// A detection for the label covers the place.
pub open spec fn inked(
    detections: Seq<LayoutDetection>,
    label: Seq<char>,
    x: int,
    y: int,
) -> bool {
    exists|i: int|
        0 <= i < detections.len() && (#[trigger] detections[i]).has_mask_label(label)
            && detections[i].mask.valid() && detections[i].mask.covers(x, y)
}

/// `mask` is white where a detection for the label covers the page, and black elsewhere.
pub open spec fn is_mask_for(
    mask: &GrayMask,
    detections: Seq<LayoutDetection>,
    label: Seq<char>,
    size: ImageSize,
) -> bool {
    &&& mask.well_formed()
    &&& mask.width == size.width
    &&& mask.height == size.height
    &&& forall|x: int, y: int|
        mask.contains_cell(x, y) ==> #[trigger] mask.at(x, y) == (if inked(
            detections,
            label,
            x,
            y,
        ) {
            255u8
        } else {
            0
        })
}

/// The mask of all detections for a label.
pub fn mask_for(detections: &Vec<LayoutDetection>, label: &str, size: ImageSize) -> (result:
    GrayMask)
    requires
        size.width * size.height <= usize::MAX,
    ensures
        is_mask_for(&result, detections@, label@, size),
{
    let mut mask = GrayMask::new(size.width, size.height);
    let mut index: usize = 0;
    while index < detections.len()
        invariant
            index <= detections.len(),
            mask.well_formed(),
            mask.width == size.width,
            mask.height == size.height,
            forall|x: int, y: int|
                mask.contains_cell(x, y) ==> #[trigger] mask.at(x, y) == (if inked(
                    detections@.take(index as int),
                    label@,
                    x,
                    y,
                ) {
                    255u8
                } else {
                    0
                }),
        decreases detections.len() - index,
    {
        let ghost before = mask;
        let detection = &detections[index];
        let matching = matches_mask_label(detection, label);
        if matching {
            stamp_mask(&mut mask, &detection.mask, 0, 0);
        }
        proof {
            assert forall|x: int, y: int| mask.contains_cell(x, y) implies #[trigger] mask.at(x, y)
                == (if inked(detections@.take(index as int + 1), label@, x, y) {
                255u8
            } else {
                0
            }) by {
                lemma_inked_step(detections@, label@, index as int, x, y);
                assert(before.contains_cell(x, y));
                assert(before.at(x, y) == (if inked(
                    detections@.take(index as int),
                    label@,
                    x,
                    y,
                ) {
                    255u8
                } else {
                    0
                }));
            }
        }
        index += 1;
    }
    proof {
        assert(detections@.take(index as int) =~= detections@);
    }
    mask
}

/// One detection more covers what it covers itself, and what was covered before.
proof fn lemma_inked_step(
    detections: Seq<LayoutDetection>,
    label: Seq<char>,
    index: int,
    x: int,
    y: int,
)
    requires
        0 <= index < detections.len(),
    ensures
        inked(detections.take(index + 1), label, x, y) == (inked(
            detections.take(index),
            label,
            x,
            y,
        ) || (detections[index].has_mask_label(label) && detections[index].mask.valid()
            && detections[index].mask.covers(x, y))),
{
    let shorter = detections.take(index);
    let longer = detections.take(index + 1);
    if inked(shorter, label, x, y) {
        let i = choose|i: int|
            0 <= i < shorter.len() && (#[trigger] shorter[i]).has_mask_label(label)
                && shorter[i].mask.valid() && shorter[i].mask.covers(x, y);
        assert(longer[i] == shorter[i]);
    }
    if inked(longer, label, x, y) {
        let i = choose|i: int|
            0 <= i < longer.len() && (#[trigger] longer[i]).has_mask_label(label)
                && longer[i].mask.valid() && longer[i].mask.covers(x, y);
        if i < index {
            assert(shorter[i] == longer[i]);
        }
    }
    if detections[index].has_mask_label(label) && detections[index].mask.valid()
        && detections[index].mask.covers(x, y) {
        assert(longer[index] == detections[index]);
    }
}

/// A region covers a place exactly if the value there is not zero, where values stand row by row
/// from the corner of its mask.
pub proof fn law_masks_are_read_row_by_row(mask: LayoutMask, x: int, y: int)
    requires
        mask.valid(),
    ensures
        0 <= x < mask.width && 0 <= y < mask.height ==> mask.covers(mask.x + x, mask.y + y) == (
        mask.pixels@[y * mask.width + x] != 0),
        !(0 <= x < mask.width && 0 <= y < mask.height) ==> !mask.covers(mask.x + x, mask.y + y),
{
    if 0 <= x < mask.width && 0 <= y < mask.height {
        lemma_cell_bounds(x, y, mask.width as int, mask.height as int);
        assert(mask.x + x - mask.x == x && mask.y + y - mask.y == y);
    }
}

/// The mask for text is made of texts and sound effects. Any other mask is made of the detections
/// with its own label.
pub proof fn law_sound_effects_are_masked_as_text(detection: LayoutDetection, label: Seq<char>)
    ensures
        detection.has_mask_label("text"@) <==> detection.label@ == "text"@ || detection.label@
            == "onomatopoeia"@,
        label != "text"@ ==> (detection.has_mask_label(label) <==> detection.label@ == label),
{
}

} // verus!
