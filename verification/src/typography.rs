//! Samples the pixels of a text region and infers how its text is painted.

use vstd::prelude::*;

use crate::closing::Rect;
use crate::color::{colors_of, median_color, median_color_of};
use crate::grid::{cell, in_grid, lemma_cell_bounds, lemma_cell_of};
use crate::mask::{LayoutMask, MAX_IMAGE_SIDE};
use crate::paint::{infer_text_paint, text_paint_of, TextPaint};
use crate::pixel::MaskPixel;

verus! {

/// How far the pixels at the edge of a region count as its background.
pub const BACKGROUND_MARGIN: u32 = 2;

/// A color image, three bytes for each pixel, row by row.
#[derive(Clone, Debug)]
pub struct RgbPage {
    pub width: u32,
    pub height: u32,
    pub pixels: Vec<u8>,
}

impl RgbPage {
    pub open spec fn well_formed(&self) -> bool {
        self.pixels.len() == 3 * (self.width * self.height)
    }

    /// The color at a place of the image.
    pub open spec fn color(&self, x: int, y: int) -> [u8; 3] {
        let at = 3 * cell(x, y, self.width as int);
        [self.pixels@[at], self.pixels@[at + 1], self.pixels@[at + 2]]
    }

    pub fn get(&self, x: u32, y: u32) -> (result: [u8; 3])
        requires
            self.well_formed(),
            in_grid(x as int, y as int, self.width as int, self.height as int),
        ensures
            result == self.color(x as int, y as int),
    {
        proof {
            lemma_cell_bounds(x as int, y as int, self.width as int, self.height as int);
        }
        let at: usize = 3 * (y as usize * self.width as usize + x as usize);
        [self.pixels[at], self.pixels[at + 1], self.pixels[at + 2]]
    }
}

/// The pixel at a place of a window, counted from one so that a border surrounds it.
pub open spec fn sample(image: &RgbPage, mask: &LayoutMask, window: Rect, place: int) -> MaskPixel {
    let width = window.right - window.left;
    let (x, y) = (place % width, place / width);
    MaskPixel {
        x: (x + 1) as u32,
        y: (y + 1) as u32,
        color: image.color(window.left + x, window.top + y),
        inside_mask: mask.covers(window.left + x, window.top + y),
    }
}

/// The pixels of a window, row by row.
pub open spec fn samples(image: &RgbPage, mask: &LayoutMask, window: Rect) -> Seq<MaskPixel> {
    Seq::new(
        ((window.right - window.left) * (window.bottom - window.top)) as nat,
        |place: int| sample(image, mask, window, place),
    )
}

/// The pixel lies at the edge of its window.
pub open spec fn at_edge(width: int, height: int) -> spec_fn(MaskPixel) -> bool {
    |pixel: MaskPixel|
        pixel.x <= BACKGROUND_MARGIN || pixel.x + BACKGROUND_MARGIN > width || pixel.y
            <= BACKGROUND_MARGIN || pixel.y + BACKGROUND_MARGIN > height
}

/// The color of the background around a region: the median of the pixels at the edge of
/// its window.
pub open spec fn background_of(image: &RgbPage, mask: &LayoutMask, window: Rect) -> [u8; 3] {
    median_color_of(
        colors_of(
            samples(image, mask, window).filter(
                at_edge(window.right - window.left, window.bottom - window.top),
            ),
        ),
    )
}

/// The mask covers some pixel of the window.
pub open spec fn covers_some(mask: &LayoutMask, window: Rect) -> bool {
    exists|x: int, y: int| window.has((x, y)) && #[trigger] mask.covers(x, y)
}

/// The pixels of a window and those at its edge, and whether the mask covers any.
fn sample_window(image: &RgbPage, mask: &LayoutMask, window: Rect) -> (result: (
    Vec<MaskPixel>,
    Vec<[u8; 3]>,
    bool,
))
    requires
        image.well_formed(),
        window.left < window.right <= image.width,
        window.top < window.bottom <= image.height,
        (window.right - window.left) * (window.bottom - window.top) <= u32::MAX,
    ensures
        result.0@ == samples(image, mask, window),
        result.1@ == colors_of(
            samples(image, mask, window).filter(
                at_edge(window.right - window.left, window.bottom - window.top),
            ),
        ),
        result.1.len() <= result.0.len(),
        result.2 == covers_some(mask, window),
{
    let width: u32 = window.right - window.left;
    let height: u32 = window.bottom - window.top;
    let ghost all = samples(image, mask, window);
    let ghost keep = at_edge(width as int, height as int);
    let mut pixels: Vec<MaskPixel> = Vec::new();
    let mut edge: Vec<[u8; 3]> = Vec::new();
    let mut covered = false;
    let mut y: u32 = window.top;
    proof {
        assert(width * height >= 0) by (nonlinear_arith)
            requires
                width >= 0,
                height >= 0,
        ;
        assert(all.take(0).filter(keep) =~= Seq::empty()) by {
            reveal(Seq::filter);
        }
        assert(edge@ =~= colors_of(all.take(0).filter(keep)));
        assert(cell(0, 0, width as int) == 0) by (nonlinear_arith);
    }
    while y < window.bottom
        invariant
            window.top <= y <= window.bottom,
            image.well_formed(),
            window.left < window.right <= image.width,
            window.top < window.bottom <= image.height,
            width == window.right - window.left,
            height == window.bottom - window.top,
            all == samples(image, mask, window),
            all.len() == width * height,
            keep == at_edge(width as int, height as int),
            pixels.len() == cell(0, y - window.top, width as int),
            pixels@ == all.take(pixels.len() as int),
            pixels.len() <= all.len(),
            edge@ == colors_of(pixels@.filter(keep)),
            edge.len() <= pixels.len(),
            covered == exists|u: int, v: int|
                window.has((u, v)) && v < y && #[trigger] mask.covers(u, v),
        decreases window.bottom - y,
    {
        let mut x: u32 = window.left;
        while x < window.right
            invariant
                window.left <= x <= window.right,
                window.top <= y < window.bottom,
                image.well_formed(),
                window.left < window.right <= image.width,
                window.top < window.bottom <= image.height,
                width == window.right - window.left,
                height == window.bottom - window.top,
                all == samples(image, mask, window),
                all.len() == width * height,
                keep == at_edge(width as int, height as int),
                pixels.len() == cell(x - window.left, y - window.top, width as int),
                pixels@ == all.take(pixels.len() as int),
                pixels.len() <= all.len(),
                edge@ == colors_of(pixels@.filter(keep)),
                edge.len() <= pixels.len(),
                covered == exists|u: int, v: int|
                    window.has((u, v)) && (v < y || (v == y && u < x)) && #[trigger] mask.covers(
                        u,
                        v,
                    ),
            decreases window.right - x,
        {
            let local_x: u32 = x - window.left + 1;
            let local_y: u32 = y - window.top + 1;
            let color = image.get(x, y);
            let inside_mask = mask.contains(x, y);
            let pixel = MaskPixel { x: local_x, y: local_y, color, inside_mask };
            let ghost place = pixels.len() as int;
            let ghost shown = edge@;
            proof {
                let (a, b) = (x - window.left, y - window.top);
                lemma_cell_bounds(a, b, width as int, height as int);
                lemma_cell_of(place, width as int, height as int);
                crate::grid::lemma_cell_injective(
                    a,
                    b,
                    place % width as int,
                    place / width as int,
                    width as int,
                );
                assert(pixel == all[place]);
                assert(all.take(place + 1) =~= all.take(place).push(all[place]));
                assert(all.take(place + 1).drop_last() =~= all.take(place));
                reveal(Seq::filter);
                if keep(pixel) {
                    assert(colors_of(all.take(place + 1).filter(keep)) =~= shown.push(color));
                }
                assert(cell(a + 1, b, width as int) == place + 1);
                if inside_mask {
                    assert(mask.covers(x as int, y as int));
                }
            }
            pixels.push(pixel);
            if inside_mask {
                covered = true;
            }
            if local_x <= BACKGROUND_MARGIN || window.right - x <= BACKGROUND_MARGIN || local_y
                <= BACKGROUND_MARGIN || window.bottom - y <= BACKGROUND_MARGIN {
                edge.push(color);
            }
            x += 1;
        }
        proof {
            assert(cell(width as int, y - window.top, width as int) == cell(
                0,
                y + 1 - window.top,
                width as int,
            )) by (nonlinear_arith);
            assert(cell(0, y + 1 - window.top, width as int) <= width * height) by (nonlinear_arith)
                requires
                    y + 1 - window.top <= height,
                    width >= 0,
                    cell(0, y + 1 - window.top, width as int) == (y + 1 - window.top) * width,
            ;
        }
        y += 1;
    }
    proof {
        assert(cell(0, height as int, width as int) == width * height) by (nonlinear_arith)
            requires
                cell(0, height as int, width as int) == height * width,
        ;
        assert(all.take(all.len() as int) =~= all);
        if covers_some(mask, window) {
            let (u, v) = choose|u: int, v: int| window.has((u, v)) && #[trigger] mask.covers(u, v);
            assert(mask.covers(u, v));
        }
    }
    (pixels, edge, covered)
}

/// Infers how the text of a region is painted from the pixels of a window around it; nothing
/// where the region's mask covers none of them.
pub fn infer_typography(image: &RgbPage, mask: &LayoutMask, window: Rect) -> (result: Option<
    TextPaint,
>)
    requires
        image.well_formed(),
        window.left < window.right <= image.width,
        window.top < window.bottom <= image.height,
        window.right - window.left + 2 <= MAX_IMAGE_SIDE,
        window.bottom - window.top + 2 <= MAX_IMAGE_SIDE,
        (window.right - window.left) * (window.bottom - window.top) <= u32::MAX,
        (window.right - window.left + 2) * (window.bottom - window.top + 2) <= usize::MAX,
    ensures
        result == (if covers_some(mask, window) {
            Some(
                text_paint_of(
                    samples(image, mask, window),
                    background_of(image, mask, window),
                    window.right - window.left + 2,
                    window.bottom - window.top + 2,
                ),
            )
        } else {
            None
        }),
{
    let (pixels, edge, covered) = sample_window(image, mask, window);
    if !covered {
        return None;
    }
    let background = median_color(&edge);
    let width: u32 = window.right - window.left + 2;
    let height: u32 = window.bottom - window.top + 2;
    proof {
        let (w, h) = (window.right - window.left, window.bottom - window.top);
        assert(w * h > 0) by (nonlinear_arith)
            requires
                w > 0,
                h > 0,
        ;
        assert forall|i: int| 0 <= i < pixels.len() implies (#[trigger] pixels@[i]).inside(
            width as int,
            height as int,
        ) by {
            lemma_cell_of(i, w, h);
        }
    }
    Some(infer_text_paint(&pixels, background, width, height))
}

/// Where every pixel of a window is either ink or background, and those at its edge are background,
/// the text that it shows has exactly the color of the ink, if that is neither dark nor light.
/// Dark ink is black and light ink is white. The text has no outline.
pub proof fn law_typography_shows_the_ink(
    image: &RgbPage,
    mask: &LayoutMask,
    window: Rect,
    ink: [u8; 3],
    ground: [u8; 3],
    x: int,
    y: int,
    channel: int,
)
    requires
        window.left < window.right <= image.width,
        window.top < window.bottom <= image.height,
        (window.right - window.left) * (window.bottom - window.top) <= u32::MAX,
        forall|u: int, v: int|
            window.left <= u < window.right && window.top <= v < window.bottom ==> (
            #[trigger] image.color(u, v) == ink || image.color(u, v) == ground),
        forall|u: int, v: int|
            window.left <= u < window.right && window.top <= v < window.bottom && (u < window.left
                + 2 || u >= window.right - 2 || v < window.top + 2 || v >= window.bottom - 2)
                ==> #[trigger] image.color(u, v) == ground,
        window.left <= x < window.right,
        window.top <= y < window.bottom,
        image.color(x, y) == ink,
        0 <= channel < 3,
        ink@[channel] >= ground@[channel] + 16 || ground@[channel] >= ink@[channel] + 16,
    ensures
        ({
            let paint = text_paint_of(
                samples(image, mask, window),
                background_of(image, mask, window),
                window.right - window.left + 2,
                window.bottom - window.top + 2,
            );
            let brightness = 54 * ink@[0] + 183 * ink@[1] + 19 * ink@[2];
            &&& paint.stroke_color is None
            &&& paint.stroke_width is None
            &&& 16384 < brightness < 48896 ==> paint.color == ink
            &&& brightness <= 16384 ==> paint.color@ == seq![0u8, 0u8, 0u8]
            &&& brightness >= 48896 ==> paint.color@ == seq![255u8, 255u8, 255u8]
        }),
{
    let (w, h) = (window.right - window.left, window.bottom - window.top);
    let all = samples(image, mask, window);
    let keep = at_edge(w, h);
    let edge = all.filter(keep);
    assert(w * h > 0) by (nonlinear_arith)
        requires
            w > 0,
            h > 0,
    ;
    assert forall|i: int| 0 <= i < all.len() implies (#[trigger] all[i]).color == ink || all[i].color
        == ground by {
        lemma_cell_of(i, w, h);
        assert(all[i].color == image.color(window.left + i % w, window.top + i / w));
    }
    assert forall|i: int| 0 <= i < edge.len() implies (#[trigger] edge[i]).color == ground by {
        all.lemma_filter_pred(keep, i);
        assert(edge.contains(edge[i]));
        all.lemma_filter_contains_rev(keep, edge[i]);
        let at = choose|at: int| 0 <= at < all.len() && all[at] == edge[i];
        lemma_cell_of(at, w, h);
        assert(all[at].color == image.color(window.left + at % w, window.top + at / w));
    }
    assert(edge.len() > 0) by {
        lemma_cell_of(0, w, h);
        assert(keep(all[0])) by {
            assert(0int % w == 0) by (nonlinear_arith)
                requires
                    w > 0,
            ;
        }
        all.lemma_filter_contains(keep, 0);
    }
    crate::ink::lemma_median_of_one(edge, ground);
    let some = cell(x - window.left, y - window.top, w);
    lemma_cell_bounds(x - window.left, y - window.top, w, h);
    lemma_cell_of(some, w, h);
    crate::grid::lemma_cell_injective(x - window.left, y - window.top, some % w, some / w, w);
    assert(all[some].color == image.color(x, y));
    crate::ink::law_text_has_the_color_of_its_ink(all, ink, ground, w + 2, h + 2, some, channel);
}

} // verus!
