//! Infers the paint of text from the pixels around it.
//!
//! A mask may trace glyphs or cover a whole text region, and a glyph can have the color of
//! the artwork outside its outline. An outline is therefore a band of one color that encloses
//! another color, and its width is measured across that band. Where there is none, the
//! clusters of colors tell the ink from the background.

use vstd::prelude::*;

use crate::color::{
    between, color_distance_squared, color_lies_between, colors_of, distance, histogram_median,
    histogram_of, median, median_color_of, median_pixel_color, normalize_text_color, same_color,
    snapped, square,
};
use crate::extremum::{
    first_min, last_max, lemma_first_min, numbers, place_of_first_min, place_of_last_max,
};
use crate::flood::{
    enclosing, enclosing_cluster_pixels, marked, near, outside_of, reachable_without_cluster,
};
use crate::grid::{cell, cell_index, in_grid, lemma_cell_of};
use crate::mask::{apart, distance_transform, is_distances, lit_within, measurable, GrayMask};
use crate::palette::{
    clusters_of, color_clusters, views, Cluster, ColorCluster, COLOR_CLUSTER_COUNT,
};
use crate::pixel::{all_inside, MaskPixel};

verus! {

/// The squared distance from which two colors differ clearly.
pub const COLOR_CLUSTER_MIN_DISTANCE_SQUARED: u32 = 1024;

/// The least width of an outline.
pub const MIN_MEASURED_STROKE_WIDTH: u8 = 2;

/// The number of pixels from which a part of a glyph counts.
pub const MIN_EVIDENCE_PIXELS: usize = 8;

/// The number of pixels beyond which more of them make no difference.
pub const MAX_EVIDENCE_PIXELS: usize = 4096;

/// A pixel lies within a distance of one of some others.
pub open spec fn pixel_within(pixels: Seq<MaskPixel>, x: int, y: int, reach: int) -> bool {
    exists|i: int|
        0 <= i < pixels.len() && apart(
            x,
            y,
            (#[trigger] pixels[i]).x as int,
            pixels[i].y as int,
        ) <= square(reach)
}

pub open spec fn is_distance_to(pixels: Seq<MaskPixel>, x: int, y: int, value: u8) -> bool {
    forall|reach: int|
        0 <= reach < 255 ==> (value <= reach) == #[trigger] pixel_within(pixels, x, y, reach)
}

/// The distance to the closest of some pixels, rounded up, 255 where it is farther.
pub open spec fn distance_to(pixels: Seq<MaskPixel>, x: int, y: int) -> u8 {
    choose|value: u8| is_distance_to(pixels, x, y, value)
}

proof fn lemma_distance_unique(pixels: Seq<MaskPixel>, x: int, y: int, value: u8)
    requires
        is_distance_to(pixels, x, y, value),
    ensures
        value == distance_to(pixels, x, y),
{
    let other = distance_to(pixels, x, y);
    assert(is_distance_to(pixels, x, y, other));
    if value < other {
        assert((value <= value as int) == pixel_within(pixels, x, y, value as int));
    }
    if other < value {
        assert((other <= other as int) == pixel_within(pixels, x, y, other as int));
    }
}

/// One of the nine cells around a pixel is marked.
pub open spec fn touches(marks: Seq<bool>, pixel: MaskPixel, width: int, height: int) -> bool {
    exists|x: int, y: int|
        in_grid(x, y, width, height) && near(pixel, (x, y)) && #[trigger] marked(
            marks,
            (x, y),
            width,
        )
}

pub open spec fn on_rim(
    fill: Seq<MaskPixel>,
    marks: Seq<bool>,
    width: int,
    height: int,
) -> spec_fn(MaskPixel) -> bool {
    |pixel: MaskPixel|
        touches(marks, pixel, width, height) && distance_to(fill, pixel.x as int, pixel.y as int)
            != 0
}

/// How far the outer rim of a stroke is from the fill.
pub open spec fn rim_distances(
    stroke: Seq<MaskPixel>,
    fill: Seq<MaskPixel>,
    marks: Seq<bool>,
    width: int,
    height: int,
) -> Seq<u8> {
    stroke.filter(on_rim(fill, marks, width, height)).map_values(
        |pixel: MaskPixel| distance_to(fill, pixel.x as int, pixel.y as int),
    )
}

/// The width of a stroke: the median distance of its outer rim from the fill, if there is
/// enough of both and it is wide enough.
pub open spec fn stroke_width_of(
    stroke: Seq<MaskPixel>,
    fill: Seq<MaskPixel>,
    marks: Seq<bool>,
    width: int,
    height: int,
) -> Option<u8> {
    let rim = rim_distances(stroke, fill, marks, width, height);
    if stroke.len() < MIN_EVIDENCE_PIXELS || fill.len() < MIN_EVIDENCE_PIXELS || rim.len()
        < MIN_EVIDENCE_PIXELS || median(rim) < MIN_MEASURED_STROKE_WIDTH {
        None
    } else {
        Some(median(rim))
    }
}

fn touches_outside(outside: &Vec<bool>, pixel: MaskPixel, width: u32, height: u32) -> (result: bool)
    requires
        outside.len() == width * height,
        pixel.inside(width as int, height as int),
    ensures
        result == touches(outside@, pixel, width as int, height as int),
{
    let left: u32 = if pixel.x > 0 {
        pixel.x - 1
    } else {
        0
    };
    let right: u32 = if pixel.x + 1 < width {
        pixel.x + 1
    } else {
        width - 1
    };
    let bottom: u32 = if pixel.y + 1 < height {
        pixel.y + 1
    } else {
        height - 1
    };
    let mut y: u32 = if pixel.y > 0 {
        pixel.y - 1
    } else {
        0
    };
    while y <= bottom
        invariant
            outside.len() == width * height,
            pixel.inside(width as int, height as int),
            left == (if pixel.x > 0 { pixel.x - 1 } else { 0 }),
            right == (if pixel.x + 1 < width { pixel.x + 1 } else { width - 1 }),
            bottom == (if pixel.y + 1 < height { pixel.y + 1 } else { height - 1 }),
            (if pixel.y > 0 { pixel.y - 1 } else { 0 }) <= y <= bottom + 1,
            forall|u: int, v: int|
                in_grid(u, v, width as int, height as int) && near(pixel, (u, v)) && v < y
                    ==> !#[trigger] marked(outside@, (u, v), width as int),
        decreases bottom + 1 - y,
    {
        let mut x: u32 = left;
        while x <= right
            invariant
                outside.len() == width * height,
                pixel.inside(width as int, height as int),
                left == (if pixel.x > 0 { pixel.x - 1 } else { 0 }),
                right == (if pixel.x + 1 < width { pixel.x + 1 } else { width - 1 }),
                bottom == (if pixel.y + 1 < height { pixel.y + 1 } else { height - 1 }),
                (if pixel.y > 0 { pixel.y - 1 } else { 0 }) <= y <= bottom,
                left <= x <= right + 1,
                forall|u: int, v: int|
                    in_grid(u, v, width as int, height as int) && near(pixel, (u, v)) && (v < y || (
                    v == y && u < x)) ==> !#[trigger] marked(outside@, (u, v), width as int),
            decreases right + 1 - x,
        {
            let index: usize = cell_index(x, y, width, height, outside.len());
            if outside[index] {
                proof {
                    assert(marked(outside@, (x as int, y as int), width as int));
                    assert(near(pixel, (x as int, y as int)));
                }
                return true;
            }
            x += 1;
        }
        y += 1;
    }
    false
}

/// An image that is white at some pixels and black elsewhere.
fn pixel_image(pixels: &Vec<MaskPixel>, width: u32, height: u32) -> (result: GrayMask)
    requires
        width * height <= usize::MAX,
        all_inside(pixels@, width as int, height as int),
    ensures
        result.well_formed(),
        result.width == width,
        result.height == height,
        forall|x: int, y: int, reach: int| #[trigger]
            lit_within(&result, x, y, reach) == pixel_within(pixels@, x, y, reach),
{
    let mut image = GrayMask::new(width, height);
    let mut index: usize = 0;
    while index < pixels.len()
        invariant
            index <= pixels.len(),
            all_inside(pixels@, width as int, height as int),
            image.well_formed(),
            image.width == width,
            image.height == height,
            forall|x: int, y: int|
                image.contains_cell(x, y) ==> (#[trigger] image.at(x, y) != 0) == exists|i: int|
                    0 <= i < index && (#[trigger] pixels@[i]).x == x && pixels@[i].y == y,
        decreases pixels.len() - index,
    {
        let pixel = pixels[index];
        assert(pixel.inside(width as int, height as int));
        let ghost before = image;
        image.put(pixel.x, pixel.y, 255);
        proof {
            assert forall|x: int, y: int|
                image.contains_cell(x, y) implies (#[trigger] image.at(x, y) != 0) == exists|i: int|
                0 <= i < index + 1 && (#[trigger] pixels@[i]).x == x && pixels@[i].y == y by {
                assert(before.contains_cell(x, y));
                if x == pixel.x && y == pixel.y {
                    assert(pixels@[index as int].x == x);
                } else {
                    assert(image.at(x, y) == before.at(x, y));
                    if before.at(x, y) != 0 {
                        let i = choose|i: int|
                            0 <= i < index && (#[trigger] pixels@[i]).x == x && pixels@[i].y == y;
                        assert(pixels@[i].x == x);
                    }
                }
            }
        }
        index += 1;
    }
    proof {
        assert forall|x: int, y: int, reach: int| #[trigger]
            lit_within(&image, x, y, reach) == pixel_within(pixels@, x, y, reach) by {
            if lit_within(&image, x, y, reach) {
                let (u, v) = choose|u: int, v: int|
                    image.contains_cell(u, v) && #[trigger] image.at(u, v) != 0 && apart(x, y, u, v)
                        <= square(reach);
                let i = choose|i: int|
                    0 <= i < pixels.len() && (#[trigger] pixels@[i]).x == u && pixels@[i].y == v;
                assert(apart(x, y, pixels@[i].x as int, pixels@[i].y as int) <= square(reach));
            }
            if pixel_within(pixels@, x, y, reach) {
                let i = choose|i: int|
                    0 <= i < pixels.len() && apart(
                        x,
                        y,
                        (#[trigger] pixels@[i]).x as int,
                        pixels@[i].y as int,
                    ) <= square(reach);
                assert(pixels@[i].inside(width as int, height as int));
                let (u, v) = (pixels@[i].x as int, pixels@[i].y as int);
                assert(image.contains_cell(u, v));
                assert(image.at(u, v) != 0);
            }
        }
    }
    image
}

/// Measures the width of a stroke around a fill.
pub fn measured_stroke_width(
    stroke_pixels: &Vec<MaskPixel>,
    fill_pixels: &Vec<MaskPixel>,
    outside: &Vec<bool>,
    width: u32,
    height: u32,
) -> (result: Option<u8>)
    requires
        outside.len() == width * height,
        measurable(width as int, height as int),
        stroke_pixels.len() <= u32::MAX,
        all_inside(stroke_pixels@, width as int, height as int),
        all_inside(fill_pixels@, width as int, height as int),
    ensures
        result == stroke_width_of(
            stroke_pixels@,
            fill_pixels@,
            outside@,
            width as int,
            height as int,
        ),
{
    if stroke_pixels.len() < MIN_EVIDENCE_PIXELS || fill_pixels.len() < MIN_EVIDENCE_PIXELS {
        return None;
    }
    let image = pixel_image(fill_pixels, width, height);
    let distances = distance_transform(&image);
    let ghost keep = on_rim(fill_pixels@, outside@, width as int, height as int);
    let ghost far = |pixel: MaskPixel| distance_to(fill_pixels@, pixel.x as int, pixel.y as int);
    let mut rim: Vec<u8> = Vec::new();
    let mut index: usize = 0;
    while index < stroke_pixels.len()
        invariant
            index <= stroke_pixels.len(),
            outside.len() == width * height,
            all_inside(stroke_pixels@, width as int, height as int),
            image.well_formed(),
            image.width == width,
            image.height == height,
            is_distances(&distances, &image),
            forall|x: int, y: int, reach: int| #[trigger]
                lit_within(&image, x, y, reach) == pixel_within(fill_pixels@, x, y, reach),
            keep == on_rim(fill_pixels@, outside@, width as int, height as int),
            far == (|pixel: MaskPixel|
                distance_to(fill_pixels@, pixel.x as int, pixel.y as int)),
            rim@ == stroke_pixels@.take(index as int).filter(keep).map_values(far),
            rim.len() <= index,
        decreases stroke_pixels.len() - index,
    {
        let pixel = stroke_pixels[index];
        assert(pixel.inside(width as int, height as int));
        let touching = touches_outside(outside, pixel, width, height);
        let gap: u8 = distances.get(pixel.x, pixel.y);
        proof {
            let (x, y) = (pixel.x as int, pixel.y as int);
            assert(image.contains_cell(x, y));
            assert forall|reach: int| 0 <= reach < 255 implies (gap <= reach)
                == #[trigger] pixel_within(fill_pixels@, x, y, reach) by {
                assert((distances.at(x, y) <= reach) == lit_within(&image, x, y, reach));
            }
            lemma_distance_unique(fill_pixels@, x, y, gap);
            let next = stroke_pixels@.take(index as int + 1);
            assert(next.drop_last() =~= stroke_pixels@.take(index as int));
            reveal(Seq::filter);
            if keep(pixel) {
                assert(next.filter(keep).map_values(far) =~= stroke_pixels@.take(
                    index as int,
                ).filter(keep).map_values(far).push(far(pixel)));
            }
        }
        if touching && gap != 0 {
            rim.push(gap);
        }
        index += 1;
    }
    proof {
        assert(stroke_pixels@.take(index as int) =~= stroke_pixels@);
    }
    if rim.len() < MIN_EVIDENCE_PIXELS {
        return None;
    }
    let width: u8 = histogram_median(&histogram_of(&rim), rim.len());
    if width >= MIN_MEASURED_STROKE_WIDTH {
        Some(width)
    } else {
        None
    }
}

pub open spec fn masked() -> spec_fn(MaskPixel) -> bool {
    |pixel: MaskPixel| pixel.inside_mask
}

/// Evidence beyond a limit makes no difference.
pub open spec fn weight(evidence: int) -> int {
    if evidence < MAX_EVIDENCE_PIXELS {
        evidence
    } else {
        MAX_EVIDENCE_PIXELS as int
    }
}

proof fn lemma_filter_shorter(pixels: Seq<MaskPixel>, keep: spec_fn(MaskPixel) -> bool)
    ensures
        pixels.filter(keep).len() <= pixels.len(),
    decreases pixels.len(),
{
    reveal(Seq::filter);
    if pixels.len() > 0 {
        lemma_filter_shorter(pixels.drop_last(), keep);
    }
}

proof fn lemma_filter_inside(
    pixels: Seq<MaskPixel>,
    keep: spec_fn(MaskPixel) -> bool,
    width: int,
    height: int,
)
    requires
        all_inside(pixels, width, height),
    ensures
        all_inside(pixels.filter(keep), width, height),
    decreases pixels.len(),
{
    reveal(Seq::filter);
    if pixels.len() > 0 {
        let rest = pixels.drop_last();
        assert forall|i: int| 0 <= i < rest.len() implies (#[trigger] rest[i]).inside(
            width,
            height,
        ) by {
            assert(rest[i] == pixels[i]);
        }
        lemma_filter_inside(rest, keep, width, height);
        assert(pixels[pixels.len() - 1].inside(width, height));
    }
}

fn masked_pixels(pixels: &Vec<MaskPixel>) -> (result: Vec<MaskPixel>)
    ensures
        result@ == pixels@.filter(masked()),
        result.len() <= pixels.len(),
{
    let mut result: Vec<MaskPixel> = Vec::new();
    let mut index: usize = 0;
    while index < pixels.len()
        invariant
            index <= pixels.len(),
            result@ == pixels@.take(index as int).filter(masked()),
            result.len() <= index,
        decreases pixels.len() - index,
    {
        let pixel = pixels[index];
        proof {
            let next = pixels@.take(index as int + 1);
            assert(next.drop_last() =~= pixels@.take(index as int));
            reveal(Seq::filter);
        }
        if pixel.inside_mask {
            result.push(pixel);
        }
        index += 1;
    }
    proof {
        assert(pixels@.take(index as int) =~= pixels@);
    }
    result
}

/// How much a cluster looks like ink: its contrast to the background, weighted by its
/// pixels, those inside the mask counted twice where there are enough of them.
pub open spec fn ink_score(cluster: Cluster, background: [u8; 3]) -> int {
    let inside = cluster.pixels.filter(masked()).len();
    let evidence = if inside >= MIN_EVIDENCE_PIXELS {
        inside + cluster.pixels.len()
    } else {
        cluster.pixels.len()
    };
    distance(cluster.color, background) * weight(evidence as int)
}

/// The color of a cluster's ink: the median of its pixels inside the mask where there are
/// enough of them, of all its pixels otherwise.
pub open spec fn ink_color(cluster: Cluster) -> [u8; 3] {
    let inside = cluster.pixels.filter(masked());
    if inside.len() >= MIN_EVIDENCE_PIXELS {
        median_color_of(colors_of(inside))
    } else {
        median_color_of(colors_of(cluster.pixels))
    }
}

pub fn cluster_ink_score(cluster: &ColorCluster, background: [u8; 3]) -> (result: u64)
    requires
        cluster.pixels.len() <= u32::MAX,
    ensures
        result == ink_score(cluster@, background),
{
    let inside: u64 = masked_pixels(&cluster.pixels).len() as u64;
    let evidence: u64 = if inside >= MIN_EVIDENCE_PIXELS as u64 {
        inside + cluster.pixels.len() as u64
    } else {
        cluster.pixels.len() as u64
    };
    let weighted: u64 = if evidence < MAX_EVIDENCE_PIXELS as u64 {
        evidence
    } else {
        MAX_EVIDENCE_PIXELS as u64
    };
    let contrast: u32 = color_distance_squared(cluster.color, background);
    proof {
        assert(contrast * weighted <= 195075 * 4096) by (nonlinear_arith)
            requires
                contrast <= 195075,
                weighted <= 4096,
        ;
    }
    contrast as u64 * weighted
}

pub fn representative_ink_color(cluster: &ColorCluster) -> (result: [u8; 3])
    requires
        cluster.pixels.len() <= u32::MAX,
    ensures
        result == ink_color(cluster@),
{
    let inside = masked_pixels(&cluster.pixels);
    if inside.len() >= MIN_EVIDENCE_PIXELS {
        median_pixel_color(&inside)
    } else {
        median_pixel_color(&cluster.pixels)
    }
}

/// The clusters that have pixels.
pub open spec fn used_clusters(clusters: Seq<Cluster>) -> Seq<int> {
    Seq::new(clusters.len(), |i: int| i).filter(|i: int| clusters[i].pixels.len() > 0)
}

pub open spec fn contrasts(clusters: Seq<Cluster>, used: Seq<int>, background: [u8; 3]) -> Seq<
    int,
> {
    used.map_values(|i: int| distance(clusters[i].color, background))
}

/// The cluster closest to the background color, of those that have pixels.
pub open spec fn background_cluster(clusters: Seq<Cluster>, background: [u8; 3]) -> Option<int> {
    let used = used_clusters(clusters);
    if used.len() == 0 {
        None
    } else {
        Some(used[first_min(contrasts(clusters, used, background))])
    }
}

fn list_used_clusters(clusters: &Vec<ColorCluster>) -> (result: Vec<usize>)
    ensures
        result@.map_values(|i: usize| i as int) == used_clusters(views(clusters@)),
        forall|k: int|
            0 <= k < result.len() ==> (#[trigger] result@[k]) < clusters.len()
                && clusters@[result@[k] as int].pixels.len() > 0,
{
    let ghost all = Seq::new(views(clusters@).len(), |i: int| i);
    let ghost keep = |i: int| views(clusters@)[i].pixels.len() > 0;
    let mut result: Vec<usize> = Vec::new();
    let mut index: usize = 0;
    while index < clusters.len()
        invariant
            index <= clusters.len(),
            all == Seq::new(views(clusters@).len(), |i: int| i),
            keep == (|i: int| views(clusters@)[i].pixels.len() > 0),
            result@.map_values(|i: usize| i as int) == all.take(index as int).filter(keep),
            forall|k: int|
                0 <= k < result.len() ==> (#[trigger] result@[k]) < clusters.len()
                    && clusters@[result@[k] as int].pixels.len() > 0,
        decreases clusters.len() - index,
    {
        proof {
            let next = all.take(index as int + 1);
            assert(next.drop_last() =~= all.take(index as int));
            reveal(Seq::filter);
            assert(views(clusters@)[index as int].pixels == clusters@[index as int].pixels@);
        }
        let ghost before = result@.map_values(|i: usize| i as int);
        if clusters[index].pixels.len() > 0 {
            result.push(index);
            proof {
                assert(result@.map_values(|i: usize| i as int) =~= before.push(index as int));
            }
        }
        index += 1;
    }
    proof {
        assert(all.take(index as int) =~= all);
    }
    result
}

fn find_background(clusters: &Vec<ColorCluster>, used: &Vec<usize>, background: [u8; 3]) -> (result:
    usize)
    requires
        used.len() > 0,
        forall|k: int| 0 <= k < used.len() ==> (#[trigger] used@[k]) < clusters.len(),
        used@.map_values(|i: usize| i as int) == used_clusters(views(clusters@)),
    ensures
        background_cluster(views(clusters@), background) == Some(result as int),
        result < clusters.len(),
{
    let ghost places = used_clusters(views(clusters@));
    let mut keys: Vec<u64> = Vec::new();
    let mut index: usize = 0;
    while index < used.len()
        invariant
            index <= used.len(),
            forall|k: int| 0 <= k < used.len() ==> (#[trigger] used@[k]) < clusters.len(),
            places == used@.map_values(|i: usize| i as int),
            keys.len() == index,
            forall|k: int|
                0 <= k < index ==> #[trigger] keys@[k] == contrasts(
                    views(clusters@),
                    places,
                    background,
                )[k],
        decreases used.len() - index,
    {
        assert(used@[index as int] < clusters.len());
        let contrast: u32 = color_distance_squared(clusters[used[index]].color, background);
        keys.push(contrast as u64);
        index += 1;
    }
    proof {
        assert(numbers(keys@) =~= contrasts(views(clusters@), places, background));
        assert(places.len() == used.len());
    }
    let place: usize = place_of_first_min(&keys);
    assert(places[place as int] == used@[place as int]);
    used[place]
}

/// A cluster has a pixel at the cell.
pub open spec fn occupies(pixels: Seq<MaskPixel>, place: int, width: int) -> bool {
    exists|i: int|
        0 <= i < pixels.len() && cell(
            (#[trigger] pixels[i]).x as int,
            pixels[i].y as int,
            width,
        ) == place
}

/// The last of the first clusters that has a pixel at the cell, the greatest number where
/// there is none.
pub open spec fn owner(clusters: Seq<Cluster>, end: int, place: int, width: int) -> usize
    decreases end,
{
    if end <= 0 {
        usize::MAX
    } else if occupies(clusters[end - 1].pixels, place, width) {
        (end - 1) as usize
    } else {
        owner(clusters, end - 1, place, width)
    }
}

/// Which cluster each cell belongs to.
pub open spec fn owners(clusters: Seq<Cluster>, width: int, height: int) -> Seq<usize> {
    Seq::new(
        (width * height) as nat,
        |place: int| owner(clusters, clusters.len() as int, place, width),
    )
}

/// Every cluster's pixels lie in the grid.
pub open spec fn clusters_inside(clusters: Seq<Cluster>, width: int, height: int) -> bool {
    forall|i: int|
        0 <= i < clusters.len() ==> all_inside((#[trigger] clusters[i]).pixels, width, height)
            && clusters[i].pixels.len() <= u32::MAX
}

fn assign_clusters(clusters: &Vec<ColorCluster>, width: u32, height: u32) -> (result: Vec<usize>)
    requires
        width * height <= usize::MAX,
        clusters_inside(views(clusters@), width as int, height as int),
    ensures
        result@ == owners(views(clusters@), width as int, height as int),
{
    let ghost shown = views(clusters@);
    proof {
        lemma_area(width as int, height as int);
    }
    let area: usize = width as usize * height as usize;
    let mut result: Vec<usize> = vec![usize::MAX; area];
    let mut index: usize = 0;
    while index < clusters.len()
        invariant
            index <= clusters.len(),
            result.len() == width * height,
            shown == views(clusters@),
            clusters_inside(shown, width as int, height as int),
            forall|place: int|
                0 <= place < result.len() ==> #[trigger] result@[place] == owner(
                    shown,
                    index as int,
                    place,
                    width as int,
                ),
        decreases clusters.len() - index,
    {
        let pixels = &clusters[index].pixels;
        assert(shown[index as int].pixels == pixels@);
        let ghost before = result@;
        let mut at: usize = 0;
        while at < pixels.len()
            invariant
                at <= pixels.len(),
                result.len() == width * height,
                before.len() == result.len(),
                all_inside(pixels@, width as int, height as int),
                forall|place: int|
                    0 <= place < result.len() ==> #[trigger] result@[place] == (if occupies(
                        pixels@.take(at as int),
                        place,
                        width as int,
                    ) {
                        index
                    } else {
                        before[place]
                    }),
            decreases pixels.len() - at,
        {
            let pixel = pixels[at];
            assert(pixel.inside(width as int, height as int));
            let place: usize = cell_index(pixel.x, pixel.y, width, height, result.len());
            let ghost earlier = result@;
            result.set(place, index);
            proof {
                let shorter = pixels@.take(at as int);
                let longer = pixels@.take(at as int + 1);
                assert forall|other: int| 0 <= other < result.len() implies #[trigger] result@[other]
                    == (if occupies(longer, other, width as int) {
                    index
                } else {
                    before[other]
                }) by {
                    if occupies(shorter, other, width as int) {
                        let i = choose|i: int|
                            0 <= i < shorter.len() && cell(
                                (#[trigger] shorter[i]).x as int,
                                shorter[i].y as int,
                                width as int,
                            ) == other;
                        assert(longer[i] == shorter[i]);
                    }
                    if occupies(longer, other, width as int) {
                        let i = choose|i: int|
                            0 <= i < longer.len() && cell(
                                (#[trigger] longer[i]).x as int,
                                longer[i].y as int,
                                width as int,
                            ) == other;
                        if i < at {
                            assert(shorter[i] == longer[i]);
                        }
                    }
                    if other == place {
                        assert(longer[at as int] == pixel);
                    }
                    assert(earlier[other] == (if occupies(shorter, other, width as int) {
                        index
                    } else {
                        before[other]
                    }));
                }
            }
            at += 1;
        }
        proof {
            assert(pixels@.take(at as int) =~= pixels@);
        }
        index += 1;
    }
    proof {
        assert(result@ =~= owners(shown, width as int, height as int));
    }
    result
}

proof fn lemma_area(width: int, height: int)
    requires
        0 <= width,
        0 <= height,
    ensures
        0 <= width * height,
{
    assert(0 <= width * height) by (nonlinear_arith)
        requires
            0 <= width,
            0 <= height,
    ;
}

/// Which cells can be reached from the border without crossing a cluster.
pub open spec fn outside_marks(kinds: Seq<usize>, barrier: usize, width: int, height: int) -> Seq<
    bool,
> {
    Seq::new(
        (width * height) as nat,
        |place: int|
            outside_of(kinds, barrier, width, height).reached((place % width, place / width)),
    )
}

pub open spec fn enclosed(marks: Seq<bool>, width: int) -> spec_fn(MaskPixel) -> bool {
    |pixel: MaskPixel| !marks[cell(pixel.x as int, pixel.y as int, width)]
}

pub open spec fn band(
    kinds: Seq<usize>,
    stroke: usize,
    fill: Seq<MaskPixel>,
    width: int,
    height: int,
) -> spec_fn(MaskPixel) -> bool {
    |pixel: MaskPixel|
        enclosing(kinds, stroke, fill, width, height).reached((pixel.x as int, pixel.y as int))
}

/// The paint of outlined text, and how strongly the pixels speak for it.
#[derive(Clone, Copy)]
pub struct OutlinePaint {
    pub fill_color: [u8; 3],
    pub stroke_color: [u8; 3],
    pub stroke_width: u8,
    pub score: u64,
}

/// The colors of an outline, its fill and the background differ clearly, and neither of the
/// former lies between the other and the background.
pub open spec fn distinct_paint(fill: [u8; 3], stroke: [u8; 3], background: [u8; 3]) -> bool {
    &&& distance(fill, stroke) >= COLOR_CLUSTER_MIN_DISTANCE_SQUARED
    &&& distance(fill, background) >= COLOR_CLUSTER_MIN_DISTANCE_SQUARED
    &&& distance(stroke, background) >= COLOR_CLUSTER_MIN_DISTANCE_SQUARED
    &&& !between(stroke, fill, background)
    &&& !between(fill, stroke, background)
    &&& snapped(fill) != snapped(stroke)
}

/// The outline that the cluster `stroke` draws around the cluster `fill`, if it is one.
pub open spec fn outline_of(
    clusters: Seq<Cluster>,
    background: [u8; 3],
    width: int,
    height: int,
    stroke: int,
    fill: int,
) -> Option<OutlinePaint> {
    let kinds = owners(clusters, width, height);
    let marks = outside_marks(kinds, stroke as usize, width, height);
    let inner = clusters[fill].pixels.filter(enclosed(marks, width));
    let ring = clusters[stroke].pixels.filter(band(kinds, stroke as usize, inner, width, height));
    let fill_color = median_color_of(colors_of(inner));
    let stroke_color = median_color_of(colors_of(ring));
    if clusters[stroke].pixels.len() < MIN_EVIDENCE_PIXELS || background_cluster(
        clusters,
        background,
    ) == Some(stroke) || fill == stroke || inner.len() < MIN_EVIDENCE_PIXELS || ring.len()
        < MIN_EVIDENCE_PIXELS || !distinct_paint(fill_color, stroke_color, background) {
        None
    } else {
        match stroke_width_of(ring, inner, marks, width, height) {
            None => None,
            Some(stroke_width) => Some(
                OutlinePaint {
                    fill_color: snapped(fill_color),
                    stroke_color: snapped(stroke_color),
                    stroke_width,
                    score: (distance(fill_color, stroke_color) * weight(
                        (inner.len() + inner.filter(masked()).len()) as int,
                    )) as u64,
                },
            ),
        }
    }
}

/// The better of two outlines, the first where they are equal.
pub open spec fn better(best: Option<OutlinePaint>, other: Option<OutlinePaint>) -> Option<
    OutlinePaint,
> {
    match other {
        None => best,
        Some(outline) => match best {
            None => other,
            Some(current) => if outline.score > current.score {
                other
            } else {
                best
            },
        },
    }
}

/// The best outline among the first pairs of clusters.
pub open spec fn best_outline(
    clusters: Seq<Cluster>,
    background: [u8; 3],
    width: int,
    height: int,
    pairs: int,
) -> Option<OutlinePaint>
    decreases pairs,
{
    if pairs <= 0 {
        None
    } else {
        better(
            best_outline(clusters, background, width, height, pairs - 1),
            outline_of(
                clusters,
                background,
                width,
                height,
                (pairs - 1) / clusters.len() as int,
                (pairs - 1) % clusters.len() as int,
            ),
        )
    }
}

fn enclosed_pixels(pixels: &Vec<MaskPixel>, outside: &Vec<bool>, width: u32, height: u32) -> (result:
    Vec<MaskPixel>)
    requires
        outside.len() == width * height,
        all_inside(pixels@, width as int, height as int),
    ensures
        result@ == pixels@.filter(enclosed(outside@, width as int)),
        result.len() <= pixels.len(),
{
    let ghost keep = enclosed(outside@, width as int);
    let mut result: Vec<MaskPixel> = Vec::new();
    let mut index: usize = 0;
    while index < pixels.len()
        invariant
            index <= pixels.len(),
            outside.len() == width * height,
            all_inside(pixels@, width as int, height as int),
            keep == enclosed(outside@, width as int),
            result@ == pixels@.take(index as int).filter(keep),
            result.len() <= index,
        decreases pixels.len() - index,
    {
        let pixel = pixels[index];
        assert(pixel.inside(width as int, height as int));
        proof {
            let next = pixels@.take(index as int + 1);
            assert(next.drop_last() =~= pixels@.take(index as int));
            reveal(Seq::filter);
        }
        let place: usize = cell_index(pixel.x, pixel.y, width, height, outside.len());
        if !outside[place] {
            result.push(pixel);
        }
        index += 1;
    }
    proof {
        assert(pixels@.take(index as int) =~= pixels@);
    }
    result
}

/// The outline that one cluster draws around another, given what is outside the former.
fn outline_between(
    clusters: &Vec<ColorCluster>,
    assignments: &Vec<usize>,
    outside: &Vec<bool>,
    background: [u8; 3],
    width: u32,
    height: u32,
    stroke: usize,
    fill: usize,
) -> (result: Option<OutlinePaint>)
    requires
        measurable(width as int, height as int),
        clusters_inside(views(clusters@), width as int, height as int),
        stroke < clusters.len(),
        fill < clusters.len(),
        clusters@[stroke as int].pixels.len() >= MIN_EVIDENCE_PIXELS,
        background_cluster(views(clusters@), background) != Some(stroke as int),
        assignments@ == owners(views(clusters@), width as int, height as int),
        outside@ == outside_marks(assignments@, stroke, width as int, height as int),
        assignments.len() == width * height,
        outside.len() == width * height,
    ensures
        result == outline_of(
            views(clusters@),
            background,
            width as int,
            height as int,
            stroke as int,
            fill as int,
        ),
{
    if fill == stroke {
        return None;
    }
    let ghost shown = views(clusters@);
    assert(shown[stroke as int].pixels == clusters@[stroke as int].pixels@);
    assert(shown[fill as int].pixels == clusters@[fill as int].pixels@);
    let inner = enclosed_pixels(&clusters[fill].pixels, outside, width, height);
    proof {
        lemma_filter_inside(
            clusters@[fill as int].pixels@,
            enclosed(outside@, width as int),
            width as int,
            height as int,
        );
    }
    if inner.len() < MIN_EVIDENCE_PIXELS {
        return None;
    }
    let ring = enclosing_cluster_pixels(
        assignments,
        stroke,
        &clusters[stroke].pixels,
        &inner,
        width,
        height,
    );
    proof {
        let keep = band(assignments@, stroke, inner@, width as int, height as int);
        assert(ring@ == clusters@[stroke as int].pixels@.filter(keep));
        lemma_filter_shorter(clusters@[stroke as int].pixels@, keep);
        lemma_filter_inside(clusters@[stroke as int].pixels@, keep, width as int, height as int);
    }
    if ring.len() < MIN_EVIDENCE_PIXELS {
        return None;
    }
    let fill_color = median_pixel_color(&inner);
    let stroke_color = median_pixel_color(&ring);
    let contrast: u32 = color_distance_squared(fill_color, stroke_color);
    if contrast < COLOR_CLUSTER_MIN_DISTANCE_SQUARED || color_distance_squared(
        fill_color,
        background,
    ) < COLOR_CLUSTER_MIN_DISTANCE_SQUARED || color_distance_squared(stroke_color, background)
        < COLOR_CLUSTER_MIN_DISTANCE_SQUARED || color_lies_between(
        stroke_color,
        fill_color,
        background,
    ) || color_lies_between(fill_color, stroke_color, background) {
        return None;
    }
    let normalized_fill = normalize_text_color(fill_color);
    let normalized_stroke = normalize_text_color(stroke_color);
    if same_color(normalized_fill, normalized_stroke) {
        return None;
    }
    match measured_stroke_width(&ring, &inner, outside, width, height) {
        None => None,
        Some(stroke_width) => {
            let evidence: u64 = inner.len() as u64 + masked_pixels(&inner).len() as u64;
            let weighted: u64 = if evidence < MAX_EVIDENCE_PIXELS as u64 {
                evidence
            } else {
                MAX_EVIDENCE_PIXELS as u64
            };
            proof {
                assert(contrast * weighted <= 195075 * 4096) by (nonlinear_arith)
                    requires
                        contrast <= 195075,
                        weighted <= 4096,
                ;
            }
            Some(
                OutlinePaint {
                    fill_color: normalized_fill,
                    stroke_color: normalized_stroke,
                    stroke_width,
                    score: contrast as u64 * weighted,
                },
            )
        },
    }
}

/// The best outline that one of the clusters draws around another.
pub fn infer_outline(
    clusters: &Vec<ColorCluster>,
    background: [u8; 3],
    width: u32,
    height: u32,
) -> (result: Option<OutlinePaint>)
    requires
        clusters.len() == COLOR_CLUSTER_COUNT,
        width * height <= usize::MAX,
        measurable(width as int, height as int),
        clusters_inside(views(clusters@), width as int, height as int),
    ensures
        result == best_outline(views(clusters@), background, width as int, height as int, 16),
{
    let ghost shown = views(clusters@);
    let assignments = assign_clusters(clusters, width, height);
    proof {
        lemma_area(width as int, height as int);
    }
    let used = list_used_clusters(clusters);
    if used.len() == 0 {
        proof {
            assert forall|i: int| 0 <= i < 4 implies (#[trigger] shown[i]).pixels.len() == 0 by {
                if shown[i].pixels.len() > 0 {
                    lemma_used(shown, i);
                }
            }
            lemma_no_outlines(shown, background, width as int, height as int, 0);
            lemma_no_outlines(shown, background, width as int, height as int, 1);
            lemma_no_outlines(shown, background, width as int, height as int, 2);
            lemma_no_outlines(shown, background, width as int, height as int, 3);
        }
        return None;
    }
    let background_index: usize = find_background(clusters, &used, background);
    let mut best: Option<OutlinePaint> = None;
    let mut stroke: usize = 0;
    while stroke < 4
        invariant
            stroke <= 4,
            clusters.len() == 4,
            shown == views(clusters@),
            measurable(width as int, height as int),
            clusters_inside(shown, width as int, height as int),
            assignments@ == owners(shown, width as int, height as int),
            assignments.len() == width * height,
            background_cluster(shown, background) == Some(background_index as int),
            best == best_outline(shown, background, width as int, height as int, stroke * 4),
        decreases 4 - stroke,
    {
        assert(shown[stroke as int].pixels == clusters@[stroke as int].pixels@);
        if clusters[stroke].pixels.len() < MIN_EVIDENCE_PIXELS || stroke == background_index {
            proof {
                lemma_no_outlines(shown, background, width as int, height as int, stroke as int);
            }
        } else {
            let outside = reachable_without_cluster(&assignments, stroke, width, height);
            proof {
                lemma_outside_marks(outside@, assignments@, stroke, width as int, height as int);
            }
            let mut fill: usize = 0;
            while fill < 4
                invariant
                    fill <= 4,
                    stroke < 4,
                    clusters.len() == 4,
                    shown == views(clusters@),
                    measurable(width as int, height as int),
                    clusters_inside(shown, width as int, height as int),
                    assignments@ == owners(shown, width as int, height as int),
                    assignments.len() == width * height,
                    outside.len() == width * height,
                    outside@ == outside_marks(assignments@, stroke, width as int, height as int),
                    background_cluster(shown, background) == Some(background_index as int),
                    stroke != background_index,
                    clusters@[stroke as int].pixels.len() >= MIN_EVIDENCE_PIXELS,
                    best == best_outline(
                        shown,
                        background,
                        width as int,
                        height as int,
                        stroke * 4 + fill,
                    ),
                decreases 4 - fill,
            {
                let candidate = outline_between(
                    clusters,
                    &assignments,
                    &outside,
                    background,
                    width,
                    height,
                    stroke,
                    fill,
                );
                proof {
                    let pairs = stroke * 4 + fill + 1;
                    assert((pairs - 1) / 4 == stroke && (pairs - 1) % 4 == fill);
                }
                if let Some(outline) = candidate {
                    let replace = match best {
                        None => true,
                        Some(current) => outline.score > current.score,
                    };
                    if replace {
                        best = Some(outline);
                    }
                }
                fill += 1;
            }
        }
        stroke += 1;
    }
    best
}

/// A cluster that has pixels is among the used ones.
proof fn lemma_used(clusters: Seq<Cluster>, index: int)
    requires
        0 <= index < clusters.len(),
        clusters[index].pixels.len() > 0,
    ensures
        used_clusters(clusters).len() > 0,
{
    let all = Seq::new(clusters.len(), |i: int| i);
    lemma_filter_nonempty(all, |i: int| clusters[i].pixels.len() > 0, index);
}

proof fn lemma_filter_nonempty(values: Seq<int>, keep: spec_fn(int) -> bool, index: int)
    requires
        0 <= index < values.len(),
        keep(values[index]),
    ensures
        values.filter(keep).len() > 0,
    decreases values.len(),
{
    reveal(Seq::filter);
    if index < values.len() - 1 {
        lemma_filter_nonempty(values.drop_last(), keep, index);
    }
}

/// A cluster with too few pixels, and the background, draw no outline.
proof fn lemma_no_outlines(
    clusters: Seq<Cluster>,
    background: [u8; 3],
    width: int,
    height: int,
    stroke: int,
)
    requires
        clusters.len() == 4,
        0 <= stroke < 4,
        clusters[stroke].pixels.len() < MIN_EVIDENCE_PIXELS || background_cluster(
            clusters,
            background,
        ) == Some(stroke),
    ensures
        best_outline(clusters, background, width, height, stroke * 4 + 4) == best_outline(
            clusters,
            background,
            width,
            height,
            stroke * 4,
        ),
{
    let p = stroke * 4;
    assert((p + 0) / 4 == stroke && (p + 1) / 4 == stroke && (p + 2) / 4 == stroke && (p + 3) / 4
        == stroke);
    reveal_with_fuel(best_outline, 5);
    assert(best_outline(clusters, background, width, height, p + 1) == best_outline(
        clusters,
        background,
        width,
        height,
        p,
    ));
    assert(best_outline(clusters, background, width, height, p + 2) == best_outline(
        clusters,
        background,
        width,
        height,
        p,
    ));
    assert(best_outline(clusters, background, width, height, p + 3) == best_outline(
        clusters,
        background,
        width,
        height,
        p,
    ));
}

proof fn lemma_outside_marks(
    marks: Seq<bool>,
    kinds: Seq<usize>,
    barrier: usize,
    width: int,
    height: int,
)
    requires
        0 < width,
        0 < height,
        marks.len() == width * height,
        forall|x: int, y: int|
            in_grid(x, y, width, height) ==> #[trigger] marked(marks, (x, y), width) == outside_of(
                kinds,
                barrier,
                width,
                height,
            ).reached((x, y)),
    ensures
        marks == outside_marks(kinds, barrier, width, height),
{
    let expected = outside_marks(kinds, barrier, width, height);
    assert forall|place: int| 0 <= place < marks.len() implies marks[place] == expected[place] by {
        lemma_cell_of(place, width, height);
        assert(marked(marks, (place % width, place / width), width) == marks[place]);
    }
    assert(marks =~= expected);
}

/// The paint of text: its color and, if it has one, its outline.
#[derive(Clone, Copy)]
pub struct TextPaint {
    pub color: [u8; 3],
    pub stroke_color: Option<[u8; 3]>,
    pub stroke_width: Option<u8>,
}

pub open spec fn ink_scores(clusters: Seq<Cluster>, inks: Seq<int>, background: [u8; 3]) -> Seq<
    int,
> {
    inks.map_values(|i: int| ink_score(clusters[i], background))
}

pub open spec fn other_than(index: int) -> spec_fn(int) -> bool {
    |i: int| i != index
}

/// The color of text without an outline: that of the only cluster, or else of the cluster
/// that looks most like ink, the last of several.
pub open spec fn plain_color(clusters: Seq<Cluster>, background: [u8; 3]) -> [u8; 3] {
    let used = used_clusters(clusters);
    let ground = used[first_min(contrasts(clusters, used, background))];
    let inks = used.filter(other_than(ground));
    if used.len() == 1 {
        clusters[used[0]].color
    } else if inks.len() == 0 {
        clusters[ground].color
    } else {
        ink_color(clusters[inks[last_max(ink_scores(clusters, inks, background))]])
    }
}

/// The paint of the text that some pixels show.
pub open spec fn text_paint_of(
    pixels: Seq<MaskPixel>,
    background: [u8; 3],
    width: int,
    height: int,
) -> TextPaint {
    let clusters = clusters_of(pixels, background);
    match best_outline(clusters, background, width, height, 16) {
        Some(outline) => TextPaint {
            color: outline.fill_color,
            stroke_color: Some(outline.stroke_color),
            stroke_width: Some(outline.stroke_width),
        },
        None => TextPaint {
            color: snapped(plain_color(clusters, background)),
            stroke_color: None,
            stroke_width: None,
        },
    }
}

proof fn lemma_clusters_inside(pixels: Seq<MaskPixel>, background: [u8; 3], width: int, height: int)
    requires
        all_inside(pixels, width, height),
        pixels.len() <= u32::MAX,
    ensures
        clusters_inside(clusters_of(pixels, background), width, height),
{
    let clusters = clusters_of(pixels, background);
    let centers = crate::palette::cluster_centers(pixels, background);
    assert forall|i: int| 0 <= i < clusters.len() implies all_inside(
        (#[trigger] clusters[i]).pixels,
        width,
        height,
    ) && clusters[i].pixels.len() <= u32::MAX by {
        lemma_filter_inside(pixels, crate::palette::belongs(centers, i), width, height);
        lemma_filter_shorter(pixels, crate::palette::belongs(centers, i));
    }
}

/// Infers the paint of the text that some pixels show.
pub fn infer_text_paint(
    pixels: &Vec<MaskPixel>,
    background_seed: [u8; 3],
    width: u32,
    height: u32,
) -> (result: TextPaint)
    requires
        0 < pixels.len() <= u32::MAX,
        width * height <= usize::MAX,
        measurable(width as int, height as int),
        all_inside(pixels@, width as int, height as int),
    ensures
        result == text_paint_of(pixels@, background_seed, width as int, height as int),
{
    let clusters = color_clusters(pixels, background_seed);
    let ghost shown = views(clusters@);
    proof {
        assert(shown == clusters_of(pixels@, background_seed));
        assert(clusters.len() == shown.len());
        lemma_clusters_inside(pixels@, background_seed, width as int, height as int);
    }
    if let Some(outline) = infer_outline(&clusters, background_seed, width, height) {
        return TextPaint {
            color: outline.fill_color,
            stroke_color: Some(outline.stroke_color),
            stroke_width: Some(outline.stroke_width),
        };
    }
    let used = list_used_clusters(&clusters);
    let ghost places = used_clusters(shown);
    proof {
        assert(places.len() == used.len());
        lemma_some_cluster(pixels@, background_seed);
    }
    if used.len() == 1 {
        assert(places[0] == used@[0]);
        assert(used@[0] < clusters.len());
        assert(shown[places[0]].color == clusters@[used@[0] as int].color);
        return TextPaint {
            color: normalize_text_color(clusters[used[0]].color),
            stroke_color: None,
            stroke_width: None,
        };
    }
    let ground: usize = find_background(&clusters, &used, background_seed);
    let mut inks: Vec<usize> = Vec::new();
    let mut scores: Vec<u64> = Vec::new();
    let ghost keep = other_than(ground as int);
    let mut index: usize = 0;
    while index < used.len()
        invariant
            index <= used.len(),
            shown == views(clusters@),
            clusters_inside(shown, width as int, height as int),
            places == used@.map_values(|i: usize| i as int),
            keep == other_than(ground as int),
            forall|k: int| 0 <= k < used.len() ==> (#[trigger] used@[k]) < clusters.len(),
            inks@.map_values(|i: usize| i as int) == places.take(index as int).filter(keep),
            forall|k: int| 0 <= k < inks.len() ==> (#[trigger] inks@[k]) < clusters.len(),
            scores.len() == inks.len(),
            forall|k: int|
                0 <= k < inks.len() ==> #[trigger] scores@[k] == ink_score(
                    shown[inks@[k] as int],
                    background_seed,
                ),
        decreases used.len() - index,
    {
        let place: usize = used[index];
        assert(used@[index as int] < clusters.len());
        let ghost before = inks@.map_values(|i: usize| i as int);
        proof {
            let next = places.take(index as int + 1);
            assert(next.drop_last() =~= places.take(index as int));
            reveal(Seq::filter);
        }
        if place != ground {
            assert(shown[place as int].pixels == clusters@[place as int].pixels@);
            inks.push(place);
            scores.push(cluster_ink_score(&clusters[place], background_seed));
            proof {
                assert(inks@.map_values(|i: usize| i as int) =~= before.push(place as int));
            }
        }
        index += 1;
    }
    proof {
        assert(places.take(index as int) =~= places);
    }
    let ghost ink_places = places.filter(keep);
    assert(ink_places.len() == inks.len());
    let color = if inks.len() == 0 {
        clusters[ground].color
    } else {
        proof {
            assert forall|k: int| 0 <= k < inks.len() implies ink_places[k] == inks@[k] as int by {
                assert(inks@.map_values(|i: usize| i as int)[k] == inks@[k] as int);
            }
            assert(numbers(scores@) =~= ink_scores(shown, ink_places, background_seed));
        }
        let best: usize = place_of_last_max(&scores);
        assert(inks@[best as int] < clusters.len());
        assert(shown[inks@[best as int] as int].pixels
            == clusters@[inks@[best as int] as int].pixels@);
        representative_ink_color(&clusters[inks[best]])
    };
    TextPaint { color: normalize_text_color(color), stroke_color: None, stroke_width: None }
}

/// Some cluster has pixels where there are any.
proof fn lemma_some_cluster(pixels: Seq<MaskPixel>, background: [u8; 3])
    requires
        pixels.len() > 0,
    ensures
        used_clusters(clusters_of(pixels, background)).len() > 0,
{
    let centers = crate::palette::cluster_centers(pixels, background);
    let clusters = clusters_of(pixels, background);
    let i = crate::palette::nearest(pixels[0].color, centers);
    crate::palette::lemma_centers_len(pixels, background);
    lemma_first_min(crate::palette::distances(pixels[0].color, centers));
    lemma_pixel_kept(pixels, crate::palette::belongs(centers, i), 0);
    lemma_used(clusters, i);
}

proof fn lemma_pixel_kept(pixels: Seq<MaskPixel>, keep: spec_fn(MaskPixel) -> bool, index: int)
    requires
        0 <= index < pixels.len(),
        keep(pixels[index]),
    ensures
        pixels.filter(keep).len() > 0,
    decreases pixels.len(),
{
    reveal(Seq::filter);
    if index < pixels.len() - 1 {
        lemma_pixel_kept(pixels.drop_last(), keep, index);
    }
}

/// Clusters count as an outline and its fill only where their colors differ clearly from each other
/// and from the background: by a squared distance of at least 1024.
pub proof fn law_outlines_differ_clearly(fill: [u8; 3], stroke: [u8; 3], background: [u8; 3])
    requires
        distinct_paint(fill, stroke, background),
    ensures
        distance(fill, stroke) >= 1024,
        distance(fill, background) >= 1024,
        distance(stroke, background) >= 1024,
        snapped(fill) != snapped(stroke),
        fill != stroke,
{
}

/// The best of some outlines is one of them, and none has a higher score.
pub proof fn law_best_outline_has_the_highest_score(
    clusters: Seq<Cluster>,
    background: [u8; 3],
    width: int,
    height: int,
    pairs: int,
    pair: int,
)
    requires
        clusters.len() == 4,
        0 <= pair < pairs,
    ensures
        outline_of(clusters, background, width, height, pair / 4, pair % 4) matches Some(outline)
            ==> (best_outline(clusters, background, width, height, pairs) matches Some(best)
            && best.score >= outline.score),
    decreases pairs,
{
    if pair < pairs - 1 {
        law_best_outline_has_the_highest_score(
            clusters,
            background,
            width,
            height,
            pairs - 1,
            pair,
        );
    }
}

/// A stroke is as wide as half of its rim is far from the fill, and at least two pixels.
pub proof fn law_strokes_are_at_least_two_wide(
    stroke: Seq<MaskPixel>,
    fill: Seq<MaskPixel>,
    marks: Seq<bool>,
    width: int,
    height: int,
    low: int,
    high: int,
)
    requires
        forall|i: int|
            0 <= i < rim_distances(stroke, fill, marks, width, height).len() ==> low
                <= #[trigger] rim_distances(stroke, fill, marks, width, height)[i] <= high,
    ensures
        stroke_width_of(stroke, fill, marks, width, height) matches Some(found) ==> {
            &&& 2 <= found
            &&& low <= found <= high
            &&& stroke.len() >= 8 && fill.len() >= 8
        },
{
    let rim = rim_distances(stroke, fill, marks, width, height);
    if rim.len() > 0 {
        crate::color::law_median_lies_in_the_middle(rim, low, high);
    }
}

} // verus!
