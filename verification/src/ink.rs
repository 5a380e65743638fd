//! What the paint of a text has to do with the pixels that show it.

use vstd::prelude::*;

use crate::color::{
    channel_of, colors_of, distance, law_median_lies_in_the_middle,
    law_text_color_stays_or_becomes_plain, luminance, median_color_of, snapped,
};
use crate::extremum::{first_min, last_max, lemma_first_min, lemma_last_max};
use crate::paint::{
    band, best_outline, contrasts, enclosed, ink_scores, masked, other_than, outline_of,
    outside_marks, owners, plain_color, text_paint_of, used_clusters,
};
use crate::palette::{
    all_bins, belongs, channel_sum, closest_distance, closest_to, cluster_centers, clusters_of,
    distances, distant_of, extreme_of, has_key, lemma_bin_push, lemma_centers_len,
    lemma_filter_len, lemma_holding, lemma_member, luminances, mean_of, members, nearest,
    palette_key, palette_of, pixels_in, recentered, remoteness, rounded_mean, settled, share,
    significant, sums_in, used, Cluster, ColorBin,
};
use crate::pixel::MaskPixel;

verus! {

/// A channel of a color lies between two bounds.
pub open spec fn within(color: [u8; 3], channel: int, low: int, high: int) -> bool {
    low <= color@[channel] <= high
}

/// A channel of all pixels lies between two bounds.
pub open spec fn all_within(pixels: Seq<MaskPixel>, channel: int, low: int, high: int) -> bool {
    forall|i: int| 0 <= i < pixels.len() ==> within((#[trigger] pixels[i]).color, channel, low, high)
}

/// The sum of a channel of a bin is that of as many colors between two bounds.
spec fn bin_within(bin: ColorBin, channel: int, low: int, high: int) -> bool {
    bin.count > 0 && bin.count * low <= bin.sums@[channel] <= bin.count * high
}

proof fn lemma_rounded_within(total: int, count: int, low: int, high: int)
    requires
        count > 0,
        0 <= low,
        high <= 255,
        count * low <= total <= count * high,
    ensures
        low <= rounded_mean(total, count) <= high,
{
    let half = count / 2;
    let quotient = (total + half) / count;
    assert(low <= quotient <= high) by (nonlinear_arith)
        requires
            count > 0,
            0 <= half < count,
            quotient == (total + half) / count,
            count * low <= total <= count * high,
    ;
}

proof fn lemma_sum_within(colors: Seq<[u8; 3]>, channel: int, low: int, high: int)
    requires
        0 <= channel < 3,
        forall|i: int| 0 <= i < colors.len() ==> within(#[trigger] colors[i], channel, low, high),
    ensures
        colors.len() * low <= channel_sum(colors, channel) <= colors.len() * high,
    decreases colors.len(),
{
    let number = |color: [u8; 3]| color@[channel] as nat;
    if colors.len() > 0 {
        let rest = colors.drop_last();
        assert forall|i: int| 0 <= i < rest.len() implies within(
            #[trigger] rest[i],
            channel,
            low,
            high,
        ) by {
            assert(rest[i] == colors[i]);
        }
        lemma_sum_within(rest, channel, low, high);
        assert(colors.map_values(number).drop_last() =~= rest.map_values(number));
        let last = colors[colors.len() - 1]@[channel] as int;
        assert(within(colors[colors.len() - 1], channel, low, high));
        let count = colors.len() as int;
        assert(count * low == (count - 1) * low + low && count * high == (count - 1) * high + high)
            by (nonlinear_arith);
    } else {
        assert(0 * low == 0 && 0 * high == 0) by (nonlinear_arith);
    }
}

/// The bins of a palette hold colors of the pixels, those of one part of the palette each.
proof fn lemma_palette_bin(pixels: Seq<MaskPixel>, index: int) -> (key: int)
    requires
        pixels.len() <= u32::MAX,
        0 <= index < palette_of(pixels).len(),
    ensures
        0 <= key < 4096,
        palette_of(pixels)[index] == ColorBin::holding(members(pixels, key)),
        palette_of(pixels)[index].count > 0,
        0 < members(pixels, key).len() <= u32::MAX,
{
    let bins = all_bins(pixels);
    let bin = palette_of(pixels)[index];
    bins.lemma_filter_pred(used(), index);
    assert(palette_of(pixels).contains(bin));
    bins.lemma_filter_contains_rev(used(), bin);
    let key = choose|key: int| 0 <= key < bins.len() && bins[key] == bin;
    lemma_filter_len(colors_of(pixels), has_key(key));
    lemma_holding(members(pixels, key));
    key
}

/// The colors in one part of the palette are colors of pixels.
proof fn lemma_member_of(pixels: Seq<MaskPixel>, key: int, index: int) -> (at: int)
    requires
        0 <= index < members(pixels, key).len(),
    ensures
        0 <= at < pixels.len(),
        pixels[at].color == members(pixels, key)[index],
        palette_key(members(pixels, key)[index]) == key,
{
    let colors = colors_of(pixels);
    let color = members(pixels, key)[index];
    colors.lemma_filter_pred(has_key(key), index);
    assert(members(pixels, key).contains(color));
    colors.lemma_filter_contains_rev(has_key(key), color);
    choose|at: int| 0 <= at < colors.len() && colors[at] == color
}

proof fn lemma_palette_within(
    pixels: Seq<MaskPixel>,
    channel: int,
    low: int,
    high: int,
    index: int,
)
    requires
        pixels.len() <= u32::MAX,
        0 <= channel < 3,
        all_within(pixels, channel, low, high),
        0 <= index < palette_of(pixels).len(),
    ensures
        bin_within(palette_of(pixels)[index], channel, low, high),
{
    let key = lemma_palette_bin(pixels, index);
    let colors = members(pixels, key);
    assert forall|i: int| 0 <= i < colors.len() implies within(
        #[trigger] colors[i],
        channel,
        low,
        high,
    ) by {
        let at = lemma_member_of(pixels, key, i);
        assert(within(pixels[at].color, channel, low, high));
    }
    lemma_sum_within(colors, channel, low, high);
    lemma_holding(colors);
}

proof fn lemma_mean_within(bin: ColorBin, channel: int, low: int, high: int)
    requires
        0 <= channel < 3,
        0 <= low,
        high <= 255,
        bin_within(bin, channel, low, high),
    ensures
        within(bin.mean(), channel, low, high),
{
    lemma_rounded_within(bin.sums@[channel] as int, bin.count as int, low, high);
}

/// The bins of a palette, or of a part of it, are bounded by what bounds each.
proof fn lemma_bins_within(bins: Seq<ColorBin>, channel: int, low: int, high: int)
    requires
        0 <= channel < 3,
        forall|i: int| 0 <= i < bins.len() ==> bin_within(#[trigger] bins[i], channel, low, high),
    ensures
        pixels_in(bins) * low <= sums_in(bins, channel) <= pixels_in(bins) * high,
    decreases bins.len(),
{
    if bins.len() > 0 {
        let rest = bins.drop_last();
        let bin = bins[bins.len() - 1];
        assert forall|i: int| 0 <= i < rest.len() implies bin_within(
            #[trigger] rest[i],
            channel,
            low,
            high,
        ) by {
            assert(rest[i] == bins[i]);
        }
        lemma_bins_within(rest, channel, low, high);
        lemma_bin_push(rest, bin);
        assert(rest.push(bin) =~= bins);
        assert(bin_within(bin, channel, low, high));
        let before = pixels_in(rest) as int;
        let count = bin.count as int;
        assert((before + count) * low == before * low + count * low && (before + count) * high
            == before * high + count * high) by (nonlinear_arith);
    } else {
        assert(0 * low == 0 && 0 * high == 0) by (nonlinear_arith);
        assert(pixels_in(bins) == 0 && sums_in(bins, channel) == 0);
    }
}

/// A filtered palette holds bins of the palette.
proof fn lemma_part(bins: Seq<ColorBin>, keep: spec_fn(ColorBin) -> bool, index: int) -> (at: int)
    requires
        0 <= index < bins.filter(keep).len(),
    ensures
        0 <= at < bins.len(),
        bins[at] == bins.filter(keep)[index],
        keep(bins[at]),
{
    let bin = bins.filter(keep)[index];
    bins.lemma_filter_pred(keep, index);
    assert(bins.filter(keep).contains(bin));
    bins.lemma_filter_contains_rev(keep, bin);
    choose|at: int| 0 <= at < bins.len() && bins[at] == bin
}

/// The extreme colors of a palette are means of its bins.
proof fn lemma_extreme_is_mean(palette: Seq<ColorBin>, darkest: bool) -> (at: int)
    requires
        palette.len() > 0,
    ensures
        0 <= at < palette.len(),
        extreme_of(palette, darkest) == palette[at].mean(),
{
    let strong = palette.filter(significant());
    let pool = if strong.len() > 0 {
        strong
    } else {
        palette
    };
    lemma_first_min(luminances(pool));
    lemma_last_max(luminances(pool));
    let place = if darkest {
        first_min(luminances(pool))
    } else {
        last_max(luminances(pool))
    };
    if strong.len() > 0 {
        lemma_part(palette, significant(), place)
    } else {
        place
    }
}

/// There is a palette where there are pixels.
proof fn lemma_palette_used(pixels: Seq<MaskPixel>, index: int) -> (at: int)
    requires
        pixels.len() <= u32::MAX,
        0 <= index < pixels.len(),
    ensures
        0 <= at < palette_of(pixels).len(),
        palette_of(pixels)[at] == ColorBin::holding(
            members(pixels, palette_key(pixels[index].color)),
        ),
{
    let key = palette_key(pixels[index].color);
    let bins = all_bins(pixels);
    let colors = members(pixels, key);
    lemma_member(pixels, index);
    lemma_filter_len(colors_of(pixels), has_key(key));
    lemma_holding(colors);
    assert(used()(bins[key]));
    bins.lemma_filter_contains(used(), key);
    let found = palette_of(pixels);
    choose|at: int| 0 <= at < found.len() && found[at] == bins[key]
}

/// The centers of the clusters before they are moved.
spec fn first_centers(pixels: Seq<MaskPixel>, background: [u8; 3]) -> Seq<[u8; 3]> {
    let palette = palette_of(pixels);
    let darkest = extreme_of(palette, true);
    let lightest = extreme_of(palette, false);
    seq![background, darkest, lightest, distant_of(palette, seq![background, darkest, lightest])]
}

proof fn lemma_settled_within(
    palette: Seq<ColorBin>,
    centers: Seq<[u8; 3]>,
    rounds: nat,
    channel: int,
    low: int,
    high: int,
)
    requires
        0 <= channel < 3,
        0 <= low,
        high <= 255,
        forall|i: int| 0 <= i < palette.len() ==> bin_within(#[trigger] palette[i], channel, low, high),
        forall|i: int| 0 <= i < centers.len() ==> within(#[trigger] centers[i], channel, low, high),
    ensures
        settled(palette, centers, rounds).len() == centers.len(),
        forall|i: int|
            0 <= i < centers.len() ==> within(
                #[trigger] settled(palette, centers, rounds)[i],
                channel,
                low,
                high,
            ),
    decreases rounds,
{
    if rounds > 0 {
        let before = settled(palette, centers, (rounds - 1) as nat);
        let after = settled(palette, centers, rounds);
        lemma_settled_within(palette, centers, (rounds - 1) as nat, channel, low, high);
        assert forall|i: int| 0 <= i < centers.len() implies within(
            #[trigger] after[i],
            channel,
            low,
            high,
        ) by {
            let part = share(palette, before, i);
            assert(within(before[i], channel, low, high));
            if pixels_in(part) != 0 {
                assert forall|k: int| 0 <= k < part.len() implies bin_within(
                    #[trigger] part[k],
                    channel,
                    low,
                    high,
                ) by {
                    let at = lemma_part(palette, closest_to(before, i), k);
                    assert(bin_within(palette[at], channel, low, high));
                }
                lemma_bins_within(part, channel, low, high);
                lemma_rounded_within(
                    sums_in(part, channel) as int,
                    pixels_in(part) as int,
                    low,
                    high,
                );
            }
        }
    }
}

/// The centers of clusters lie between what bounds the pixels and the background.
proof fn lemma_centers_within(
    pixels: Seq<MaskPixel>,
    background: [u8; 3],
    channel: int,
    low: int,
    high: int,
)
    requires
        0 < pixels.len() <= u32::MAX,
        0 <= channel < 3,
        0 <= low,
        high <= 255,
        all_within(pixels, channel, low, high),
        within(background, channel, low, high),
    ensures
        cluster_centers(pixels, background).len() == 4,
        forall|i: int|
            0 <= i < 4 ==> within(
                #[trigger] cluster_centers(pixels, background)[i],
                channel,
                low,
                high,
            ),
{
    let palette = palette_of(pixels);
    let some = lemma_palette_used(pixels, 0);
    assert forall|i: int| 0 <= i < palette.len() implies bin_within(
        #[trigger] palette[i],
        channel,
        low,
        high,
    ) by {
        lemma_palette_within(pixels, channel, low, high, i);
    }
    let dark = lemma_extreme_is_mean(palette, true);
    let light = lemma_extreme_is_mean(palette, false);
    let three = seq![background, extreme_of(palette, true), extreme_of(palette, false)];
    lemma_last_max(remoteness(palette, three));
    let far = last_max(remoteness(palette, three));
    lemma_mean_within(palette[dark], channel, low, high);
    lemma_mean_within(palette[light], channel, low, high);
    lemma_mean_within(palette[far], channel, low, high);
    let centers = first_centers(pixels, background);
    assert forall|i: int| 0 <= i < centers.len() implies within(
        #[trigger] centers[i],
        channel,
        low,
        high,
    ) by {}
    lemma_settled_within(palette, centers, 4, channel, low, high);
}

/// Some of the pixels are bounded by what bounds all.
proof fn lemma_some_within(
    pixels: Seq<MaskPixel>,
    keep: spec_fn(MaskPixel) -> bool,
    channel: int,
    low: int,
    high: int,
)
    requires
        all_within(pixels, channel, low, high),
    ensures
        all_within(pixels.filter(keep), channel, low, high),
{
    let part = pixels.filter(keep);
    assert forall|i: int| 0 <= i < part.len() implies within(
        (#[trigger] part[i]).color,
        channel,
        low,
        high,
    ) by {
        assert(part.contains(part[i]));
        pixels.lemma_filter_contains_rev(keep, part[i]);
        let at = choose|at: int| 0 <= at < pixels.len() && pixels[at] == part[i];
        assert(within(pixels[at].color, channel, low, high));
    }
}

/// The median color of pixels lies between what bounds them.
proof fn lemma_median_within(pixels: Seq<MaskPixel>, channel: int, low: int, high: int)
    requires
        pixels.len() > 0,
        0 <= channel < 3,
        all_within(pixels, channel, low, high),
    ensures
        within(median_color_of(colors_of(pixels)), channel, low, high),
{
    let values = channel_of(colors_of(pixels), channel);
    assert forall|i: int| 0 <= i < values.len() implies low <= #[trigger] values[i] <= high by {
        assert(within(pixels[i].color, channel, low, high));
    }
    law_median_lies_in_the_middle(values, low, high);
}

/// A color is black or white, or a channel of it lies between two bounds.
pub open spec fn plain_or_within(color: [u8; 3], channel: int, low: int, high: int) -> bool {
    ||| color@ == seq![0u8, 0u8, 0u8]
    ||| color@ == seq![255u8, 255u8, 255u8]
    ||| low <= color@[channel] <= high
}

proof fn lemma_snapped_within(color: [u8; 3], channel: int, low: int, high: int)
    requires
        0 <= channel < 3,
        within(color, channel, low, high),
    ensures
        plain_or_within(snapped(color), channel, low, high),
{
    law_text_color_stays_or_becomes_plain(color);
}

proof fn lemma_outline_within(
    clusters: Seq<Cluster>,
    background: [u8; 3],
    width: int,
    height: int,
    pairs: int,
    channel: int,
    low: int,
    high: int,
)
    requires
        0 <= channel < 3,
        clusters.len() == 4,
        0 <= pairs <= 16,
        forall|i: int|
            0 <= i < clusters.len() ==> all_within((#[trigger] clusters[i]).pixels, channel, low, high),
    ensures
        best_outline(clusters, background, width, height, pairs) matches Some(outline) ==> {
            &&& plain_or_within(outline.fill_color, channel, low, high)
            &&& plain_or_within(outline.stroke_color, channel, low, high)
        },
    decreases pairs,
{
    if pairs > 0 {
        lemma_outline_within(clusters, background, width, height, pairs - 1, channel, low, high);
        let stroke = (pairs - 1) / 4;
        let fill = (pairs - 1) % 4;
        assert(0 <= stroke < 4 && 0 <= fill < 4);
        let kinds = owners(clusters, width, height);
        let marks = outside_marks(kinds, stroke as usize, width, height);
        let inner = clusters[fill].pixels.filter(enclosed(marks, width));
        let ring = clusters[stroke].pixels.filter(
            band(kinds, stroke as usize, inner, width, height),
        );
        assert(all_within(clusters[fill].pixels, channel, low, high));
        assert(all_within(clusters[stroke].pixels, channel, low, high));
        lemma_some_within(clusters[fill].pixels, enclosed(marks, width), channel, low, high);
        lemma_some_within(
            clusters[stroke].pixels,
            band(kinds, stroke as usize, inner, width, height),
            channel,
            low,
            high,
        );
        if inner.len() > 0 && ring.len() > 0 {
            lemma_median_within(inner, channel, low, high);
            lemma_median_within(ring, channel, low, high);
            lemma_snapped_within(median_color_of(colors_of(inner)), channel, low, high);
            lemma_snapped_within(median_color_of(colors_of(ring)), channel, low, high);
        }
    }
}

/// The clusters that are used are clusters.
proof fn lemma_used(clusters: Seq<Cluster>, place: int)
    requires
        0 <= place < used_clusters(clusters).len(),
    ensures
        0 <= used_clusters(clusters)[place] < clusters.len(),
        clusters[used_clusters(clusters)[place]].pixels.len() > 0,
{
    let all = Seq::new(clusters.len(), |i: int| i);
    let keep = |i: int| clusters[i].pixels.len() > 0;
    let found = used_clusters(clusters);
    all.lemma_filter_pred(keep, place);
    assert(found.contains(found[place]));
    all.lemma_filter_contains_rev(keep, found[place]);
    let at = choose|at: int| 0 <= at < all.len() && all[at] == found[place];
}

/// A cluster that has pixels is used.
proof fn lemma_is_used(clusters: Seq<Cluster>, index: int) -> (place: int)
    requires
        0 <= index < clusters.len(),
        clusters[index].pixels.len() > 0,
    ensures
        0 <= place < used_clusters(clusters).len(),
        used_clusters(clusters)[place] == index,
{
    let all = Seq::new(clusters.len(), |i: int| i);
    let keep = |i: int| clusters[i].pixels.len() > 0;
    all.lemma_filter_contains(keep, index);
    let found = used_clusters(clusters);
    choose|place: int| 0 <= place < found.len() && found[place] == index
}

/// A pixel is in the cluster that its color belongs to.
proof fn lemma_cluster_with(pixels: Seq<MaskPixel>, background: [u8; 3], index: int) -> (at: int)
    requires
        0 <= index < pixels.len(),
    ensures
        0 <= at < 4,
        at == nearest(pixels[index].color, cluster_centers(pixels, background)),
        clusters_of(pixels, background)[at].pixels.contains(pixels[index]),
        clusters_of(pixels, background)[at].pixels.len() > 0,
{
    let centers = cluster_centers(pixels, background);
    lemma_centers_len(pixels, background);
    lemma_first_min(distances(pixels[index].color, centers));
    let at = nearest(pixels[index].color, centers);
    pixels.lemma_filter_contains(belongs(centers, at), index);
    at
}

/// The color of a text is black or white or, channel by channel, lies between the colors of the
/// pixels that it was taken from and of the background. So does the color of its outline.
pub proof fn law_paint_lies_within_the_colors_of_the_pixels(
    pixels: Seq<MaskPixel>,
    background: [u8; 3],
    width: int,
    height: int,
    channel: int,
    low: int,
    high: int,
)
    requires
        0 < pixels.len() <= u32::MAX,
        0 <= channel < 3,
        forall|i: int|
            0 <= i < pixels.len() ==> low <= (#[trigger] pixels[i]).color@[channel] <= high,
        low <= background@[channel] <= high,
    ensures
        ({
            let paint = text_paint_of(pixels, background, width, height);
            &&& plain_or_within(paint.color, channel, low, high)
            &&& paint.stroke_color matches Some(stroke) ==> plain_or_within(
                stroke,
                channel,
                low,
                high,
            )
        }),
{
    let bottom = if low < 0 {
        0
    } else {
        low
    };
    let top = if high > 255 {
        255
    } else {
        high
    };
    assert(all_within(pixels, channel, bottom, top));
    lemma_centers_within(pixels, background, channel, bottom, top);
    let centers = cluster_centers(pixels, background);
    let clusters = clusters_of(pixels, background);
    assert forall|i: int| 0 <= i < clusters.len() implies all_within(
        (#[trigger] clusters[i]).pixels,
        channel,
        bottom,
        top,
    ) by {
        lemma_some_within(pixels, belongs(centers, i), channel, bottom, top);
    }
    lemma_outline_within(clusters, background, width, height, 16, channel, bottom, top);
    let found = used_clusters(clusters);
    let some = lemma_cluster_with(pixels, background, 0);
    let at = lemma_is_used(clusters, some);
    let contrast = contrasts(clusters, found, background);
    lemma_first_min(contrast);
    let ground = found[first_min(contrast)];
    lemma_used(clusters, first_min(contrast));
    lemma_used(clusters, 0);
    let inks = found.filter(other_than(ground));
    assert(within(centers[found[0]], channel, bottom, top));
    assert(within(centers[ground], channel, bottom, top));
    if inks.len() > 0 {
        let scores = ink_scores(clusters, inks, background);
        lemma_last_max(scores);
        let best = inks[last_max(scores)];
        assert(inks.contains(best));
        found.lemma_filter_contains_rev(other_than(ground), best);
        let place = choose|place: int| 0 <= place < found.len() && found[place] == best;
        lemma_used(clusters, place);
        assert(all_within(clusters[best].pixels, channel, bottom, top));
        lemma_some_within(clusters[best].pixels, masked(), channel, bottom, top);
        if clusters[best].pixels.filter(masked()).len() >= 8 {
            lemma_median_within(clusters[best].pixels.filter(masked()), channel, bottom, top);
        } else {
            lemma_median_within(clusters[best].pixels, channel, bottom, top);
        }
    }
    assert(within(plain_color(clusters, background), channel, bottom, top));
    lemma_snapped_within(plain_color(clusters, background), channel, bottom, top);
}

/// A bin holds pixels of one color alone.
spec fn pure(bin: ColorBin, color: [u8; 3]) -> bool {
    forall|channel: int|
        0 <= channel < 3 ==> #[trigger] bin_within(
            bin,
            channel,
            color@[channel] as int,
            color@[channel] as int,
        )
}

/// A color is one of two.
spec fn either(color: [u8; 3], ink: [u8; 3], ground: [u8; 3]) -> bool {
    color == ink || color == ground
}

/// Two colors are in different parts of the palette if a channel differs by that much.
proof fn lemma_keys_differ(ink: [u8; 3], ground: [u8; 3], channel: int)
    requires
        0 <= channel < 3,
        ink@[channel] >= ground@[channel] + 16 || ground@[channel] >= ink@[channel] + 16,
    ensures
        palette_key(ink) != palette_key(ground),
{
}

proof fn lemma_same_color(left: [u8; 3], right: [u8; 3])
    requires
        forall|channel: int|
            0 <= channel < 3 ==> #[trigger] within(
                left,
                channel,
                right@[channel] as int,
                right@[channel] as int,
            ),
    ensures
        left == right,
{
    assert(within(left, 0, right@[0] as int, right@[0] as int));
    assert(within(left, 1, right@[1] as int, right@[1] as int));
    assert(within(left, 2, right@[2] as int, right@[2] as int));
    assert(left =~= right);
}

proof fn lemma_pure_mean(bin: ColorBin, color: [u8; 3])
    requires
        pure(bin, color),
    ensures
        bin.mean() == color,
{
    assert forall|channel: int| 0 <= channel < 3 implies #[trigger] within(
        bin.mean(),
        channel,
        color@[channel] as int,
        color@[channel] as int,
    ) by {
        let value = color@[channel] as int;
        assert(bin_within(bin, channel, value, value));
        lemma_mean_within(bin, channel, value, value);
    }
    lemma_same_color(bin.mean(), color);
}

/// Colors that are all one color make a bin of that color.
proof fn lemma_pure_holding(colors: Seq<[u8; 3]>, color: [u8; 3])
    requires
        0 < colors.len() <= u32::MAX,
        forall|i: int| 0 <= i < colors.len() ==> #[trigger] colors[i] == color,
    ensures
        pure(ColorBin::holding(colors), color),
{
    lemma_holding(colors);
    assert forall|channel: int| 0 <= channel < 3 implies #[trigger] bin_within(
        ColorBin::holding(colors),
        channel,
        color@[channel] as int,
        color@[channel] as int,
    ) by {
        let value = color@[channel] as int;
        assert forall|i: int| 0 <= i < colors.len() implies within(
            #[trigger] colors[i],
            channel,
            value,
            value,
        ) by {
            assert(colors[i] == color);
        }
        lemma_sum_within(colors, channel, value, value);
    }
}

/// Two colors have a distance of zero only if they are one.
proof fn lemma_distance(left: [u8; 3], right: [u8; 3])
    ensures
        distance(left, right) >= 0,
        distance(left, right) == 0 <==> left == right,
{
    let a = left@[0] - right@[0];
    let b = left@[1] - right@[1];
    let c = left@[2] - right@[2];
    assert(a * a >= 0 && b * b >= 0 && c * c >= 0) by (nonlinear_arith);
    assert(a * a == 0 ==> a == 0) by (nonlinear_arith);
    assert(b * b == 0 ==> b == 0) by (nonlinear_arith);
    assert(c * c == 0 ==> c == 0) by (nonlinear_arith);
    if left == right {
        assert(a == 0 && b == 0 && c == 0);
        assert(a * a == 0 && b * b == 0 && c * c == 0);
    }
    if a == 0 && b == 0 && c == 0 {
        assert(left =~= right);
    }
}

/// A color that is a center is closest to a center of that color.
proof fn lemma_nearest_is_same(color: [u8; 3], centers: Seq<[u8; 3]>, at: int)
    requires
        0 <= at < centers.len(),
        centers[at] == color,
    ensures
        0 <= nearest(color, centers) < centers.len(),
        centers[nearest(color, centers)] == color,
        closest_distance(color, centers) == 0,
{
    let keys = distances(color, centers);
    lemma_first_min(keys);
    let found = nearest(color, centers);
    lemma_distance(color, centers[at]);
    lemma_distance(color, centers[found]);
    assert(keys[found] <= keys[at]);
}

/// The bins of pixels of two colors are of one color each.
proof fn lemma_two_colored_bin(
    pixels: Seq<MaskPixel>,
    ink: [u8; 3],
    ground: [u8; 3],
    index: int,
)
    requires
        pixels.len() <= u32::MAX,
        forall|i: int|
            0 <= i < pixels.len() ==> either((#[trigger] pixels[i]).color, ink, ground),
        palette_key(ink) != palette_key(ground),
        0 <= index < palette_of(pixels).len(),
    ensures
        pure(palette_of(pixels)[index], ink) || pure(palette_of(pixels)[index], ground),
{
    let key = lemma_palette_bin(pixels, index);
    let colors = members(pixels, key);
    let color = if key == palette_key(ink) {
        ink
    } else {
        ground
    };
    assert forall|i: int| 0 <= i < colors.len() implies #[trigger] colors[i] == color by {
        let at = lemma_member_of(pixels, key, i);
        assert(either(pixels[at].color, ink, ground));
    }
    lemma_pure_holding(colors, color);
}

/// The first centers of pixels of two colors are these colors, and the ink is among them.
proof fn lemma_first_centers(pixels: Seq<MaskPixel>, ink: [u8; 3], ground: [u8; 3], some: int) -> (
at: int)
    requires
        0 < pixels.len() <= u32::MAX,
        forall|i: int|
            0 <= i < pixels.len() ==> either((#[trigger] pixels[i]).color, ink, ground),
        palette_key(ink) != palette_key(ground),
        0 <= some < pixels.len(),
        pixels[some].color == ink,
    ensures
        first_centers(pixels, ground).len() == 4,
        first_centers(pixels, ground)[0] == ground,
        forall|i: int|
            0 <= i < 4 ==> either(#[trigger] first_centers(pixels, ground)[i], ink, ground),
        0 <= at < 4,
        first_centers(pixels, ground)[at] == ink,
{
    let palette = palette_of(pixels);
    let centers = first_centers(pixels, ground);
    let place = lemma_palette_used(pixels, some);
    lemma_two_colored_bin(pixels, ink, ground, place);
    assert(pure(palette[place], ink)) by {
        let colors = members(pixels, palette_key(ink));
        lemma_member(pixels, some);
        lemma_filter_len(colors_of(pixels), has_key(palette_key(ink)));
        assert forall|i: int| 0 <= i < colors.len() implies #[trigger] colors[i] == ink by {
            let at = lemma_member_of(pixels, palette_key(ink), i);
            assert(either(pixels[at].color, ink, ground));
        }
        lemma_pure_holding(colors, ink);
    }
    lemma_pure_mean(palette[place], ink);
    let dark = lemma_extreme_is_mean(palette, true);
    let light = lemma_extreme_is_mean(palette, false);
    let three = seq![ground, extreme_of(palette, true), extreme_of(palette, false)];
    let keys = remoteness(palette, three);
    lemma_last_max(keys);
    let far = last_max(keys);
    lemma_two_colored_mean(pixels, ink, ground, dark);
    lemma_two_colored_mean(pixels, ink, ground, light);
    lemma_two_colored_mean(pixels, ink, ground, far);
    assert forall|i: int| 0 <= i < 4 implies either(#[trigger] centers[i], ink, ground) by {}
    if centers[1] == ink {
        1
    } else if centers[2] == ink {
        2
    } else {
        assert(three =~= seq![ground, ground, ground]);
        if centers[3] != ink {
            assert(palette[far].mean() == ground);
            lemma_nearest_is_same(ground, three, 0);
            assert(keys[far] == 0) by {
                assert(0 * (if palette[far].count < 64 { palette[far].count as int } else { 64 })
                    == 0) by (nonlinear_arith);
            }
            let gaps = distances(ink, three);
            lemma_first_min(gaps);
            lemma_distance(ink, three[first_min(gaps)]);
            let gap = closest_distance(ink, three);
            assert(gap > 0);
            assert(palette[place].count > 0) by {
                assert(bin_within(palette[place], 0, ink@[0] as int, ink@[0] as int));
            }
            let weight = if palette[place].count < 64 {
                palette[place].count as int
            } else {
                64
            };
            assert(gap * weight > 0) by (nonlinear_arith)
                requires
                    gap > 0,
                    weight > 0,
            ;
            assert(keys[place] == gap * weight);
        }
        3
    }
}

proof fn lemma_two_colored_mean(
    pixels: Seq<MaskPixel>,
    ink: [u8; 3],
    ground: [u8; 3],
    index: int,
)
    requires
        pixels.len() <= u32::MAX,
        forall|i: int|
            0 <= i < pixels.len() ==> either((#[trigger] pixels[i]).color, ink, ground),
        palette_key(ink) != palette_key(ground),
        0 <= index < palette_of(pixels).len(),
    ensures
        either(palette_of(pixels)[index].mean(), ink, ground),
        pure(palette_of(pixels)[index], palette_of(pixels)[index].mean()),
{
    let bin = palette_of(pixels)[index];
    lemma_two_colored_bin(pixels, ink, ground, index);
    if pure(bin, ink) {
        lemma_pure_mean(bin, ink);
    } else {
        lemma_pure_mean(bin, ground);
    }
}

/// Centers that are the colors of the pixels do not move.
proof fn lemma_centers_rest(
    pixels: Seq<MaskPixel>,
    ink: [u8; 3],
    ground: [u8; 3],
    centers: Seq<[u8; 3]>,
    at: int,
)
    requires
        pixels.len() <= u32::MAX,
        forall|i: int|
            0 <= i < pixels.len() ==> either((#[trigger] pixels[i]).color, ink, ground),
        palette_key(ink) != palette_key(ground),
        0 < centers.len(),
        centers[0] == ground,
        0 <= at < centers.len(),
        centers[at] == ink,
    ensures
        recentered(palette_of(pixels), centers) == centers,
{
    let palette = palette_of(pixels);
    assert forall|i: int| 0 <= i < centers.len() implies recentered(palette, centers)[i]
        == centers[i] by {
        let part = share(palette, centers, i);
        if pixels_in(part) != 0 {
            assert forall|k: int| 0 <= k < part.len() implies pure(
                #[trigger] part[k],
                centers[i],
            ) by {
                let place = lemma_part(palette, closest_to(centers, i), k);
                lemma_two_colored_mean(pixels, ink, ground, place);
                let mean = palette[place].mean();
                lemma_nearest_is_same(
                    mean,
                    centers,
                    if mean == ink {
                        at
                    } else {
                        0
                    },
                );
            }
            assert forall|channel: int| 0 <= channel < 3 implies #[trigger] within(
                mean_of(part),
                channel,
                centers[i]@[channel] as int,
                centers[i]@[channel] as int,
            ) by {
                let value = centers[i]@[channel] as int;
                assert forall|k: int| 0 <= k < part.len() implies bin_within(
                    #[trigger] part[k],
                    channel,
                    value,
                    value,
                ) by {
                    assert(pure(part[k], centers[i]));
                }
                lemma_bins_within(part, channel, value, value);
                lemma_rounded_within(
                    sums_in(part, channel) as int,
                    pixels_in(part) as int,
                    value,
                    value,
                );
            }
            lemma_same_color(mean_of(part), centers[i]);
        }
    }
    assert(recentered(palette, centers) =~= centers);
}

/// The median color of pixels of one color is that color.
pub proof fn lemma_median_of_one(pixels: Seq<MaskPixel>, color: [u8; 3])
    requires
        pixels.len() > 0,
        forall|i: int| 0 <= i < pixels.len() ==> (#[trigger] pixels[i]).color == color,
    ensures
        median_color_of(colors_of(pixels)) == color,
{
    assert forall|channel: int| 0 <= channel < 3 implies #[trigger] within(
        median_color_of(colors_of(pixels)),
        channel,
        color@[channel] as int,
        color@[channel] as int,
    ) by {
        let value = color@[channel] as int;
        assert(all_within(pixels, channel, value, value));
        lemma_median_within(pixels, channel, value, value);
    }
    lemma_same_color(median_color_of(colors_of(pixels)), color);
}

/// Some of the pixels of one color have that color.
proof fn lemma_some_of_one(
    pixels: Seq<MaskPixel>,
    keep: spec_fn(MaskPixel) -> bool,
    color: [u8; 3],
)
    requires
        forall|i: int| 0 <= i < pixels.len() ==> (#[trigger] pixels[i]).color == color,
    ensures
        forall|i: int|
            0 <= i < pixels.filter(keep).len() ==> (#[trigger] pixels.filter(keep)[i]).color
                == color,
{
    let part = pixels.filter(keep);
    assert forall|i: int| 0 <= i < part.len() implies (#[trigger] part[i]).color == color by {
        assert(part.contains(part[i]));
        pixels.lemma_filter_contains_rev(keep, part[i]);
        let at = choose|at: int| 0 <= at < pixels.len() && pixels[at] == part[i];
        assert(pixels[at].color == color);
    }
}

/// Clusters of two colors, one of them that of the background, show no outline.
proof fn lemma_no_outline(
    clusters: Seq<Cluster>,
    ink: [u8; 3],
    ground: [u8; 3],
    width: int,
    height: int,
    pairs: int,
)
    requires
        clusters.len() == 4,
        0 <= pairs <= 16,
        forall|i: int| 0 <= i < 4 ==> either((#[trigger] clusters[i]).color, ink, ground),
        forall|i: int, k: int|
            0 <= i < 4 && 0 <= k < clusters[i].pixels.len() ==> (
            #[trigger] clusters[i].pixels[k]).color == clusters[i].color,
    ensures
        best_outline(clusters, ground, width, height, pairs) is None,
    decreases pairs,
{
    if pairs > 0 {
        lemma_no_outline(clusters, ink, ground, width, height, pairs - 1);
        let stroke = (pairs - 1) / 4;
        let fill = (pairs - 1) % 4;
        assert(0 <= stroke < 4 && 0 <= fill < 4);
        let kinds = owners(clusters, width, height);
        let marks = outside_marks(kinds, stroke as usize, width, height);
        let inner = clusters[fill].pixels.filter(enclosed(marks, width));
        let keep = band(kinds, stroke as usize, inner, width, height);
        let ring = clusters[stroke].pixels.filter(keep);
        lemma_some_of_one(clusters[fill].pixels, enclosed(marks, width), clusters[fill].color);
        lemma_some_of_one(clusters[stroke].pixels, keep, clusters[stroke].color);
        assert(outline_of(clusters, ground, width, height, stroke, fill) is None) by {
            if inner.len() > 0 && ring.len() > 0 {
                lemma_median_of_one(inner, clusters[fill].color);
                lemma_median_of_one(ring, clusters[stroke].color);
                assert(either(clusters[fill].color, ink, ground));
                assert(either(clusters[stroke].color, ink, ground));
                lemma_distance(ground, ground);
                lemma_distance(ink, ink);
            }
        }
    }
}

/// Clusters are of the colors that pixels have, and those of each color are in one of them.
spec fn two_colored(clusters: Seq<Cluster>, ink: [u8; 3], ground: [u8; 3], homes: (int, int)) -> bool {
    &&& clusters.len() == 4
    &&& forall|i: int| 0 <= i < 4 ==> either((#[trigger] clusters[i]).color, ink, ground)
    &&& forall|i: int, k: int|
        0 <= i < 4 && 0 <= k < clusters[i].pixels.len() ==> (#[trigger] clusters[i].pixels[k]).color
            == clusters[i].color
    &&& forall|i: int|
        0 <= i < 4 && (#[trigger] clusters[i]).pixels.len() > 0 ==> (if clusters[i].color == ink {
            i == homes.0
        } else {
            i == homes.1
        })
    &&& 0 <= homes.0 < 4
    &&& clusters[homes.0].color == ink
    &&& clusters[homes.0].pixels.len() > 0
}

proof fn lemma_clusters_of_two(pixels: Seq<MaskPixel>, ink: [u8; 3], ground: [u8; 3], some: int) -> (
homes: (int, int))
    requires
        pixels.len() <= u32::MAX,
        forall|i: int|
            0 <= i < pixels.len() ==> (#[trigger] pixels[i]).color == ink || pixels[i].color
                == ground,
        0 <= some < pixels.len(),
        pixels[some].color == ink,
        palette_key(ink) != palette_key(ground),
    ensures
        two_colored(clusters_of(pixels, ground), ink, ground, homes),
{
    assert forall|i: int| 0 <= i < pixels.len() implies either(
        (#[trigger] pixels[i]).color,
        ink,
        ground,
    ) by {}
    let centers = first_centers(pixels, ground);
    let at = lemma_first_centers(pixels, ink, ground, some);
    lemma_centers_rest(pixels, ink, ground, centers, at);
    assert(cluster_centers(pixels, ground) == centers) by {
        reveal_with_fuel(settled, 5);
    }
    let clusters = clusters_of(pixels, ground);
    assert forall|i: int, k: int| 0 <= i < 4 && 0 <= k < clusters[i].pixels.len() implies (
    #[trigger] clusters[i].pixels[k]).color == clusters[i].color by {
        let pixel = clusters[i].pixels[k];
        pixels.lemma_filter_pred(belongs(centers, i), k);
        assert(clusters[i].pixels.contains(pixel));
        pixels.lemma_filter_contains_rev(belongs(centers, i), pixel);
        let place = choose|place: int| 0 <= place < pixels.len() && pixels[place] == pixel;
        assert(either(pixels[place].color, ink, ground));
        lemma_nearest_is_same(
            pixel.color,
            centers,
            if pixel.color == ink {
                at
            } else {
                0
            },
        );
    }
    assert forall|i: int| 0 <= i < 4 implies either(
        (#[trigger] clusters[i]).color,
        ink,
        ground,
    ) by {
        assert(either(centers[i], ink, ground));
    }
    lemma_used_of_two(pixels, ink, ground, clusters, centers);
    let home = lemma_cluster_with(pixels, ground, some);
    lemma_nearest_is_same(ink, centers, at);
    (home, nearest(ground, centers))
}

/// Text without an outline has the color of the only cluster that has not the background's.
proof fn lemma_plain_of_two(
    clusters: Seq<Cluster>,
    ink: [u8; 3],
    ground: [u8; 3],
    home: int,
    away: int,
)
    requires
        two_colored(clusters, ink, ground, (home, away)),
        ink != ground,
    ensures
        plain_color(clusters, ground) == ink,
{
    let found = used_clusters(clusters);
    let place = lemma_is_used(clusters, home);
    let contrast = contrasts(clusters, found, ground);
    lemma_first_min(contrast);
    let least = first_min(contrast);
    let back = found[least];
    lemma_used(clusters, least);
    if found.len() > 1 {
        let inks = found.filter(other_than(back));
        assert(back != home) by {
            if back == home {
                let other = if place == 0 {
                    1int
                } else {
                    0int
                };
                lemma_used(clusters, other);
                lemma_found_once(clusters, place, other);
                let index = found[other];
                assert(clusters[index].pixels.len() > 0 && index != home);
                assert(either(clusters[index].color, ink, ground));
                lemma_distance(ground, ground);
                lemma_distance(ink, ground);
                assert(contrast[least] <= contrast[other]);
            }
        }
        found.lemma_filter_contains(other_than(back), place);
        assert(inks.contains(home));
        let scores = ink_scores(clusters, inks, ground);
        lemma_last_max(scores);
        let best = inks[last_max(scores)];
        assert(best == home) by {
            assert(inks.contains(best));
            found.lemma_filter_contains_rev(other_than(back), best);
            found.lemma_filter_pred(other_than(back), last_max(scores));
            let k = choose|k: int| 0 <= k < found.len() && found[k] == best;
            lemma_used(clusters, k);
            assert(clusters[best].pixels.len() > 0 && clusters[back].pixels.len() > 0);
        }
        lemma_some_of_one(clusters[home].pixels, masked(), ink);
        if clusters[home].pixels.filter(masked()).len() > 0 {
            lemma_median_of_one(clusters[home].pixels.filter(masked()), ink);
        }
        lemma_median_of_one(clusters[home].pixels, ink);
    }
}

/// Text of one color on a background of another has exactly that color, channel by channel, where
/// it is neither dark nor light. Dark text is black and light text white. Such text has no outline.
pub proof fn law_text_has_the_color_of_its_ink(
    pixels: Seq<MaskPixel>,
    ink: [u8; 3],
    ground: [u8; 3],
    width: int,
    height: int,
    some: int,
    channel: int,
)
    requires
        pixels.len() <= u32::MAX,
        forall|i: int|
            0 <= i < pixels.len() ==> (#[trigger] pixels[i]).color == ink || pixels[i].color
                == ground,
        0 <= some < pixels.len(),
        pixels[some].color == ink,
        0 <= channel < 3,
        ink@[channel] >= ground@[channel] + 16 || ground@[channel] >= ink@[channel] + 16,
    ensures
        ({
            let paint = text_paint_of(pixels, ground, width, height);
            let brightness = 54 * ink@[0] + 183 * ink@[1] + 19 * ink@[2];
            &&& paint.stroke_color is None
            &&& paint.stroke_width is None
            &&& 16384 < brightness < 48896 ==> paint.color == ink
            &&& brightness <= 16384 ==> paint.color@ == seq![0u8, 0u8, 0u8]
            &&& brightness >= 48896 ==> paint.color@ == seq![255u8, 255u8, 255u8]
        }),
{
    lemma_keys_differ(ink, ground, channel);
    let clusters = clusters_of(pixels, ground);
    let homes = lemma_clusters_of_two(pixels, ink, ground, some);
    lemma_no_outline(clusters, ink, ground, width, height, 16);
    lemma_plain_of_two(clusters, ink, ground, homes.0, homes.1);
    law_text_color_stays_or_becomes_plain(ink);
    assert(snapped(ink)@ == ink@ ==> snapped(ink) =~= ink);
}

/// Of the clusters of each color at most one is used.
proof fn lemma_used_of_two(
    pixels: Seq<MaskPixel>,
    ink: [u8; 3],
    ground: [u8; 3],
    clusters: Seq<Cluster>,
    centers: Seq<[u8; 3]>,
)
    requires
        clusters == clusters_of(pixels, ground),
        centers == cluster_centers(pixels, ground),
        centers.len() == 4,
        forall|i: int, k: int|
            0 <= i < 4 && 0 <= k < clusters[i].pixels.len() ==> (
            #[trigger] clusters[i].pixels[k]).color == clusters[i].color,
        forall|i: int| 0 <= i < 4 ==> either((#[trigger] clusters[i]).color, ink, ground),
    ensures
        forall|i: int|
            0 <= i < 4 && (#[trigger] clusters[i]).pixels.len() > 0 ==> (if clusters[i].color
                == ink {
                i == nearest(ink, centers)
            } else {
                i == nearest(ground, centers)
            }),
{
    assert forall|i: int|
        0 <= i < 4 && (#[trigger] clusters[i]).pixels.len() > 0 implies (if clusters[i].color
        == ink {
        i == nearest(ink, centers)
    } else {
        i == nearest(ground, centers)
    }) by {
        pixels.lemma_filter_pred(belongs(centers, i), 0);
        assert(clusters[i].pixels[0].color == clusters[i].color);
    }
}

/// No cluster is listed twice.
proof fn lemma_found_once(clusters: Seq<Cluster>, left: int, right: int)
    requires
        0 <= left < used_clusters(clusters).len(),
        0 <= right < used_clusters(clusters).len(),
        left != right,
    ensures
        used_clusters(clusters)[left] != used_clusters(clusters)[right],
{
    let all = Seq::new(clusters.len(), |i: int| i);
    let keep = |i: int| clusters[i].pixels.len() > 0;
    lemma_filter_distinct(all, keep);
}

proof fn lemma_filter_distinct(list: Seq<int>, keep: spec_fn(int) -> bool)
    requires
        list.no_duplicates(),
    ensures
        list.filter(keep).no_duplicates(),
    decreases list.len(),
{
    reveal(Seq::filter);
    if list.len() > 0 {
        let rest = list.drop_last();
        assert(rest.no_duplicates());
        lemma_filter_distinct(rest, keep);
        let shorter = rest.filter(keep);
        if shorter.contains(list.last()) {
            rest.lemma_filter_contains_rev(keep, list.last());
            let k = choose|k: int| 0 <= k < rest.len() && rest[k] == list.last();
            assert(list[k] == list[list.len() - 1]);
        }
        assert forall|i: int, j: int|
            0 <= i < list.filter(keep).len() && 0 <= j < list.filter(keep).len() && i
                != j implies list.filter(keep)[i] != list.filter(keep)[j] by {
            if i < shorter.len() && j < shorter.len() {
                assert(shorter[i] != shorter[j]);
            } else if i < shorter.len() {
                assert(shorter.contains(shorter[i]));
            } else if j < shorter.len() {
                assert(shorter.contains(shorter[j]));
            }
        }
    }
}

/// Every pixel is in exactly one cluster, and no other cluster has a color that is closer to its own.
pub proof fn law_pixels_join_the_closest_color(
    pixels: Seq<MaskPixel>,
    background: [u8; 3],
    cluster: int,
    other: int,
    index: int,
)
    requires
        0 <= cluster < 4,
        0 <= other < 4,
        0 <= index < pixels.len(),
        clusters_of(pixels, background)[cluster].pixels.contains(pixels[index]),
    ensures
        distance(pixels[index].color, clusters_of(pixels, background)[cluster].color) <= distance(
            pixels[index].color,
            clusters_of(pixels, background)[other].color,
        ),
        cluster != other ==> !clusters_of(pixels, background)[other].pixels.contains(
            pixels[index],
        ),
{
    let centers = cluster_centers(pixels, background);
    lemma_centers_len(pixels, background);
    let color = pixels[index].color;
    let keys = distances(color, centers);
    lemma_first_min(keys);
    let mine = clusters_of(pixels, background)[cluster].pixels;
    let k = choose|k: int| 0 <= k < mine.len() && mine[k] == pixels[index];
    pixels.lemma_filter_pred(belongs(centers, cluster), k);
    assert(keys[nearest(color, centers)] <= keys[other]);
    let theirs = clusters_of(pixels, background)[other].pixels;
    if theirs.contains(pixels[index]) {
        let l = choose|l: int| 0 <= l < theirs.len() && theirs[l] == pixels[index];
        pixels.lemma_filter_pred(belongs(centers, other), l);
    }
}

/// Every pixel is in some cluster.
pub proof fn law_no_pixel_is_lost(pixels: Seq<MaskPixel>, background: [u8; 3], index: int) -> (
cluster: int)
    requires
        0 <= index < pixels.len(),
    ensures
        0 <= cluster < 4,
        clusters_of(pixels, background)[cluster].pixels.contains(pixels[index]),
{
    lemma_cluster_with(pixels, background, index)
}

/// The darkest color of a palette is no lighter, and the lightest no darker, than that of any part
/// with four or more pixels.
pub proof fn law_extremes_are_extreme(palette: Seq<ColorBin>, at: int)
    requires
        0 <= at < palette.len(),
        palette[at].count >= 4,
    ensures
        luminance(extreme_of(palette, true)) <= luminance(palette[at].mean()),
        luminance(extreme_of(palette, false)) >= luminance(palette[at].mean()),
{
    let pool = palette.filter(significant());
    palette.lemma_filter_contains(significant(), at);
    let k = choose|k: int| 0 <= k < pool.len() && pool[k] == palette[at];
    let keys = luminances(pool);
    lemma_first_min(keys);
    lemma_last_max(keys);
    assert(keys[first_min(keys)] <= keys[k]);
    assert(keys[k] <= keys[last_max(keys)]);
}

} // verus!
