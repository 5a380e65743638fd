//! The palette of a region and its clusters of similar colors.

use vstd::prelude::*;

use crate::color::{
    color_distance_squared, color_luminance, colors_of, distance, luminance,
};
use crate::counting::sum;
use crate::extremum::{first_min, last_max, numbers, place_of_first_min, place_of_last_max};
use crate::pixel::MaskPixel;

verus! {

/// The number of pixels from which a color counts when the darkest and the lightest are sought.
pub const MIN_EXTREME_COLOR_PIXELS: u32 = 4;

/// The number of clusters that a region's colors are divided into.
pub const COLOR_CLUSTER_COUNT: usize = 4;

/// The colors of one part of the palette: how many there are, and their sums by channel.
#[derive(Clone, Copy, Debug)]
pub struct ColorBin {
    pub count: u32,
    pub sums: [u64; 3],
}

/// The sum of one channel of some colors.
pub open spec fn channel_sum(colors: Seq<[u8; 3]>, channel: int) -> nat {
    sum(colors.map_values(|color: [u8; 3]| color@[channel] as nat))
}

/// A mean, rounded to the nearest whole number.
pub open spec fn rounded_mean(total: int, count: int) -> u8 {
    ((total + count / 2) / count) as u8
}

/// The part of the palette that a color belongs to.
pub open spec fn palette_key(color: [u8; 3]) -> int {
    (color@[0] / 16) * 256 + (color@[1] / 16) * 16 + color@[2] / 16
}

pub open spec fn has_key(key: int) -> spec_fn([u8; 3]) -> bool {
    |color: [u8; 3]| palette_key(color) == key
}

impl ColorBin {
    /// The bin that holds the given colors.
    pub open spec fn holding(colors: Seq<[u8; 3]>) -> ColorBin {
        ColorBin {
            count: colors.len() as u32,
            sums: [
                channel_sum(colors, 0) as u64,
                channel_sum(colors, 1) as u64,
                channel_sum(colors, 2) as u64,
            ],
        }
    }

    /// The sums fit the number of colors.
    pub open spec fn valid(self) -> bool {
        forall|channel: int| 0 <= channel < 3 ==> #[trigger] self.sums@[channel] <= 255 * self.count
    }

    /// The mean color of the bin.
    pub open spec fn mean(self) -> [u8; 3] {
        [
            rounded_mean(self.sums@[0] as int, self.count as int),
            rounded_mean(self.sums@[1] as int, self.count as int),
            rounded_mean(self.sums@[2] as int, self.count as int),
        ]
    }

    fn add(&mut self, color: [u8; 3])
        requires
            old(self).valid(),
            old(self).count < u32::MAX,
        ensures
            final(self).valid(),
            final(self).count == old(self).count + 1,
            forall|channel: int|
                0 <= channel < 3 ==> #[trigger] final(self).sums@[channel] == old(
                    self,
                ).sums@[channel] + color@[channel],
    {
        assert(self.sums@[0] <= 255 * self.count);
        assert(self.sums@[1] <= 255 * self.count);
        assert(self.sums@[2] <= 255 * self.count);
        self.count = self.count + 1;
        self.sums = [
            self.sums[0] + color[0] as u64,
            self.sums[1] + color[1] as u64,
            self.sums[2] + color[2] as u64,
        ];
    }

    pub fn color(&self) -> (result: [u8; 3])
        requires
            self.count > 0,
            self.valid(),
        ensures
            result == self.mean(),
    {
        assert(self.sums@[0] <= 255 * self.count);
        assert(self.sums@[1] <= 255 * self.count);
        assert(self.sums@[2] <= 255 * self.count);
        let count: u64 = self.count as u64;
        [
            mean_channel(self.sums[0], count),
            mean_channel(self.sums[1], count),
            mean_channel(self.sums[2], count),
        ]
    }
}

fn mean_channel(total: u64, count: u64) -> (result: u8)
    requires
        count > 0,
        total <= 255 * count,
        count <= 0x1000_0000_0000,
    ensures
        result == rounded_mean(total as int, count as int),
        result == (total + count / 2) / count as int,
{
    let mean: u64 = (total + count / 2) / count;
    proof {
        assert(mean <= 255) by (nonlinear_arith)
            requires
                mean == (total + count / 2) / count as int,
                total <= 255 * count,
                count > 0,
        ;
    }
    mean as u8
}

/// The colors of some pixels that belong to one part of the palette.
pub open spec fn members(pixels: Seq<MaskPixel>, key: int) -> Seq<[u8; 3]> {
    colors_of(pixels).filter(has_key(key))
}

pub open spec fn used() -> spec_fn(ColorBin) -> bool {
    |bin: ColorBin| bin.count != 0
}

/// The parts of the palette, used or not.
pub open spec fn all_bins(pixels: Seq<MaskPixel>) -> Seq<ColorBin> {
    Seq::new(4096, |key: int| ColorBin::holding(members(pixels, key)))
}

/// The used parts of the palette.
pub open spec fn palette_of(pixels: Seq<MaskPixel>) -> Seq<ColorBin> {
    all_bins(pixels).filter(used())
}

/// Every bin of a palette is used and valid.
pub open spec fn valid_palette(palette: Seq<ColorBin>) -> bool {
    &&& palette.len() <= 4096
    &&& forall|i: int|
        0 <= i < palette.len() ==> (#[trigger] palette[i]).valid() && palette[i].count > 0
}

proof fn lemma_channel_sum_push(colors: Seq<[u8; 3]>, color: [u8; 3], channel: int)
    ensures
        channel_sum(colors.push(color), channel) == channel_sum(colors, channel) + color@[channel],
{
    let number = |color: [u8; 3]| color@[channel] as nat;
    assert(colors.push(color).map_values(number).drop_last() =~= colors.map_values(number));
}

/// The sums of colors are bounded by their number.
proof fn lemma_channel_sum_bound(colors: Seq<[u8; 3]>, channel: int)
    requires
        0 <= channel < 3,
    ensures
        channel_sum(colors, channel) <= 255 * colors.len(),
    decreases colors.len(),
{
    if colors.len() > 0 {
        lemma_channel_sum_bound(colors.drop_last(), channel);
        lemma_channel_sum_push(colors.drop_last(), colors.last(), channel);
        assert(colors.drop_last().push(colors.last()) =~= colors);
    }
}

/// The bin that holds some colors says how many there are and what they sum to.
pub proof fn lemma_holding(colors: Seq<[u8; 3]>)
    requires
        colors.len() <= u32::MAX,
    ensures
        ColorBin::holding(colors).count == colors.len(),
        ColorBin::holding(colors).valid(),
        forall|channel: int|
            0 <= channel < 3 ==> #[trigger] ColorBin::holding(colors).sums@[channel] == channel_sum(
                colors,
                channel,
            ),
{
    lemma_channel_sum_bound(colors, 0);
    lemma_channel_sum_bound(colors, 1);
    lemma_channel_sum_bound(colors, 2);
}

pub proof fn lemma_filter_len(colors: Seq<[u8; 3]>, keep: spec_fn([u8; 3]) -> bool)
    ensures
        colors.filter(keep).len() <= colors.len(),
    decreases colors.len(),
{
    reveal(Seq::filter);
    if colors.len() > 0 {
        lemma_filter_len(colors.drop_last(), keep);
    }
}

/// The palette of some pixels: the parts of it that they use, in order.
pub fn color_palette(pixels: &Vec<MaskPixel>) -> (result: Vec<ColorBin>)
    requires
        pixels.len() <= u32::MAX,
    ensures
        result@ == palette_of(pixels@),
        valid_palette(result@),
        pixels.len() > 0 ==> result.len() > 0,
{
    let empty = ColorBin { count: 0, sums: [0, 0, 0] };
    let mut bins: Vec<ColorBin> = Vec::new();
    let mut filled: usize = 0;
    proof {
        assert(colors_of(pixels@.take(0)) =~= Seq::empty());
    }
    while filled < 4096
        invariant
            filled <= 4096,
            bins.len() == filled,
            colors_of(pixels@.take(0)) == Seq::<[u8; 3]>::empty(),
            empty.count == 0,
            empty.sums@ == seq![0u64, 0u64, 0u64],
            forall|key: int|
                0 <= key < filled ==> #[trigger] bins@[key] == ColorBin::holding(
                    members(pixels@.take(0), key),
                ),
        decreases 4096 - filled,
    {
        proof {
            let none = members(pixels@.take(0), filled as int);
            lemma_filter_len(colors_of(pixels@.take(0)), has_key(filled as int));
            assert(none =~= Seq::empty());
            assert(ColorBin::holding(none).sums@ =~= empty.sums@);
            assert(ColorBin::holding(none).sums =~= empty.sums);
        }
        bins.push(empty);
        filled += 1;
    }
    let mut index: usize = 0;
    while index < pixels.len()
        invariant
            index <= pixels.len(),
            pixels.len() <= u32::MAX,
            bins.len() == 4096,
            forall|key: int|
                0 <= key < 4096 ==> #[trigger] bins@[key] == ColorBin::holding(
                    members(pixels@.take(index as int), key),
                ),
        decreases pixels.len() - index,
    {
        let color = pixels[index].color;
        let key: usize = (color[0] as usize / 16) * 256 + (color[1] as usize / 16) * 16
            + color[2] as usize / 16;
        let mut bin = bins[key];
        let ghost before = pixels@.take(index as int);
        let ghost after = pixels@.take(index as int + 1);
        proof {
            lemma_filter_len(colors_of(before), has_key(key as int));
            lemma_holding(members(before, key as int));
            assert(colors_of(after).drop_last() =~= colors_of(before));
            assert(colors_of(after).last() == color);
            reveal(Seq::filter);
        }
        bin.add(color);
        proof {
            let larger = members(after, key as int);
            assert(larger =~= members(before, key as int).push(color));
            lemma_filter_len(colors_of(after), has_key(key as int));
            lemma_holding(larger);
            lemma_channel_sum_push(members(before, key as int), color, 0);
            lemma_channel_sum_push(members(before, key as int), color, 1);
            lemma_channel_sum_push(members(before, key as int), color, 2);
            assert(bin.sums@ =~= ColorBin::holding(larger).sums@);
            assert(bin.sums =~= ColorBin::holding(larger).sums);
            assert forall|other: int| 0 <= other < 4096 && other != key implies #[trigger] members(
                after,
                other,
            ) == members(before, other) by {}
        }
        bins.set(key, bin);
        index += 1;
    }
    proof {
        assert(pixels@.take(index as int) =~= pixels@);
        assert(bins@ =~= all_bins(pixels@));
    }
    let mut result: Vec<ColorBin> = Vec::new();
    let mut place: usize = 0;
    let ghost mut seen: int = -1;
    proof {
        if pixels.len() > 0 {
            seen = palette_key(pixels@[0].color);
        }
    }
    while place < bins.len()
        invariant
            place <= bins.len(),
            bins.len() == 4096,
            bins@ == all_bins(pixels@),
            pixels.len() <= u32::MAX,
            result@ == bins@.take(place as int).filter(used()),
            result.len() <= place,
            pixels.len() > 0 ==> seen == palette_key(pixels@[0].color) && 0 <= seen < 4096,
            pixels.len() > 0 && seen < place ==> result.len() > 0,
            forall|i: int|
                0 <= i < result.len() ==> (#[trigger] result@[i]).valid() && result@[i].count > 0,
        decreases bins.len() - place,
    {
        let bin = bins[place];
        proof {
            let next = bins@.take(place as int + 1);
            assert(next.drop_last() =~= bins@.take(place as int));
            reveal(Seq::filter);
            lemma_filter_len(colors_of(pixels@), has_key(place as int));
            lemma_holding(members(pixels@, place as int));
            if pixels.len() > 0 && seen == place {
                lemma_member(pixels@, 0);
            }
        }
        if bin.count != 0 {
            result.push(bin);
        }
        place += 1;
    }
    proof {
        assert(bins@.take(place as int) =~= bins@);
    }
    result
}

/// The color of each pixel belongs to the part of the palette of its key.
pub proof fn lemma_member(pixels: Seq<MaskPixel>, index: int)
    requires
        0 <= index < pixels.len(),
    ensures
        members(pixels, palette_key(pixels[index].color)).len() > 0,
    decreases pixels.len(),
{
    reveal(Seq::filter);
    assert(colors_of(pixels).drop_last() =~= colors_of(pixels.drop_last()));
    if index < pixels.len() - 1 {
        lemma_member(pixels.drop_last(), index);
    } else {
        assert(colors_of(pixels).last() == pixels[index].color);
    }
}

pub open spec fn significant() -> spec_fn(ColorBin) -> bool {
    |bin: ColorBin| bin.count >= MIN_EXTREME_COLOR_PIXELS
}

pub open spec fn luminances(palette: Seq<ColorBin>) -> Seq<int> {
    palette.map_values(|bin: ColorBin| luminance(bin.mean()))
}

/// The darkest or the lightest color of a palette, black where it is empty. Colors of few
/// pixels count only where there is no other; of equally dark colors the first is taken,
/// of equally light ones the last.
pub open spec fn extreme_of(palette: Seq<ColorBin>, darkest: bool) -> [u8; 3] {
    let pool = if palette.filter(significant()).len() > 0 {
        palette.filter(significant())
    } else {
        palette
    };
    if pool.len() == 0 {
        [0u8, 0u8, 0u8]
    } else if darkest {
        pool[first_min(luminances(pool))].mean()
    } else {
        pool[last_max(luminances(pool))].mean()
    }
}

fn extreme_bin(palette: &Vec<ColorBin>, darkest: bool) -> (result: [u8; 3])
    requires
        palette.len() > 0,
        valid_palette(palette@),
    ensures
        result == (if darkest {
            palette@[first_min(luminances(palette@))].mean()
        } else {
            palette@[last_max(luminances(palette@))].mean()
        }),
{
    let mut keys: Vec<u64> = Vec::new();
    let mut index: usize = 0;
    while index < palette.len()
        invariant
            index <= palette.len(),
            valid_palette(palette@),
            keys.len() == index,
            forall|i: int| 0 <= i < index ==> #[trigger] keys@[i] == luminances(palette@)[i],
        decreases palette.len() - index,
    {
        assert(palette@[index as int].valid());
        let brightness: u32 = color_luminance(palette[index].color());
        keys.push(brightness as u64);
        index += 1;
    }
    proof {
        assert(numbers(keys@) =~= luminances(palette@));
    }
    let place: usize = if darkest {
        place_of_first_min(&keys)
    } else {
        place_of_last_max(&keys)
    };
    assert(palette@[place as int].valid());
    palette[place].color()
}

/// The darkest or the lightest color of a palette.
pub fn extreme_palette_color(palette: &Vec<ColorBin>, darkest: bool) -> (result: [u8; 3])
    requires
        valid_palette(palette@),
    ensures
        result == extreme_of(palette@, darkest),
{
    let mut common: Vec<ColorBin> = Vec::new();
    let mut index: usize = 0;
    while index < palette.len()
        invariant
            index <= palette.len(),
            valid_palette(palette@),
            common@ == palette@.take(index as int).filter(significant()),
            common.len() <= index,
            forall|i: int|
                0 <= i < common.len() ==> (#[trigger] common@[i]).valid() && common@[i].count > 0,
        decreases palette.len() - index,
    {
        let bin = palette[index];
        proof {
            let next = palette@.take(index as int + 1);
            assert(next.drop_last() =~= palette@.take(index as int));
            reveal(Seq::filter);
            assert(palette@[index as int].valid());
        }
        if bin.count >= MIN_EXTREME_COLOR_PIXELS {
            common.push(bin);
        }
        index += 1;
    }
    proof {
        assert(palette@.take(index as int) =~= palette@);
    }
    if common.len() > 0 {
        extreme_bin(&common, darkest)
    } else if palette.len() > 0 {
        extreme_bin(palette, darkest)
    } else {
        [0, 0, 0]
    }
}

/// The distances of a color to some others.
pub open spec fn distances(color: [u8; 3], centers: Seq<[u8; 3]>) -> Seq<int> {
    centers.map_values(|center: [u8; 3]| distance(color, center))
}

/// The distance of a color to the closest of some others, zero where there is none.
pub open spec fn closest_distance(color: [u8; 3], centers: Seq<[u8; 3]>) -> int {
    if centers.len() == 0 {
        0
    } else {
        distances(color, centers)[first_min(distances(color, centers))]
    }
}

/// The center that a color is closest to, the first of several.
pub open spec fn nearest(color: [u8; 3], centers: Seq<[u8; 3]>) -> int {
    first_min(distances(color, centers))
}

/// The center that a color is closest to.
pub fn nearest_center(color: [u8; 3], centers: &Vec<[u8; 3]>) -> (result: usize)
    requires
        centers.len() > 0,
    ensures
        result == nearest(color, centers@),
        result < centers.len(),
{
    let mut keys: Vec<u64> = Vec::new();
    let mut index: usize = 0;
    while index < centers.len()
        invariant
            index <= centers.len(),
            keys.len() == index,
            forall|i: int| 0 <= i < index ==> #[trigger] keys@[i] == distances(color, centers@)[i],
        decreases centers.len() - index,
    {
        let gap: u32 = color_distance_squared(color, centers[index]);
        keys.push(gap as u64);
        index += 1;
    }
    proof {
        assert(numbers(keys@) =~= distances(color, centers@));
    }
    place_of_first_min(&keys)
}

/// The distance of a color to the closest of some others.
pub fn minimum_color_distance(color: [u8; 3], centers: &Vec<[u8; 3]>) -> (result: u32)
    ensures
        result == closest_distance(color, centers@),
        result <= 195075,
{
    if centers.len() == 0 {
        return 0;
    }
    let place: usize = nearest_center(color, centers);
    color_distance_squared(color, centers[place])
}

/// How far a bin's color is from every center, weighted by its pixels.
pub open spec fn remoteness(palette: Seq<ColorBin>, centers: Seq<[u8; 3]>) -> Seq<int> {
    palette.map_values(
        |bin: ColorBin|
            closest_distance(bin.mean(), centers) * (if bin.count < 64 {
                bin.count as int
            } else {
                64
            }),
    )
}

/// The color of a palette that is most remote from the centers, the last of several, black
/// where the palette is empty.
pub open spec fn distant_of(palette: Seq<ColorBin>, centers: Seq<[u8; 3]>) -> [u8; 3] {
    if palette.len() == 0 {
        [0u8, 0u8, 0u8]
    } else {
        palette[last_max(remoteness(palette, centers))].mean()
    }
}

/// The color of a palette that is most remote from the centers.
pub fn distant_palette_color(palette: &Vec<ColorBin>, centers: &Vec<[u8; 3]>) -> (result: [u8; 3])
    requires
        valid_palette(palette@),
    ensures
        result == distant_of(palette@, centers@),
{
    if palette.len() == 0 {
        return [0, 0, 0];
    }
    let mut keys: Vec<u64> = Vec::new();
    let mut index: usize = 0;
    while index < palette.len()
        invariant
            index <= palette.len(),
            valid_palette(palette@),
            keys.len() == index,
            forall|i: int|
                0 <= i < index ==> #[trigger] keys@[i] == remoteness(palette@, centers@)[i],
        decreases palette.len() - index,
    {
        let bin = palette[index];
        assert(palette@[index as int].valid());
        let gap: u32 = minimum_color_distance(bin.color(), centers);
        let weight: u32 = if bin.count < 64 {
            bin.count
        } else {
            64
        };
        proof {
            assert(gap * weight <= 195075 * 64) by (nonlinear_arith)
                requires
                    gap <= 195075,
                    weight <= 64,
            ;
        }
        keys.push(gap as u64 * weight as u64);
        index += 1;
    }
    proof {
        assert(numbers(keys@) =~= remoteness(palette@, centers@));
    }
    let place: usize = place_of_last_max(&keys);
    assert(palette@[place as int].valid());
    palette[place].color()
}

pub open spec fn closest_to(centers: Seq<[u8; 3]>, index: int) -> spec_fn(ColorBin) -> bool {
    |bin: ColorBin| nearest(bin.mean(), centers) == index
}

/// The bins whose color is closest to one center.
pub open spec fn share(palette: Seq<ColorBin>, centers: Seq<[u8; 3]>, index: int) -> Seq<ColorBin> {
    palette.filter(closest_to(centers, index))
}

pub open spec fn pixels_in(bins: Seq<ColorBin>) -> nat {
    sum(bins.map_values(|bin: ColorBin| bin.count as nat))
}

pub open spec fn sums_in(bins: Seq<ColorBin>, channel: int) -> nat {
    sum(bins.map_values(|bin: ColorBin| bin.sums@[channel] as nat))
}

/// The mean color of all pixels of some bins.
pub open spec fn mean_of(bins: Seq<ColorBin>) -> [u8; 3] {
    [
        rounded_mean(sums_in(bins, 0) as int, pixels_in(bins) as int),
        rounded_mean(sums_in(bins, 1) as int, pixels_in(bins) as int),
        rounded_mean(sums_in(bins, 2) as int, pixels_in(bins) as int),
    ]
}

/// Each center moved to the mean of what is closest to it, if anything is.
pub open spec fn recentered(palette: Seq<ColorBin>, centers: Seq<[u8; 3]>) -> Seq<[u8; 3]> {
    Seq::new(
        centers.len(),
        |i: int|
            if pixels_in(share(palette, centers, i)) == 0 {
                centers[i]
            } else {
                mean_of(share(palette, centers, i))
            },
    )
}

/// The centers after some rounds of moving them.
pub open spec fn settled(palette: Seq<ColorBin>, centers: Seq<[u8; 3]>, rounds: nat) -> Seq<
    [u8; 3],
>
    decreases rounds,
{
    if rounds == 0 {
        centers
    } else {
        recentered(palette, settled(palette, centers, (rounds - 1) as nat))
    }
}

/// The sums of the bins of one cluster.
#[derive(Clone, Copy)]
struct ColorAccumulator {
    count: u64,
    sums: [u64; 3],
}

impl ColorAccumulator {
    spec fn holds(self, bins: Seq<ColorBin>) -> bool {
        &&& self.count == pixels_in(bins)
        &&& forall|channel: int|
            0 <= channel < 3 ==> #[trigger] self.sums@[channel] == sums_in(bins, channel)
    }

    fn add(&mut self, bin: &ColorBin, Ghost(bins): Ghost<Seq<ColorBin>>)
        requires
            old(self).holds(bins),
            valid_palette(bins),
            valid_palette(bins.push(*bin)),
        ensures
            final(self).holds(bins.push(*bin)),
    {
        proof {
            lemma_bin_sums(bins);
            lemma_bin_sums(bins.push(*bin));
            lemma_bin_push(bins, *bin);
            assert(bins.push(*bin)[bins.len() as int].valid());
            assert(self.sums@[0] == sums_in(bins, 0));
            assert(self.sums@[1] == sums_in(bins, 1));
            assert(self.sums@[2] == sums_in(bins, 2));
        }
        self.count = self.count + bin.count as u64;
        self.sums = [
            self.sums[0] + bin.sums[0],
            self.sums[1] + bin.sums[1],
            self.sums[2] + bin.sums[2],
        ];
    }

    fn color(&self, Ghost(bins): Ghost<Seq<ColorBin>>) -> (result: Option<[u8; 3]>)
        requires
            self.holds(bins),
            valid_palette(bins),
        ensures
            match result {
                Some(color) => pixels_in(bins) != 0 && color == mean_of(bins),
                None => pixels_in(bins) == 0,
            },
    {
        if self.count == 0 {
            return None;
        }
        proof {
            lemma_bin_sums(bins);
            assert(self.sums@[0] == sums_in(bins, 0));
            assert(self.sums@[1] == sums_in(bins, 1));
            assert(self.sums@[2] == sums_in(bins, 2));
        }
        Some(
            [
                mean_channel(self.sums[0], self.count),
                mean_channel(self.sums[1], self.count),
                mean_channel(self.sums[2], self.count),
            ],
        )
    }
}

pub proof fn lemma_bin_push(bins: Seq<ColorBin>, bin: ColorBin)
    ensures
        pixels_in(bins.push(bin)) == pixels_in(bins) + bin.count,
        forall|channel: int| #[trigger]
            sums_in(bins.push(bin), channel) == sums_in(bins, channel) + bin.sums@[channel],
{
    let number = |bin: ColorBin| bin.count as nat;
    assert(bins.push(bin).map_values(number).drop_last() =~= bins.map_values(number));
    assert forall|channel: int| #[trigger]
        sums_in(bins.push(bin), channel) == sums_in(bins, channel) + bin.sums@[channel] by {
        let channel_number = |bin: ColorBin| bin.sums@[channel] as nat;
        assert(bins.push(bin).map_values(channel_number).drop_last() =~= bins.map_values(
            channel_number,
        ));
    }
}

/// What the bins of a palette sum to fits a machine word.
proof fn lemma_bin_sums(bins: Seq<ColorBin>)
    requires
        valid_palette(bins),
    ensures
        pixels_in(bins) <= 0xffff_ffff * bins.len(),
        forall|channel: int|
            0 <= channel < 3 ==> #[trigger] sums_in(bins, channel) <= 255 * pixels_in(bins),
    decreases bins.len(),
{
    if bins.len() > 0 {
        let rest = bins.drop_last();
        assert forall|i: int| 0 <= i < rest.len() implies (#[trigger] rest[i]).valid()
            && rest[i].count > 0 by {
            assert(rest[i] == bins[i]);
            assert(bins[i].valid());
        }
        lemma_bin_sums(rest);
        lemma_bin_push(rest, bins.last());
        assert(rest.push(bins.last()) =~= bins);
        assert(bins[bins.len() - 1].valid());
    }
}

/// Moves each center to the mean of what is closest to it.
fn recenter(palette: &Vec<ColorBin>, centers: &Vec<[u8; 3]>) -> (result: Vec<[u8; 3]>)
    requires
        valid_palette(palette@),
        centers.len() > 0,
    ensures
        result@ == recentered(palette@, centers@),
{
    let mut result: Vec<[u8; 3]> = Vec::new();
    let mut center: usize = 0;
    while center < centers.len()
        invariant
            center <= centers.len(),
            valid_palette(palette@),
            centers.len() > 0,
            result.len() == center,
            forall|i: int|
                0 <= i < center ==> #[trigger] result@[i] == recentered(palette@, centers@)[i],
        decreases centers.len() - center,
    {
        let mut sums = ColorAccumulator { count: 0, sums: [0, 0, 0] };
        let ghost mut bins: Seq<ColorBin> = Seq::empty();
        let ghost keep = closest_to(centers@, center as int);
        let mut index: usize = 0;
        proof {
            assert(palette@.take(0).filter(keep) =~= Seq::empty()) by {
                reveal(Seq::filter);
            }
        }
        while index < palette.len()
            invariant
                index <= palette.len(),
                valid_palette(palette@),
                centers.len() > 0,
                keep == closest_to(centers@, center as int),
                bins == palette@.take(index as int).filter(keep),
                bins.len() <= index,
                valid_palette(bins),
                sums.holds(bins),
            decreases palette.len() - index,
        {
            let bin = palette[index];
            proof {
                let next = palette@.take(index as int + 1);
                assert(next.drop_last() =~= palette@.take(index as int));
                reveal(Seq::filter);
                assert(palette@[index as int].valid());
            }
            if nearest_center(bin.color(), centers) == center {
                proof {
                    assert forall|i: int| 0 <= i < bins.push(bin).len() implies (
                    #[trigger] bins.push(bin)[i]).valid() && bins.push(bin)[i].count > 0 by {
                        if i < bins.len() {
                            assert(bins[i].valid());
                        }
                    }
                }
                sums.add(&bin, Ghost(bins));
                proof {
                    bins = bins.push(bin);
                }
            }
            index += 1;
        }
        proof {
            assert(palette@.take(index as int) =~= palette@);
        }
        match sums.color(Ghost(bins)) {
            Some(color) => {
                result.push(color);
            },
            None => {
                result.push(centers[center]);
            },
        }
        center += 1;
    }
    proof {
        assert(result@ =~= recentered(palette@, centers@));
    }
    result
}

/// A cluster of similar colors, and the pixels that have them.
pub struct ColorCluster {
    pub color: [u8; 3],
    pub pixels: Vec<MaskPixel>,
}

/// The centers of the clusters of some pixels.
pub open spec fn cluster_centers(pixels: Seq<MaskPixel>, background: [u8; 3]) -> Seq<[u8; 3]> {
    let palette = palette_of(pixels);
    let darkest = extreme_of(palette, true);
    let lightest = extreme_of(palette, false);
    let distant = distant_of(palette, seq![background, darkest, lightest]);
    settled(palette, seq![background, darkest, lightest, distant], 4)
}

/// There are four centers.
pub proof fn lemma_centers_len(pixels: Seq<MaskPixel>, background: [u8; 3])
    ensures
        cluster_centers(pixels, background).len() == COLOR_CLUSTER_COUNT,
{
    reveal_with_fuel(settled, 5);
}

pub open spec fn belongs(centers: Seq<[u8; 3]>, index: int) -> spec_fn(MaskPixel) -> bool {
    |pixel: MaskPixel| nearest(pixel.color, centers) == index
}

/// A cluster of similar colors, as a mathematical value.
#[verifier::ext_equal]
pub struct Cluster {
    pub color: [u8; 3],
    pub pixels: Seq<MaskPixel>,
}

impl View for ColorCluster {
    type V = Cluster;

    open spec fn view(&self) -> Cluster {
        Cluster { color: self.color, pixels: self.pixels@ }
    }
}

pub open spec fn views(clusters: Seq<ColorCluster>) -> Seq<Cluster> {
    clusters.map_values(|cluster: ColorCluster| cluster@)
}

/// The clusters divide the pixels by the center that their color is closest to.
pub open spec fn clusters_of(pixels: Seq<MaskPixel>, background: [u8; 3]) -> Seq<Cluster> {
    let centers = cluster_centers(pixels, background);
    Seq::new(
        COLOR_CLUSTER_COUNT as nat,
        |i: int| (Cluster { color: centers[i], pixels: pixels.filter(belongs(centers, i)) }),
    )
}

/// Divides pixels into clusters of similar colors.
pub fn color_clusters(pixels: &Vec<MaskPixel>, background: [u8; 3]) -> (result: Vec<ColorCluster>)
    requires
        pixels.len() <= u32::MAX,
    ensures
        views(result@) == clusters_of(pixels@, background),
{
    let palette = color_palette(pixels);
    let darkest = extreme_palette_color(&palette, true);
    let lightest = extreme_palette_color(&palette, false);
    let anchors: Vec<[u8; 3]> = vec![background, darkest, lightest];
    assert(anchors@ =~= seq![background, darkest, lightest]);
    let distant = distant_palette_color(&palette, &anchors);
    let mut centers: Vec<[u8; 3]> = vec![background, darkest, lightest, distant];
    let ghost first = centers@;
    assert(first =~= seq![background, darkest, lightest, distant]);
    let mut round: usize = 0;
    while round < 4
        invariant
            round <= 4,
            valid_palette(palette@),
            centers.len() == 4,
            centers@ == settled(palette@, first, round as nat),
        decreases 4 - round,
    {
        centers = recenter(&palette, &centers);
        round += 1;
    }
    assert(centers@ == cluster_centers(pixels@, background));
    let mut result: Vec<ColorCluster> = Vec::new();
    let mut center: usize = 0;
    while center < centers.len()
        invariant
            center <= centers.len(),
            centers.len() == 4,
            result.len() == center,
            forall|i: int|
                0 <= i < center ==> (#[trigger] result@[i]).color == centers@[i]
                    && result@[i].pixels@ == pixels@.filter(belongs(centers@, i)),
        decreases centers.len() - center,
    {
        let mut group: Vec<MaskPixel> = Vec::new();
        let mut index: usize = 0;
        while index < pixels.len()
            invariant
                index <= pixels.len(),
                centers.len() == 4,
                group@ == pixels@.take(index as int).filter(belongs(centers@, center as int)),
            decreases pixels.len() - index,
        {
            let pixel = pixels[index];
            proof {
                let next = pixels@.take(index as int + 1);
                assert(next.drop_last() =~= pixels@.take(index as int));
                reveal(Seq::filter);
            }
            if nearest_center(pixel.color, &centers) == center {
                group.push(pixel);
            }
            index += 1;
        }
        proof {
            assert(pixels@.take(index as int) =~= pixels@);
        }
        result.push(ColorCluster { color: centers[center], pixels: group });
        center += 1;
    }
    proof {
        assert(views(result@) =~= clusters_of(pixels@, background));
    }
    result
}

} // verus!
