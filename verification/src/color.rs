//! Colors: distances, brightness and medians.

use vstd::prelude::*;

use crate::counting::count;
use crate::pixel::MaskPixel;

verus! {

/// The luminance up to which a color counts as black.
pub const COLOR_SNAP_DARK_LUMINANCE: u32 = 16384;

/// The luminance from which a color counts as white.
pub const COLOR_SNAP_LIGHT_LUMINANCE: u32 = 48896;

/// The square of a number.
pub open spec fn square(value: int) -> int {
    value * value
}

/// The squared distance of two colors.
pub open spec fn distance(left: [u8; 3], right: [u8; 3]) -> int {
    square(left@[0] - right@[0]) + square(left@[1] - right@[1]) + square(left@[2] - right@[2])
}

/// The brightness of a color, weighted by channel.
pub open spec fn luminance(color: [u8; 3]) -> int {
    color@[0] * 54 + color@[1] * 183 + color@[2] * 19
}

/// A color close to black becomes black, one close to white becomes white.
pub open spec fn snapped(color: [u8; 3]) -> [u8; 3] {
    if luminance(color) <= COLOR_SNAP_DARK_LUMINANCE {
        [0u8, 0u8, 0u8]
    } else if luminance(color) >= COLOR_SNAP_LIGHT_LUMINANCE {
        [255u8, 255u8, 255u8]
    } else {
        color
    }
}

fn channel_distance(left: u8, right: u8) -> (result: u32)
    ensures
        result == square(left - right),
        result <= 65025,
{
    let difference: u32 = if left >= right {
        (left - right) as u32
    } else {
        (right - left) as u32
    };
    proof {
        assert(difference * difference <= 65025) by (nonlinear_arith)
            requires
                difference <= 255,
        ;
        assert(square(left - right) == difference * difference) by (nonlinear_arith)
            requires
                difference == left - right || difference == right - left,
                square(left - right) == (left - right) * (left - right),
        ;
    }
    difference * difference
}

pub fn color_distance_squared(left: [u8; 3], right: [u8; 3]) -> (result: u32)
    ensures
        result == distance(left, right),
        result <= 195075,
{
    channel_distance(left[0], right[0]) + channel_distance(left[1], right[1]) + channel_distance(
        left[2],
        right[2],
    )
}

pub fn color_luminance(color: [u8; 3]) -> (result: u32)
    ensures
        result == luminance(color),
        result <= 65280,
{
    color[0] as u32 * 54 + color[1] as u32 * 183 + color[2] as u32 * 19
}

/// The color of text stays as it is, channel by channel, where it is neither dark nor light. A
/// dark one becomes black and a light one white, and there is no other color that it can become.
pub proof fn law_text_color_stays_or_becomes_plain(color: [u8; 3])
    ensures
        16384 < 54 * color@[0] + 183 * color@[1] + 19 * color@[2] < 48896 ==> snapped(color)@[0]
            == color@[0] && snapped(color)@[1] == color@[1] && snapped(color)@[2] == color@[2],
        54 * color@[0] + 183 * color@[1] + 19 * color@[2] <= 16384 ==> snapped(color)@ == seq![
            0u8,
            0u8,
            0u8,
        ],
        48896 <= 54 * color@[0] + 183 * color@[1] + 19 * color@[2] ==> snapped(color)@ == seq![
            255u8,
            255u8,
            255u8,
        ],
        snapped(snapped(color)) == snapped(color),
{
}

pub fn normalize_text_color(color: [u8; 3]) -> (result: [u8; 3])
    ensures
        result == snapped(color),
        result == [0u8, 0u8, 0u8] || result == [255u8, 255u8, 255u8] || result == color,
        16384 < 54 * color@[0] + 183 * color@[1] + 19 * color@[2] < 48896 ==> result == color,
        54 * color@[0] + 183 * color@[1] + 19 * color@[2] <= 16384 ==> result == [0u8, 0u8, 0u8],
        48896 <= 54 * color@[0] + 183 * color@[1] + 19 * color@[2] ==> result == [
            255u8,
            255u8,
            255u8,
        ],
{
    let luminance: u32 = color_luminance(color);
    if luminance <= COLOR_SNAP_DARK_LUMINANCE {
        [0, 0, 0]
    } else if luminance >= COLOR_SNAP_LIGHT_LUMINANCE {
        [255, 255, 255]
    } else {
        color
    }
}

/// Tests whether two colors are the same.
pub fn same_color(left: [u8; 3], right: [u8; 3]) -> (result: bool)
    ensures
        result == (left == right),
{
    let result = left[0] == right[0] && left[1] == right[1] && left[2] == right[2];
    proof {
        if result {
            assert(left@ =~= right@);
            assert(left =~= right);
        }
    }
    result
}

/// The inner product of the differences of two colors to a third.
pub open spec fn product(from: [u8; 3], left: [u8; 3], right: [u8; 3]) -> int {
    (left@[0] - from@[0]) * (right@[0] - from@[0]) + (left@[1] - from@[1]) * (right@[1] - from@[1])
        + (left@[2] - from@[2]) * (right@[2] - from@[2])
}

/// The candidate lies on or close to the segment between two different colors: its foot on
/// their line is between them, and its squared distance from that foot is at most
/// three times the square of 24.
pub open spec fn between(candidate: [u8; 3], start: [u8; 3], end: [u8; 3]) -> bool {
    let length = distance(end, start);
    let along = product(start, candidate, end);
    &&& length != 0
    &&& 0 <= along <= length
    &&& distance(candidate, start) * length - along * along <= 1728 * length
}

pub fn color_lies_between(candidate: [u8; 3], start: [u8; 3], end: [u8; 3]) -> (result: bool)
    ensures
        result == between(candidate, start, end),
{
    let length: i64 = color_distance_squared(end, start) as i64;
    if length == 0 {
        return false;
    }
    let mut along: i64 = 0;
    let mut channel: usize = 0;
    while channel < 3
        invariant
            channel <= 3,
            channel == 0 ==> along == 0,
            channel == 1 ==> along == (candidate@[0] - start@[0]) * (end@[0] - start@[0]),
            channel == 2 ==> along == (candidate@[0] - start@[0]) * (end@[0] - start@[0]) + (
            candidate@[1] - start@[1]) * (end@[1] - start@[1]),
            channel == 3 ==> along == product(start, candidate, end),
            -65025 * channel <= along <= 65025 * channel,
        decreases 3 - channel,
    {
        let left: i64 = candidate[channel] as i64 - start[channel] as i64;
        let right: i64 = end[channel] as i64 - start[channel] as i64;
        proof {
            assert(-65025 <= left * right <= 65025) by (nonlinear_arith)
                requires
                    -255 <= left <= 255,
                    -255 <= right <= 255,
            ;
        }
        along = along + left * right;
        channel += 1;
    }
    if along < 0 || along > length {
        return false;
    }
    let reach: i64 = color_distance_squared(candidate, start) as i64;
    proof {
        assert(0 <= reach * length <= 195075 * 195075) by (nonlinear_arith)
            requires
                0 <= reach <= 195075,
                0 <= length <= 195075,
        ;
        assert(0 <= along * along <= 195075 * 195075) by (nonlinear_arith)
            requires
                0 <= along <= 195075,
        ;
    }
    reach * length - along * along <= 1728 * length
}

pub open spec fn less(bound: int) -> spec_fn(u8) -> bool {
    |value: u8| (value as int) < bound
}

pub open spec fn exactly(wanted: int) -> spec_fn(u8) -> bool {
    |value: u8| value as int == wanted
}

/// How many values are below a bound.
pub open spec fn below(values: Seq<u8>, bound: int) -> nat {
    count(values.map_values(less(bound)))
}

/// How many values equal a given one.
pub open spec fn equal(values: Seq<u8>, wanted: int) -> nat {
    count(values.map_values(exactly(wanted)))
}

/// In ascending order, `value` stands at place `rank`, counted from zero.
pub open spec fn at_rank(values: Seq<u8>, rank: int, value: u8) -> bool {
    below(values, value as int) <= rank < below(values, value + 1)
}

/// The value at place `rank` in ascending order.
pub open spec fn ranked(values: Seq<u8>, rank: int) -> u8 {
    choose|value: u8| at_rank(values, rank, value)
}

/// The middle value in ascending order, or the mean of the two middle ones, rounded down;
/// zero where there is none.
pub open spec fn median(values: Seq<u8>) -> u8 {
    if values.len() == 0 {
        0
    } else {
        ((ranked(values, (values.len() - 1) / 2) + ranked(values, values.len() as int / 2)) / 2)
            as u8
    }
}

proof fn lemma_below_step(values: Seq<u8>, bound: int)
    ensures
        below(values, bound + 1) == below(values, bound) + equal(values, bound),
    decreases values.len(),
{
    if values.len() > 0 {
        let rest = values.drop_last();
        lemma_below_step(rest, bound);
        lemma_count_drop_last(values, less(bound + 1));
        lemma_count_drop_last(values, less(bound));
        lemma_count_drop_last(values, exactly(bound));
    } else {
        assert(values.map_values(less(bound + 1)) =~= values.map_values(less(bound)));
        crate::counting::lemma_count_zero(values.map_values(exactly(bound)));
    }
}

/// A count over a sequence is the count over all but its last element, and that element.
proof fn lemma_count_drop_last(values: Seq<u8>, test: spec_fn(u8) -> bool)
    requires
        values.len() > 0,
    ensures
        count(values.map_values(test)) == count(values.drop_last().map_values(test)) + (if test(
            values.last(),
        ) {
            1nat
        } else {
            0
        }),
{
    let number = |flag: bool| if flag { 1nat } else { 0nat };
    let numbers = values.map_values(test).map_values(number);
    assert(numbers.drop_last() =~= values.drop_last().map_values(test).map_values(number));
}

proof fn lemma_below_bounds(values: Seq<u8>)
    ensures
        below(values, 0) == 0,
        below(values, 256) == values.len(),
{
    crate::counting::lemma_count_zero(values.map_values(less(0)));
    crate::counting::lemma_count_at_most(values.map_values(less(256)));
}

proof fn lemma_below_monotone(values: Seq<u8>, low: int, high: int)
    requires
        low <= high,
    ensures
        below(values, low) <= below(values, high),
    decreases high - low,
{
    if low < high {
        lemma_below_monotone(values, low, high - 1);
        lemma_below_step(values, high - 1);
    }
}

/// No two values stand at one place.
proof fn lemma_rank_unique(values: Seq<u8>, rank: int, left: u8, right: u8)
    requires
        at_rank(values, rank, left),
        at_rank(values, rank, right),
    ensures
        left == right,
{
    if left < right {
        lemma_below_monotone(values, left + 1, right as int);
    }
    if right < left {
        lemma_below_monotone(values, right + 1, left as int);
    }
}

/// The sum of the first `end` counts of a histogram.
pub open spec fn up_to(histogram: Seq<u32>, end: int) -> nat
    decreases end,
{
    if end <= 0 {
        0
    } else {
        up_to(histogram, end - 1) + histogram[end - 1] as nat
    }
}

/// The histogram counts the values.
pub open spec fn counts(histogram: Seq<u32>, values: Seq<u8>) -> bool {
    histogram.len() == 256 && forall|value: int|
        0 <= value < 256 ==> #[trigger] histogram[value] == equal(values, value)
}

proof fn lemma_up_to(histogram: Seq<u32>, values: Seq<u8>, end: int)
    requires
        counts(histogram, values),
        0 <= end <= 256,
    ensures
        up_to(histogram, end) == below(values, end),
    decreases end,
{
    lemma_below_bounds(values);
    if end > 0 {
        lemma_up_to(histogram, values, end - 1);
        lemma_below_step(values, end - 1);
    }
}

proof fn lemma_up_to_monotone(histogram: Seq<u32>, low: int, high: int)
    requires
        0 <= low <= high,
    ensures
        up_to(histogram, low) <= up_to(histogram, high),
    decreases high - low,
{
    if low < high {
        lemma_up_to_monotone(histogram, low, high - 1);
    }
}

/// Every place has a value.
proof fn lemma_rank_from(values: Seq<u8>, rank: int, from: int) -> (value: u8)
    requires
        0 <= from <= 255,
        below(values, from) <= rank < values.len(),
    ensures
        at_rank(values, rank, value),
    decreases 256 - from,
{
    if rank < below(values, from + 1) {
        from as u8
    } else {
        lemma_below_bounds(values);
        lemma_rank_from(values, rank, from + 1)
    }
}

proof fn lemma_ranked(values: Seq<u8>, rank: int)
    requires
        0 <= rank < values.len(),
    ensures
        at_rank(values, rank, ranked(values, rank)),
{
    lemma_below_bounds(values);
    let value = lemma_rank_from(values, rank, 0);
}

/// The value in the middle lies between the least and the greatest one. At most half of the values
/// lie below it, and at most half above.
pub proof fn law_median_lies_in_the_middle(values: Seq<u8>, low: int, high: int)
    requires
        values.len() > 0,
        forall|i: int| 0 <= i < values.len() ==> low <= #[trigger] values[i] <= high,
    ensures
        low <= median(values) <= high,
        2 * below(values, median(values) as int) <= values.len(),
        2 * (values.len() - below(values, median(values) + 1)) <= values.len(),
{
    let first = (values.len() - 1) / 2;
    let second = values.len() as int / 2;
    let left = ranked(values, first);
    let right = ranked(values, second);
    lemma_ranked(values, first);
    lemma_ranked(values, second);
    crate::counting::lemma_count_zero(values.map_values(less(low)));
    crate::counting::lemma_count_at_most(values.map_values(less(high + 1)));
    assert(below(values, low) == 0 && below(values, high + 1) == values.len());
    assert(low <= left && low <= right) by {
        if left < low {
            lemma_below_monotone(values, left + 1, low);
        }
        if right < low {
            lemma_below_monotone(values, right + 1, low);
        }
    }
    assert(left <= high && right <= high) by {
        if left > high {
            lemma_below_monotone(values, high + 1, left as int);
        }
        if right > high {
            lemma_below_monotone(values, high + 1, right as int);
        }
    }
    assert(left <= right) by {
        if right < left {
            lemma_below_monotone(values, right + 1, left as int);
        }
    }
    let middle = median(values);
    assert(middle == (left + right) / 2);
    lemma_below_monotone(values, middle as int, right as int);
    lemma_below_monotone(values, left + 1, middle + 1);
}

/// Where values are in ascending order, the one in the middle is the median or, where there are
/// two, their mean, rounded down.
pub proof fn law_median_of_ordered_values(values: Seq<u8>)
    requires
        values.len() > 0,
        forall|i: int, j: int| 0 <= i <= j < values.len() ==> values[i] <= values[j],
    ensures
        values.len() % 2 == 1 ==> median(values) == values[values.len() as int / 2],
        values.len() % 2 == 0 ==> median(values) == (values[values.len() as int / 2 - 1]
            + values[values.len() as int / 2]) / 2,
{
    let first = (values.len() - 1) / 2;
    let second = values.len() as int / 2;
    lemma_ordered_rank(values, first);
    lemma_ordered_rank(values, second);
}

proof fn lemma_ordered_rank(values: Seq<u8>, rank: int)
    requires
        0 <= rank < values.len(),
        forall|i: int, j: int| 0 <= i <= j < values.len() ==> values[i] <= values[j],
    ensures
        ranked(values, rank) == values[rank],
{
    let value = values[rank];
    lemma_ordered_below(values, value as int, rank);
    lemma_ordered_above(values, value + 1, rank + 1);
    lemma_ranked(values, rank);
    lemma_rank_unique(values, rank, value, ranked(values, rank));
}

/// From a place on no value is below the bound, so no more values are than stand before.
proof fn lemma_ordered_below(values: Seq<u8>, bound: int, place: int)
    requires
        0 <= place <= values.len(),
        forall|i: int| place <= i < values.len() ==> bound <= #[trigger] values[i],
    ensures
        below(values, bound) <= place,
    decreases values.len(),
{
    if values.len() > place {
        let rest = values.drop_last();
        assert forall|i: int| place <= i < rest.len() implies bound <= #[trigger] rest[i] by {
            assert(rest[i] == values[i]);
        }
        lemma_count_drop_last(values, less(bound));
        assert(values[values.len() - 1] >= bound);
        lemma_ordered_below(rest, bound, place);
    } else {
        crate::counting::lemma_count_at_most(values.map_values(less(bound)));
    }
}

/// Up to a place every value is below the bound, so no fewer values are.
proof fn lemma_ordered_above(values: Seq<u8>, bound: int, place: int)
    requires
        0 <= place <= values.len(),
        forall|i: int, j: int| 0 <= i <= j < values.len() ==> values[i] <= values[j],
        place > 0 ==> values[place - 1] < bound,
    ensures
        below(values, bound) >= place,
    decreases values.len(),
{
    if values.len() > place {
        let rest = values.drop_last();
        lemma_count_drop_last(values, less(bound));
        lemma_ordered_above(rest, bound, place);
    } else {
        assert forall|i: int| 0 <= i < values.len() implies values[i] < bound by {
            assert(values[i] <= values[place - 1]);
        }
        crate::counting::lemma_count_at_most(values.map_values(less(bound)));
    }
}

/// The values of a histogram, put in order, have a value at a rank. Behind the last one stands the
/// greatest that there can be.
pub open spec fn stands_at(histogram: Seq<u32>, rank: int, value: u8) -> bool {
    if rank < up_to(histogram, 256) {
        up_to(histogram, value as int) <= rank < up_to(histogram, value + 1)
    } else {
        value == 255
    }
}

/// The value at a place of the values that a histogram counts, the greatest one where it
/// counts fewer.
pub fn histogram_value_at(histogram: &Vec<u32>, rank: usize) -> (result: u8)
    requires
        histogram.len() == 256,
    ensures
        stands_at(histogram@, rank as int, result),
{
    let mut left: usize = rank;
    let mut value: usize = 0;
    while value < 256
        invariant
            value <= 256,
            histogram.len() == 256,
            rank == left + up_to(histogram@, value as int),
        decreases 256 - value,
    {
        let found: usize = histogram[value] as usize;
        if left < found {
            proof {
                lemma_up_to_monotone(histogram@, value as int + 1, 256);
            }
            return value as u8;
        }
        left = left - found;
        value += 1;
    }
    255
}

/// The median of `count` values that a histogram counts.
pub fn histogram_median(histogram: &Vec<u32>, count: usize) -> (result: u8)
    requires
        histogram.len() == 256,
    ensures
        count == 0 ==> result == 0,
        count > 0 ==> exists|lower: u8, upper: u8|
            #[trigger] stands_at(histogram@, (count - 1) / 2, lower) && #[trigger] stands_at(
                histogram@,
                count as int / 2,
                upper,
            ) && result == (lower + upper) / 2,
        forall|values: Seq<u8>| #[trigger]
            counts(histogram@, values) && values.len() == count ==> result == median(values),
{
    if count == 0 {
        return 0;
    }
    let lower: u8 = histogram_value_at(histogram, (count - 1) / 2);
    let upper: u8 = histogram_value_at(histogram, count / 2);
    proof {
        assert forall|values: Seq<u8>| #[trigger]
            counts(histogram@, values) && values.len() == count implies lower == ranked(
            values,
            (values.len() - 1) / 2,
        ) && upper == ranked(values, values.len() as int / 2) by {
            lemma_up_to(histogram@, values, 256);
            lemma_below_bounds(values);
            lemma_up_to(histogram@, values, lower as int);
            lemma_up_to(histogram@, values, lower + 1);
            lemma_up_to(histogram@, values, upper as int);
            lemma_up_to(histogram@, values, upper + 1);
            assert(at_rank(values, (values.len() - 1) / 2, lower));
            assert(at_rank(values, values.len() as int / 2, upper));
            lemma_rank_unique(
                values,
                (values.len() - 1) / 2,
                lower,
                ranked(values, (values.len() - 1) / 2),
            );
            lemma_rank_unique(
                values,
                values.len() as int / 2,
                upper,
                ranked(values, values.len() as int / 2),
            );
        }
    }
    ((lower as u16 + upper as u16) / 2) as u8
}

/// A histogram of values.
pub fn histogram_of(values: &Vec<u8>) -> (result: Vec<u32>)
    requires
        values.len() <= u32::MAX,
    ensures
        counts(result@, values@),
{
    let mut histogram: Vec<u32> = vec![0; 256];
    proof {
        assert forall|value: int| 0 <= value < 256 implies #[trigger] histogram@[value] == equal(
            values@.take(0),
            value,
        ) by {
            crate::counting::lemma_count_zero(
                values@.take(0).map_values(exactly(value)),
            );
        }
    }
    let mut index: usize = 0;
    while index < values.len()
        invariant
            index <= values.len(),
            values.len() <= u32::MAX,
            counts(histogram@, values@.take(index as int)),
        decreases values.len() - index,
    {
        let value = values[index];
        proof {
            let next = values@.take(index as int + 1);
            assert(next.drop_last() =~= values@.take(index as int));
            assert forall|v: int| 0 <= v < 256 implies #[trigger] equal(next, v) == equal(
                values@.take(index as int),
                v,
            ) + (if v == value as int {
                1nat
            } else {
                0
            }) by {
                lemma_count_drop_last(next, exactly(v));
            }
            crate::counting::lemma_count_at_most(
                values@.take(index as int).map_values(exactly(value as int)),
            );
            assert(histogram@[value as int] == equal(values@.take(index as int), value as int));
        }
        histogram.set(value as usize, histogram[value as usize] + 1);
        index += 1;
    }
    proof {
        assert(values@.take(index as int) =~= values@);
    }
    histogram
}

/// One channel of a sequence of colors.
pub open spec fn channel_of(colors: Seq<[u8; 3]>, channel: int) -> Seq<u8> {
    colors.map_values(|color: [u8; 3]| color@[channel])
}

/// The median color, channel by channel.
pub open spec fn median_color_of(colors: Seq<[u8; 3]>) -> [u8; 3] {
    [
        median(channel_of(colors, 0)),
        median(channel_of(colors, 1)),
        median(channel_of(colors, 2)),
    ]
}

pub open spec fn colors_of(pixels: Seq<MaskPixel>) -> Seq<[u8; 3]> {
    pixels.map_values(|pixel: MaskPixel| pixel.color)
}

fn channel_median(colors: &Vec<[u8; 3]>, channel: usize) -> (result: u8)
    requires
        colors.len() <= u32::MAX,
        channel < 3,
    ensures
        result == median(channel_of(colors@, channel as int)),
{
    let mut values: Vec<u8> = Vec::new();
    let mut index: usize = 0;
    while index < colors.len()
        invariant
            index <= colors.len(),
            channel < 3,
            values@ == channel_of(colors@, channel as int).take(index as int),
        decreases colors.len() - index,
    {
        let color = colors[index];
        values.push(color[channel]);
        index += 1;
        proof {
            let all = channel_of(colors@, channel as int);
            assert(all.take(index as int) =~= all.take(index - 1).push(all[index - 1]));
        }
    }
    proof {
        assert(values@ =~= channel_of(colors@, channel as int));
    }
    histogram_median(&histogram_of(&values), values.len())
}

/// The median color of a sequence of colors.
pub fn median_color(colors: &Vec<[u8; 3]>) -> (result: [u8; 3])
    requires
        colors.len() <= u32::MAX,
    ensures
        result == median_color_of(colors@),
{
    [channel_median(colors, 0), channel_median(colors, 1), channel_median(colors, 2)]
}

/// The median color of a sequence of pixels.
pub fn median_pixel_color(pixels: &Vec<MaskPixel>) -> (result: [u8; 3])
    requires
        pixels.len() <= u32::MAX,
    ensures
        result == median_color_of(colors_of(pixels@)),
{
    let mut colors: Vec<[u8; 3]> = Vec::new();
    let mut index: usize = 0;
    while index < pixels.len()
        invariant
            index <= pixels.len(),
            colors@ == colors_of(pixels@).take(index as int),
        decreases pixels.len() - index,
    {
        colors.push(pixels[index].color);
        index += 1;
        proof {
            let all = colors_of(pixels@);
            assert(all.take(index as int) =~= all.take(index - 1).push(all[index - 1]));
        }
    }
    proof {
        assert(colors@ =~= colors_of(pixels@));
    }
    median_color(&colors)
}

} // verus!
