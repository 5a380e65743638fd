//! What is written to a scene for each detected region.

use vstd::prelude::*;

use crate::closing::Rect;
use crate::counting::{count, lemma_count_at_most};
use crate::extremum::{first_min, numbers, place_of_first_min};
use crate::grid::{cell, lemma_cell_bounds, lemma_cell_injective, lemma_cell_of};
use crate::layout::{LayoutItem, LayoutKind};
use crate::mask::{valid_mask, GrayMask, LayoutMask};
use crate::ordering::{select_places, selected};
use crate::paint::TextPaint;
use crate::stage::EntityId;
use crate::text::same;

verus! {

/// What a region of a page is.
#[derive(Clone, Copy, Debug, PartialEq, Eq, Structural)]
pub enum RegionKind {
    Text,
    Bubble,
    Panel,
    Unknown,
}

/// What part text plays on a page.
#[derive(Clone, Copy, Debug, PartialEq, Eq, Structural)]
pub enum TextRole {
    FreeText,
    Dialogue,
    Onomatopoeia,
}

impl TextRole {
    pub open spec fn text(self) -> Seq<char> {
        match self {
            TextRole::FreeText => "dev.koharu.text.free-text"@,
            TextRole::Dialogue => "dev.koharu.text.dialogue"@,
            TextRole::Onomatopoeia => "dev.koharu.text.onomatopoeia"@,
        }
    }

    /// The name under which a role is written down.
    pub fn name(self) -> (result: &'static str)
        ensures
            result@ == self.text(),
    {
        match self {
            TextRole::FreeText => "dev.koharu.text.free-text",
            TextRole::Dialogue => "dev.koharu.text.dialogue",
            TextRole::Onomatopoeia => "dev.koharu.text.onomatopoeia",
        }
    }
}

/// Where a region's shape comes from.
#[derive(Clone, Copy, Debug, PartialEq, Eq, Structural)]
pub enum RegionShape {
    /// The outline of the region's mask, or its bounds where that has none.
    Outline,
    /// The region's bounds, turned by the angle of its text.
    TurnedBounds,
    /// The region's bounds.
    Bounds,
}

/// The typography of a text layer: colors with full opacity, and the width of the stroke.
#[derive(Clone, Copy)]
pub struct LayerTypography {
    pub color: Option<[u8; 4]>,
    pub stroke_color: Option<[u8; 4]>,
    pub stroke_width: Option<u8>,
    pub auto_fit: bool,
}

/// What is written for one detection.
#[derive(Clone, Copy)]
pub struct RegionPlan {
    pub kind: RegionKind,
    pub shape: RegionShape,
    pub role: Option<TextRole>,
    pub typography: Option<LayerTypography>,
}

pub open spec fn kind_of(label: Seq<char>) -> RegionKind {
    if label == "text"@ || label == "onomatopoeia"@ {
        RegionKind::Text
    } else if label == "bubble"@ {
        RegionKind::Bubble
    } else if label == "panel"@ {
        RegionKind::Panel
    } else {
        RegionKind::Unknown
    }
}

pub open spec fn role_of(label: Seq<char>) -> Option<TextRole> {
    if label == "text"@ {
        Some(TextRole::FreeText)
    } else if label == "onomatopoeia"@ {
        Some(TextRole::Onomatopoeia)
    } else {
        None
    }
}

pub open spec fn opaque_color(color: [u8; 3]) -> [u8; 4] {
    [color@[0], color@[1], color@[2], 255u8]
}

/// The typography that inferred paint gives a layer.
pub open spec fn typography_of(paint: Option<TextPaint>) -> LayerTypography {
    match paint {
        None => LayerTypography {
            color: None,
            stroke_color: None,
            stroke_width: None,
            auto_fit: true,
        },
        Some(paint) => LayerTypography {
            color: Some(opaque_color(paint.color)),
            stroke_color: match paint.stroke_color {
                Some(color) => Some(opaque_color(color)),
                None => None,
            },
            stroke_width: paint.stroke_width,
            auto_fit: true,
        },
    }
}

/// What is written for a detection with a label and, for text, its inferred paint.
pub open spec fn plan_of(label: Seq<char>, paint: Option<TextPaint>) -> RegionPlan {
    RegionPlan {
        kind: kind_of(label),
        shape: if label == "bubble"@ {
            RegionShape::Outline
        } else if role_of(label) is Some && paint is Some {
            RegionShape::TurnedBounds
        } else {
            RegionShape::Bounds
        },
        role: role_of(label),
        typography: if role_of(label) is Some {
            Some(typography_of(paint))
        } else {
            None
        },
    }
}

/// The kind of region that a label stands for.
pub fn region_kind(label: &str) -> (result: RegionKind)
    ensures
        result == kind_of(label@),
{
    if same(label, "text") || same(label, "onomatopoeia") {
        RegionKind::Text
    } else if same(label, "bubble") {
        RegionKind::Bubble
    } else if same(label, "panel") {
        RegionKind::Panel
    } else {
        RegionKind::Unknown
    }
}

fn opaque(color: [u8; 3]) -> (result: [u8; 4])
    ensures
        result == opaque_color(color),
{
    [color[0], color[1], color[2], 255]
}

/// Plans what is written for a detection.
pub fn write_region(label: &str, paint: Option<TextPaint>) -> (result: RegionPlan)
    ensures
        result == plan_of(label@, paint),
{
    let role = if same(label, "text") {
        Some(TextRole::FreeText)
    } else if same(label, "onomatopoeia") {
        Some(TextRole::Onomatopoeia)
    } else {
        None
    };
    let shape = if same(label, "bubble") {
        RegionShape::Outline
    } else if role.is_some() && paint.is_some() {
        RegionShape::TurnedBounds
    } else {
        RegionShape::Bounds
    };
    let typography = if role.is_some() {
        Some(
            match paint {
                None => LayerTypography {
                    color: None,
                    stroke_color: None,
                    stroke_width: None,
                    auto_fit: true,
                },
                Some(paint) => LayerTypography {
                    color: Some(opaque(paint.color)),
                    stroke_color: match paint.stroke_color {
                        Some(color) => Some(opaque(color)),
                        None => None,
                    },
                    stroke_width: paint.stroke_width,
                    auto_fit: true,
                },
            },
        )
    } else {
        None
    };
    RegionPlan { kind: region_kind(label), shape, role, typography }
}

/// The kind of layout item that a label stands for.
pub open spec fn layout_kind_of(label: Seq<char>) -> LayoutKind {
    match kind_of(label) {
        RegionKind::Text => LayoutKind::Text,
        RegionKind::Bubble => LayoutKind::Bubble,
        RegionKind::Panel => LayoutKind::Panel,
        RegionKind::Unknown => LayoutKind::Other,
    }
}

pub fn layout_kind(label: &str) -> (result: LayoutKind)
    ensures
        result == layout_kind_of(label@),
{
    match region_kind(label) {
        RegionKind::Text => LayoutKind::Text,
        RegionKind::Bubble => LayoutKind::Bubble,
        RegionKind::Panel => LayoutKind::Panel,
        RegionKind::Unknown => LayoutKind::Other,
    }
}

/// How a text layer is tied to regions.
#[derive(Clone, Copy, Debug, PartialEq, Eq, Structural)]
pub enum TextLink {
    /// It fits its own region.
    FitsRegion,
    /// It flows in a bubble, and its text becomes dialogue.
    FlowsInBubble(usize),
}

/// The bubbles that hold some text, in order.
pub open spec fn holders(holds: Seq<bool>) -> Seq<int> {
    Seq::new(holds.len(), |i: int| i).filter(|i: int| holds[i])
}

pub open spec fn areas_of(areas: Seq<u32>, places: Seq<int>) -> Seq<int> {
    places.map_values(|i: int| areas[i] as int)
}

/// The smallest bubble that holds some text, the first of several.
pub open spec fn smallest_holder(areas: Seq<u32>, holds: Seq<bool>) -> Option<int> {
    let places = holders(holds);
    if places.len() == 0 {
        None
    } else {
        Some(places[first_min(areas_of(areas, places))])
    }
}

/// The smallest of the bubbles that hold some text.
pub fn containing_bubble(areas: &Vec<u32>, holds: &Vec<bool>) -> (result: Option<usize>)
    requires
        areas.len() == holds.len(),
    ensures
        match result {
            Some(index) => smallest_holder(areas@, holds@) == Some(index as int) && index
                < areas.len() && holds@[index as int],
            None => smallest_holder(areas@, holds@) is None,
        },
{
    let ghost all = Seq::new(holds@.len(), |i: int| i);
    let ghost keep = |i: int| holds@[i];
    let mut found: Vec<usize> = Vec::new();
    let mut keys: Vec<u64> = Vec::new();
    let mut index: usize = 0;
    while index < holds.len()
        invariant
            index <= holds.len(),
            areas.len() == holds.len(),
            all == Seq::new(holds@.len(), |i: int| i),
            keep == (|i: int| holds@[i]),
            found@.map_values(|i: usize| i as int) == all.take(index as int).filter(keep),
            keys.len() == found.len(),
            forall|k: int|
                0 <= k < found.len() ==> (#[trigger] found@[k]) < areas.len()
                    && holds@[found@[k] as int],
            forall|k: int| 0 <= k < keys.len() ==> #[trigger] keys@[k] == areas@[found@[k] as int],
        decreases holds.len() - index,
    {
        proof {
            let next = all.take(index as int + 1);
            assert(next.drop_last() =~= all.take(index as int));
            reveal(Seq::filter);
        }
        let ghost before = found@.map_values(|i: usize| i as int);
        if holds[index] {
            found.push(index);
            keys.push(areas[index] as u64);
            proof {
                assert(found@.map_values(|i: usize| i as int) =~= before.push(index as int));
            }
        }
        index += 1;
    }
    let ghost places = holders(holds@);
    proof {
        assert(all.take(index as int) =~= all);
        assert(places == found@.map_values(|i: usize| i as int));
        assert(places.len() == found.len());
    }
    if found.len() == 0 {
        return None;
    }
    proof {
        assert(numbers(keys@) =~= areas_of(areas@, places));
    }
    let best: usize = place_of_first_min(&keys);
    assert(found@[best as int] < areas.len());
    assert(places[best as int] == found@[best as int] as int);
    Some(found[best])
}

/// How a text layer is tied to regions: onomatopoeia fits its own region; other text flows in
/// the smallest bubble that holds it, if one does.
pub open spec fn link_of(role: TextRole, areas: Seq<u32>, holds: Seq<bool>) -> TextLink {
    if role == TextRole::Onomatopoeia {
        TextLink::FitsRegion
    } else {
        match smallest_holder(areas, holds) {
            Some(bubble) => TextLink::FlowsInBubble(bubble as usize),
            None => TextLink::FitsRegion,
        }
    }
}

/// Decides how a text layer is tied to regions; `holds` tells which bubbles hold its text.
pub fn link_dialogue_region(role: TextRole, areas: &Vec<u32>, holds: &Vec<bool>) -> (result:
    TextLink)
    requires
        areas.len() == holds.len(),
    ensures
        result == link_of(role, areas@, holds@),
{
    if role == TextRole::Onomatopoeia {
        return TextLink::FitsRegion;
    }
    match containing_bubble(areas, holds) {
        Some(bubble) => TextLink::FlowsInBubble(bubble),
        None => TextLink::FitsRegion,
    }
}

/// The value mask covers each place of a window, row by row.
pub open spec fn window_flags(value: &LayoutMask, window: Rect) -> Seq<bool> {
    let width = window.right - window.left;
    Seq::new(
        (width * (window.bottom - window.top)) as nat,
        |i: int| value.covers(window.left + i % width, window.top + i / width),
    )
}

/// Both masks cover each place of a window, row by row.
pub open spec fn shared_flags(container: &LayoutMask, value: &LayoutMask, window: Rect) -> Seq<
    bool,
> {
    let width = window.right - window.left;
    Seq::new(
        (width * (window.bottom - window.top)) as nat,
        |i: int|
            value.covers(window.left + i % width, window.top + i / width) && container.covers(
                window.left + i % width,
                window.top + i / width,
            ),
    )
}

/// Counts, in a window, the places that both masks cover and those that the second covers.
/// Neither is counted where a mask is not valid.
pub fn mask_overlap(container: &LayoutMask, value: &LayoutMask, window: Rect) -> (result: (
    usize,
    usize,
))
    requires
        window.left <= window.right,
        window.top <= window.bottom,
        (window.right - window.left) * (window.bottom - window.top) <= usize::MAX,
    ensures
        container.valid() && value.valid() && window.left < window.right ==> {
            &&& result.0 == count(shared_flags(container, value, window))
            &&& result.1 == count(window_flags(value, window))
        },
        !(container.valid() && value.valid() && window.left < window.right) ==> result == (
            0usize,
            0usize,
        ),
        result.0 <= result.1,
{
    if !valid_mask(container) || !valid_mask(value) || window.left >= window.right {
        return (0, 0);
    }
    let width: u32 = window.right - window.left;
    let height: u32 = window.bottom - window.top;
    let ghost all = window_flags(value, window);
    let ghost both = shared_flags(container, value, window);
    let mut shared: usize = 0;
    let mut area: usize = 0;
    let mut y: u32 = window.top;
    let ghost mut done: int = 0;
    proof {
        assert(width * height >= 0) by (nonlinear_arith)
            requires
                width >= 0,
                height >= 0,
        ;
        assert(all.take(0) =~= Seq::empty());
        assert(both.take(0) =~= Seq::empty());
        crate::counting::lemma_count_zero(all.take(0));
        crate::counting::lemma_count_zero(both.take(0));
        assert(cell(0, 0, width as int) == 0) by (nonlinear_arith);
    }
    while y < window.bottom
        invariant
            window.top <= y <= window.bottom,
            window.left < window.right,
            width == window.right - window.left,
            height == window.bottom - window.top,
            all == window_flags(value, window),
            both == shared_flags(container, value, window),
            all.len() == width * height,
            both.len() == width * height,
            width * height <= usize::MAX,
            done == cell(0, y - window.top, width as int),
            0 <= done <= width * height,
            area == count(all.take(done)),
            shared == count(both.take(done)),
            shared <= area <= done,
        decreases window.bottom - y,
    {
        let mut x: u32 = window.left;
        while x < window.right
            invariant
                window.left <= x <= window.right,
                window.top <= y < window.bottom,
                window.left < window.right,
                width == window.right - window.left,
                height == window.bottom - window.top,
                all == window_flags(value, window),
                both == shared_flags(container, value, window),
                all.len() == width * height,
                both.len() == width * height,
                width * height <= usize::MAX,
                done == cell(x - window.left, y - window.top, width as int),
                0 <= done <= width * height,
                area == count(all.take(done)),
                shared == count(both.take(done)),
                shared <= area <= done,
            decreases window.right - x,
        {
            proof {
                let (a, b) = (x - window.left, y - window.top);
                lemma_cell_bounds(a, b, width as int, height as int);
                lemma_cell_of(done, width as int, height as int);
                lemma_cell_injective(
                    a,
                    b,
                    done % width as int,
                    done / width as int,
                    width as int,
                );
                lemma_count_take(all, done);
                lemma_count_take(both, done);
                lemma_count_at_most(all.take(done + 1));
                assert(cell(a + 1, b, width as int) == done + 1);
            }
            if value.contains(x, y) {
                area += 1;
                if container.contains(x, y) {
                    shared += 1;
                }
            }
            proof {
                done = done + 1;
            }
            x += 1;
        }
        proof {
            assert(cell(width as int, y - window.top, width as int) == cell(
                0,
                y + 1 - window.top,
                width as int,
            )) by (nonlinear_arith);
        }
        y += 1;
    }
    proof {
        assert(cell(0, height as int, width as int) == width * height) by (nonlinear_arith)
            requires
                cell(0, height as int, width as int) == height * width,
        ;
        assert(all.take(done) =~= all);
        assert(both.take(done) =~= both);
    }
    (shared, area)
}

proof fn lemma_count_take(flags: Seq<bool>, at: int)
    requires
        0 <= at < flags.len(),
    ensures
        count(flags.take(at + 1)) == count(flags.take(at)) + (if flags[at] {
            1nat
        } else {
            0
        }),
{
    let number = |flag: bool| if flag { 1nat } else { 0nat };
    let longer = flags.take(at + 1);
    assert(longer.map_values(number).drop_last() =~= flags.take(at).map_values(number));
}

/// The place lies outside of bounds, none of it within them.
pub open spec fn beyond(x: int, y: int, left: int, top: int, right: int, bottom: int) -> bool {
    x + 1 <= left || y + 1 <= top || x >= right || y >= bottom
}

/// Outside of bounds, puts back what a mask had before, or black where there was none. Fails
/// where the earlier mask has another size.
pub fn preserve_mask_outside_region(
    mask: &mut GrayMask,
    previous: Option<&GrayMask>,
    left: i64,
    top: i64,
    right: i64,
    bottom: i64,
) -> (result: Result<(), ()>)
    requires
        old(mask).well_formed(),
        previous matches Some(earlier) ==> earlier.well_formed(),
    ensures
        result is Err <==> (previous matches Some(earlier) && !(earlier.width == old(mask).width
            && earlier.height == old(mask).height)),
        result is Err ==> *final(mask) == *old(mask),
        result is Ok ==> {
            &&& final(mask).well_formed()
            &&& final(mask).width == old(mask).width
            &&& final(mask).height == old(mask).height
            &&& forall|x: int, y: int|
                old(mask).contains_cell(x, y) ==> #[trigger] final(mask).at(x, y) == (if beyond(
                    x,
                    y,
                    left as int,
                    top as int,
                    right as int,
                    bottom as int,
                ) {
                    match previous {
                        Some(earlier) => earlier.at(x, y),
                        None => 0,
                    }
                } else {
                    old(mask).at(x, y)
                })
        },
{
    if let Some(earlier) = previous {
        if earlier.width != mask.width || earlier.height != mask.height {
            return Err(());
        }
    }
    let mut y: u32 = 0;
    while y < mask.height
        invariant
            y <= mask.height,
            mask.well_formed(),
            mask.width == old(mask).width,
            mask.height == old(mask).height,
            previous matches Some(earlier) ==> earlier.well_formed() && earlier.width == mask.width
                && earlier.height == mask.height,
            forall|u: int, v: int|
                old(mask).contains_cell(u, v) ==> #[trigger] mask.at(u, v) == (if v < y && beyond(
                    u,
                    v,
                    left as int,
                    top as int,
                    right as int,
                    bottom as int,
                ) {
                    match previous {
                        Some(earlier) => earlier.at(u, v),
                        None => 0,
                    }
                } else {
                    old(mask).at(u, v)
                }),
        decreases mask.height - y,
    {
        let mut x: u32 = 0;
        while x < mask.width
            invariant
                x <= mask.width,
                y < mask.height,
                mask.well_formed(),
                mask.width == old(mask).width,
                mask.height == old(mask).height,
                previous matches Some(earlier) ==> earlier.well_formed() && earlier.width
                    == mask.width && earlier.height == mask.height,
                forall|u: int, v: int|
                    old(mask).contains_cell(u, v) ==> #[trigger] mask.at(u, v) == (if (v < y || (v
                        == y && u < x)) && beyond(
                        u,
                        v,
                        left as int,
                        top as int,
                        right as int,
                        bottom as int,
                    ) {
                        match previous {
                            Some(earlier) => earlier.at(u, v),
                            None => 0,
                        }
                    } else {
                        old(mask).at(u, v)
                    }),
            decreases mask.width - x,
        {
            if x as i64 + 1 <= left || y as i64 + 1 <= top || x as i64 >= right || y as i64
                >= bottom {
                let value: u8 = match previous {
                    Some(earlier) => earlier.get(x, y),
                    None => 0,
                };
                mask.put(x, y, value);
            }
            x += 1;
        }
        y += 1;
    }
    Ok(())
}

/// What a scene says of a text region that is in scope.
#[derive(Clone, Copy, Debug, PartialEq, Eq, Structural)]
pub struct TextRegionFact {
    /// The region was generated, and not drawn by hand.
    pub generated: bool,
    /// It was generated by this producer with another model.
    pub outdated: bool,
    /// Text content was recognized from it.
    pub recognized: bool,
    /// That content is text, and a text layer in scope presents it.
    pub presented: bool,
    /// It has bounds.
    pub bounded: bool,
}

impl TextRegionFact {
    /// The region is up to date and complete.
    pub open spec fn complete(self) -> bool {
        self.generated && !self.outdated && self.recognized && self.presented && self.bounded
    }
}

/// Measured overlaps: whether two text regions have nearly the same bounds.
pub open spec fn steady_repeats<R: Fn(usize, usize) -> bool>(repeats: R) -> bool {
    &&& forall|left: usize, right: usize| #[trigger] call_requires(repeats, (left, right))
    &&& forall|left: usize, right: usize|
        !(#[trigger] call_ensures(repeats, (left, right), true) && call_ensures(
            repeats,
            (left, right),
            false,
        ))
}

/// The region needs no new detection: it is complete and repeats no earlier one.
pub open spec fn settled_region<R: Fn(usize, usize) -> bool>(
    facts: Seq<TextRegionFact>,
    repeats: R,
    index: int,
) -> bool {
    facts[index].complete() && forall|earlier: usize|
        earlier < index ==> !#[trigger] call_ensures(repeats, (earlier, index as usize), true)
}

/// Detection is skipped where a text region was drawn by hand before any that needs a new
/// detection, or where there are text regions and none of them needs one.
pub open spec fn detection_skipped<R: Fn(usize, usize) -> bool>(
    facts: Seq<TextRegionFact>,
    repeats: R,
) -> bool {
    ||| exists|i: int|
        0 <= i < facts.len() && !(#[trigger] facts[i]).generated && forall|j: int|
            0 <= j < i ==> #[trigger] settled_region(facts, repeats, j)
    ||| facts.len() > 0 && forall|j: int|
        0 <= j < facts.len() ==> #[trigger] settled_region(facts, repeats, j)
}

/// Decides whether a page needs no new detection.
pub fn skip_detection<R: Fn(usize, usize) -> bool>(facts: &Vec<TextRegionFact>, repeats: &R) -> (
result: bool)
    requires
        steady_repeats(*repeats),
    ensures
        result == detection_skipped(facts@, *repeats),
{
    let mut index: usize = 0;
    while index < facts.len()
        invariant
            index <= facts.len(),
            steady_repeats(*repeats),
            forall|j: int| 0 <= j < index ==> #[trigger] settled_region(facts@, *repeats, j),
        decreases facts.len() - index,
    {
        let fact = facts[index];
        if !fact.generated {
            assert(!facts@[index as int].generated);
            return true;
        }
        if fact.outdated || !fact.recognized || !fact.presented || !fact.bounded {
            proof {
                assert(!settled_region(facts@, *repeats, index as int));
                lemma_unsettled(facts@, *repeats, index as int);
            }
            return false;
        }
        let mut earlier: usize = 0;
        while earlier < index
            invariant
                earlier <= index < facts.len(),
                steady_repeats(*repeats),
                fact == facts@[index as int],
                fact.complete(),
                forall|j: int| 0 <= j < index ==> #[trigger] settled_region(facts@, *repeats, j),
                forall|other: usize|
                    other < earlier ==> !#[trigger] call_ensures(*repeats, (other, index), true),
            decreases index - earlier,
        {
            if repeats(earlier, index) {
                proof {
                    assert((index as int) as usize == index);
                    assert(call_ensures(*repeats, (earlier, (index as int) as usize), true));
                    assert(!settled_region(facts@, *repeats, index as int));
                    lemma_unsettled(facts@, *repeats, index as int);
                }
                return false;
            }
            earlier += 1;
        }
        assert(settled_region(facts@, *repeats, index as int));
        index += 1;
    }
    proof {
        assert forall|i: int| 0 <= i < facts.len() implies (#[trigger] facts@[i]).generated by {
            assert(settled_region(facts@, *repeats, i));
        }
    }
    facts.len() > 0
}

proof fn lemma_unsettled<R: Fn(usize, usize) -> bool>(
    facts: Seq<TextRegionFact>,
    repeats: R,
    index: int,
)
    requires
        0 <= index < facts.len(),
        facts[index].generated,
        !settled_region(facts, repeats, index),
        forall|j: int| 0 <= j < index ==> #[trigger] settled_region(facts, repeats, j),
    ensures
        !detection_skipped(facts, repeats),
{
    assert forall|i: int| 0 <= i < facts.len() && !(#[trigger] facts[i]).generated implies exists|
        j: int,
    | 0 <= j < i && !#[trigger] settled_region(facts, repeats, j) by {
        if i < index {
            assert(settled_region(facts, repeats, i));
        }
        assert(!settled_region(facts, repeats, index));
    }
}

/// What a scene says of an entity below a page.
#[derive(Clone, Copy, Debug, PartialEq, Eq, Structural)]
pub struct EntityFact {
    pub in_scope: bool,
    /// It was generated by the producer of regions.
    pub own: bool,
    pub is_region: bool,
}

impl EntityFact {
    /// A new detection replaces the entity.
    pub open spec fn replaced(self) -> bool {
        self.in_scope && self.own && self.is_region
    }
}

/// The entities that a new detection replaces, in order.
pub fn remove_previous_regions(facts: &Vec<EntityFact>) -> (result: Vec<usize>)
    ensures
        result@ == selected(facts@.len(), |i: usize| facts@[i as int].replaced()),
{
    let test = |i: usize| -> (flag: bool)
        requires
            i < facts.len(),
        ensures
            flag == facts@[i as int].replaced(),
        { facts[i].in_scope && facts[i].own && facts[i].is_region };
    select_places(facts.len(), &test, Ghost(|i: usize| facts@[i as int].replaced()))
}

/// What a scene says of a region: its kind, and its bounds and centers if it has any.
#[derive(Clone, Copy)]
pub struct RegionFact {
    pub kind: LayoutKind,
    pub place: Option<([u64; 4], [u64; 2])>,
}

/// What a scene says of a text layer: the bounds and centers of its source region, if any.
#[derive(Clone, Copy)]
pub struct LayerFact {
    pub layer: EntityId,
    pub place: Option<([u64; 4], [u64; 2])>,
}

/// The region takes part in the layout.
pub open spec fn framing() -> spec_fn(RegionFact) -> bool {
    |fact: RegionFact|
        (fact.kind == LayoutKind::Panel || fact.kind == LayoutKind::Bubble) && fact.place is Some
}

pub open spec fn placed_layer() -> spec_fn(LayerFact) -> bool {
    |fact: LayerFact| fact.place is Some
}

pub open spec fn item_at(kind: LayoutKind, place: Option<([u64; 4], [u64; 2])>) -> LayoutItem {
    LayoutItem { kind, bounds: (place->0).0, center: (place->0).1 }
}

/// The items of a page and their layers: panels and bubbles, then the text layers, then the
/// text that is placed.
pub open spec fn page_items(
    regions: Seq<RegionFact>,
    layers: Seq<LayerFact>,
    inserted: ([u64; 4], [u64; 2]),
) -> Seq<LayoutItem> {
    (regions.filter(framing()).map_values(|fact: RegionFact| item_at(fact.kind, fact.place))
        + layers.filter(placed_layer()).map_values(
        |fact: LayerFact| item_at(LayoutKind::Text, fact.place),
    )).push(item_at(LayoutKind::Text, Some(inserted)))
}

pub open spec fn page_layers(
    regions: Seq<RegionFact>,
    layers: Seq<LayerFact>,
) -> Seq<Option<EntityId>> {
    (regions.filter(framing()).map_values(|fact: RegionFact| None::<EntityId>) + layers.filter(
        placed_layer(),
    ).map_values(|fact: LayerFact| Some(fact.layer))).push(None)
}

/// The items among which new text is placed, and the layers of those that have one. The new
/// text is the last item.
pub fn collect_items(
    regions: &Vec<RegionFact>,
    layers: &Vec<LayerFact>,
    inserted: ([u64; 4], [u64; 2]),
) -> (result: (Vec<LayoutItem>, Vec<Option<EntityId>>))
    ensures
        result.0@ == page_items(regions@, layers@, inserted),
        result.1@ == page_layers(regions@, layers@),
        result.0.len() == result.1.len(),
        result.0.len() > 0,
{
    let ghost region_item = |fact: RegionFact| item_at(fact.kind, fact.place);
    let ghost no_layer = |fact: RegionFact| None::<EntityId>;
    let ghost layer_item = |fact: LayerFact| item_at(LayoutKind::Text, fact.place);
    let ghost own_layer = |fact: LayerFact| Some(fact.layer);
    let mut items: Vec<LayoutItem> = Vec::new();
    let mut ids: Vec<Option<EntityId>> = Vec::new();
    let mut index: usize = 0;
    while index < regions.len()
        invariant
            index <= regions.len(),
            region_item == (|fact: RegionFact| item_at(fact.kind, fact.place)),
            no_layer == (|fact: RegionFact| None::<EntityId>),
            items@ == regions@.take(index as int).filter(framing()).map_values(region_item),
            ids@ == regions@.take(index as int).filter(framing()).map_values(no_layer),
        decreases regions.len() - index,
    {
        let fact = regions[index];
        proof {
            let next = regions@.take(index as int + 1);
            assert(next.drop_last() =~= regions@.take(index as int));
            reveal(Seq::filter);
            if framing()(fact) {
                assert(next.filter(framing()).map_values(region_item) =~= items@.push(
                    region_item(fact),
                ));
                assert(next.filter(framing()).map_values(no_layer) =~= ids@.push(None));
            }
        }
        if fact.kind == LayoutKind::Panel || fact.kind == LayoutKind::Bubble {
            if let Some((bounds, center)) = fact.place {
                items.push(LayoutItem { kind: fact.kind, bounds, center });
                ids.push(None);
            }
        }
        index += 1;
    }
    let ghost first = items@;
    let ghost first_ids = ids@;
    proof {
        assert(regions@.take(index as int) =~= regions@);
    }
    let mut at: usize = 0;
    proof {
        assert(layers@.take(0).filter(placed_layer()) =~= Seq::empty()) by {
            reveal(Seq::filter);
        }
        assert(items@ =~= first + layers@.take(0).filter(placed_layer()).map_values(layer_item));
        assert(ids@ =~= first_ids + layers@.take(0).filter(placed_layer()).map_values(own_layer));
    }
    while at < layers.len()
        invariant
            at <= layers.len(),
            layer_item == (|fact: LayerFact| item_at(LayoutKind::Text, fact.place)),
            own_layer == (|fact: LayerFact| Some(fact.layer)),
            items@ == first + layers@.take(at as int).filter(placed_layer()).map_values(layer_item),
            ids@ == first_ids + layers@.take(at as int).filter(placed_layer()).map_values(
                own_layer,
            ),
        decreases layers.len() - at,
    {
        let fact = layers[at];
        proof {
            let next = layers@.take(at as int + 1);
            assert(next.drop_last() =~= layers@.take(at as int));
            reveal(Seq::filter);
            if placed_layer()(fact) {
                assert(first + next.filter(placed_layer()).map_values(layer_item) =~= items@.push(
                    layer_item(fact),
                ));
                assert(first_ids + next.filter(placed_layer()).map_values(own_layer)
                    =~= ids@.push(Some(fact.layer)));
            }
        }
        if let Some((bounds, center)) = fact.place {
            items.push(LayoutItem { kind: LayoutKind::Text, bounds, center });
            ids.push(Some(fact.layer));
        }
        at += 1;
    }
    proof {
        assert(layers@.take(at as int) =~= layers@);
    }
    items.push(LayoutItem { kind: LayoutKind::Text, bounds: inserted.0, center: inserted.1 });
    ids.push(None);
    (items, ids)
}

/// The role of a text after it was linked: one that flows in a bubble is dialogue.
pub fn linked_role(role: TextRole, link: TextLink) -> (result: TextRole)
    ensures
        result == (match link {
            TextLink::FlowsInBubble(_) => TextRole::Dialogue,
            TextLink::FitsRegion => role,
        }),
{
    match link {
        TextLink::FlowsInBubble(_) => TextRole::Dialogue,
        TextLink::FitsRegion => role,
    }
}

/// Who made something in a scene.
#[derive(Clone, Copy, Debug, PartialEq, Eq, Structural)]
pub enum Maker {
    User,
    Program,
}

/// What a scene says of the group of a page's texts: its identifier, and who made it, where that
/// is known.
#[derive(Clone, Copy)]
pub struct GroupFact {
    pub group: EntityId,
    pub maker: Option<Maker>,
}

/// The group that new text layers are moved into: that of the page, where the program made it.
pub fn managed_text_group(group: Option<GroupFact>) -> (result: Option<EntityId>)
    ensures
        result == (match group {
            Some(fact) => if fact.maker == Some(Maker::Program) {
                Some(fact.group)
            } else {
                None
            },
            None => None,
        }),
{
    match group {
        Some(fact) => match fact.maker {
            Some(Maker::Program) => Some(fact.group),
            _ => None,
        },
        None => None,
    }
}

/// What a scene says of a region of a page, and whether a stage looks at it.
#[derive(Clone, Copy)]
pub struct ScopedRegion {
    pub in_scope: bool,
    pub region: RegionFact,
}

/// The region holds texts that are put into order: of a chapter all do, else those in scope.
pub open spec fn holding(chapter: bool) -> spec_fn(ScopedRegion) -> bool {
    |entry: ScopedRegion| (chapter || entry.in_scope) && framing()(entry.region)
}

/// The panels and bubbles among which the texts of a page are put into order.
pub fn page_layout_containers(regions: &Vec<ScopedRegion>, chapter: bool) -> (result: Vec<
    LayoutItem,
>)
    ensures
        result@ == regions@.filter(holding(chapter)).map_values(
            |entry: ScopedRegion| item_at(entry.region.kind, entry.region.place),
        ),
{
    let ghost item = |entry: ScopedRegion| item_at(entry.region.kind, entry.region.place);
    let mut result: Vec<LayoutItem> = Vec::new();
    let mut index: usize = 0;
    proof {
        assert(regions@.take(0).filter(holding(chapter)) =~= Seq::empty()) by {
            reveal(Seq::filter);
        }
    }
    while index < regions.len()
        invariant
            index <= regions.len(),
            item == (|entry: ScopedRegion| item_at(entry.region.kind, entry.region.place)),
            result@ == regions@.take(index as int).filter(holding(chapter)).map_values(item),
        decreases regions.len() - index,
    {
        let entry = regions[index];
        proof {
            let next = regions@.take(index as int + 1);
            assert(next.drop_last() =~= regions@.take(index as int));
            reveal(Seq::filter);
            if holding(chapter)(entry) {
                assert(next.filter(holding(chapter)).map_values(item) =~= result@.push(
                    item(entry),
                ));
            }
        }
        let kind = entry.region.kind;
        if (chapter || entry.in_scope) && (kind == LayoutKind::Panel || kind
            == LayoutKind::Bubble) {
            if let Some((bounds, center)) = entry.region.place {
                result.push(LayoutItem { kind, bounds, center });
            }
        }
        index += 1;
    }
    proof {
        assert(regions@.take(index as int) =~= regions@);
    }
    result
}

/// Detected text and sound effects are text regions with a layer, bubbles are drawn by their
/// outline, and only text that was painted is turned.
pub proof fn law_labels_name_regions(label: Seq<char>, paint: Option<TextPaint>)
    ensures
        label == "text"@ ==> {
            &&& plan_of(label, paint).kind == RegionKind::Text
            &&& plan_of(label, paint).role == Some(TextRole::FreeText)
        },
        label == "onomatopoeia"@ ==> {
            &&& plan_of(label, paint).kind == RegionKind::Text
            &&& plan_of(label, paint).role == Some(TextRole::Onomatopoeia)
        },
        label == "text"@ || label == "onomatopoeia"@ ==> {
            &&& plan_of(label, paint).typography is Some
            &&& plan_of(label, paint).shape == (if paint is Some {
                RegionShape::TurnedBounds
            } else {
                RegionShape::Bounds
            })
        },
        label == "bubble"@ ==> {
            &&& plan_of(label, paint).kind == RegionKind::Bubble
            &&& plan_of(label, paint).shape == RegionShape::Outline
        },
        label == "panel"@ ==> {
            &&& plan_of(label, paint).kind == RegionKind::Panel
            &&& plan_of(label, paint).shape == RegionShape::Bounds
        },
        label != "text"@ && label != "onomatopoeia"@ && label != "bubble"@ && label != "panel"@ ==> {
            &&& plan_of(label, paint).kind == RegionKind::Unknown
            &&& plan_of(label, paint).shape == RegionShape::Bounds
        },
        label != "text"@ && label != "onomatopoeia"@ ==> {
            &&& plan_of(label, paint).role is None
            &&& plan_of(label, paint).typography is None
        },
{
    reveal_strlit("text");
    reveal_strlit("onomatopoeia");
    reveal_strlit("bubble");
    reveal_strlit("panel");
    assert("text"@.len() == 4 && "onomatopoeia"@.len() == 12 && "bubble"@.len() == 6
        && "panel"@.len() == 5);
}

/// A layer of text has the colors of its paint, channel by channel and with full opacity, and its
/// stroke. Without paint it has none of them. Its text is fitted in either case.
pub proof fn law_layers_take_over_their_paint(paint: Option<TextPaint>)
    ensures
        typography_of(paint).auto_fit,
        paint is None ==> typography_of(paint).color is None && typography_of(
            paint,
        ).stroke_color is None && typography_of(paint).stroke_width is None,
        paint matches Some(inferred) ==> {
            &&& typography_of(paint).color matches Some(color)
            &&& color@ == inferred.color@.push(255)
            &&& typography_of(paint).stroke_color is Some == inferred.stroke_color is Some
            &&& typography_of(paint).stroke_color matches Some(stroke) ==> stroke@
                == inferred.stroke_color->0@.push(255)
            &&& typography_of(paint).stroke_width == inferred.stroke_width
        },
{
    if let Some(inferred) = paint {
        assert(opaque_color(inferred.color)@ =~= inferred.color@.push(255));
        if let Some(stroke) = inferred.stroke_color {
            assert(opaque_color(stroke)@ =~= stroke@.push(255));
        }
    }
}

/// A sound effect fits its own region. Any other text flows in a bubble that holds it if there is
/// one, and of several in the smallest, the first of those.
pub proof fn law_text_flows_in_the_smallest_bubble(
    role: TextRole,
    areas: Seq<u32>,
    holds: Seq<bool>,
)
    requires
        areas.len() == holds.len(),
        holds.len() <= usize::MAX,
    ensures
        role == TextRole::Onomatopoeia ==> link_of(role, areas, holds) == TextLink::FitsRegion,
        (forall|i: int| 0 <= i < holds.len() ==> !#[trigger] holds[i]) ==> link_of(
            role,
            areas,
            holds,
        ) == TextLink::FitsRegion,
        role != TextRole::Onomatopoeia && (exists|i: int|
            0 <= i < holds.len() && #[trigger] holds[i]) ==> {
            &&& link_of(role, areas, holds) matches TextLink::FlowsInBubble(bubble)
            &&& bubble < holds.len() && holds[bubble as int]
            &&& forall|i: int|
                0 <= i < holds.len() && #[trigger] holds[i] ==> areas[bubble as int] <= areas[i]
            &&& forall|i: int|
                0 <= i < bubble && #[trigger] holds[i] ==> areas[bubble as int] < areas[i]
        },
{
    let all = Seq::new(holds.len(), |i: int| i);
    let keep = |i: int| holds[i];
    let found = holders(holds);
    lemma_ascending(holds, holds.len() as int);
    assert(all.take(holds.len() as int) =~= all);
    assert forall|i: int| 0 <= i < holds.len() && #[trigger] holds[i] implies found.contains(i) by {
        all.lemma_filter_contains(keep, i);
    }
    if found.len() > 0 {
        let keys = areas_of(areas, found);
        crate::extremum::lemma_first_min(keys);
        let best = first_min(keys);
        let bubble = found[best];
        assert(holds[bubble]);
        assert forall|i: int| 0 <= i < holds.len() && #[trigger] holds[i] implies areas[bubble]
            <= areas[i] && (i < bubble ==> areas[bubble] < areas[i]) by {
            assert(found.contains(i));
            let k = choose|k: int| 0 <= k < found.len() && found[k] == i;
            assert(keys[best] <= keys[k]);
            if i < bubble {
                assert(k < best) by {
                    if best < k {
                        assert(found[best] < found[k]);
                    }
                }
                assert(keys[best] < keys[k]);
            }
        }
    }
}

/// The bubbles that hold some text are listed in order.
proof fn lemma_ascending(holds: Seq<bool>, end: int)
    requires
        0 <= end <= holds.len(),
    ensures
        ({
            let found = Seq::new(holds.len(), |i: int| i).take(end).filter(|i: int| holds[i]);
            &&& forall|k: int| 0 <= k < found.len() ==> 0 <= #[trigger] found[k] < end
            &&& forall|k: int| 0 <= k < found.len() ==> holds[#[trigger] found[k]]
            &&& forall|k: int, l: int| 0 <= k < l < found.len() ==> found[k] < found[l]
        }),
    decreases end,
{
    reveal(Seq::filter);
    let all = Seq::new(holds.len(), |i: int| i);
    if end > 0 {
        let keep = |i: int| holds[i];
        lemma_ascending(holds, end - 1);
        assert(all.take(end).drop_last() =~= all.take(end - 1));
        assert(all.take(end).last() == end - 1);
        let shorter = all.take(end - 1).filter(keep);
        let found = all.take(end).filter(keep);
        assert(found == (if holds[end - 1] {
            shorter.push(end - 1)
        } else {
            shorter
        }));
        assert forall|k: int, l: int| 0 <= k < l < found.len() implies found[k] < found[l] by {
            assert(shorter[k] < end - 1);
        }
    }
}

/// A place keeps its new value exactly if it lies within the bounds.
pub proof fn law_bounds_enclose_places(
    x: int,
    y: int,
    left: int,
    top: int,
    right: int,
    bottom: int,
)
    ensures
        beyond(x, y, left, top, right, bottom) <==> !(left <= x < right && top <= y < bottom),
{
}

/// A page without text regions is detected. One whose first text region was drawn by hand is not,
/// and neither is one whose regions are all complete and do not repeat each other. Where all are
/// generated, one that is outdated, incomplete or repeated has the page detected anew.
pub proof fn law_detection_is_skipped_only_where_nothing_is_missing<R: Fn(usize, usize) -> bool>(
    facts: Seq<TextRegionFact>,
    repeats: R,
)
    requires
        facts.len() <= usize::MAX,
    ensures
        facts.len() == 0 ==> !detection_skipped(facts, repeats),
        facts.len() > 0 && !facts[0].generated ==> detection_skipped(facts, repeats),
        facts.len() > 0 && (forall|i: int|
            0 <= i < facts.len() ==> (#[trigger] facts[i]).generated && !facts[i].outdated
                && facts[i].recognized && facts[i].presented && facts[i].bounded) && (forall|
            left: usize,
            right: usize,
        |
            !#[trigger] call_ensures(repeats, (left, right), true)) ==> detection_skipped(
            facts,
            repeats,
        ),
        (forall|i: int| 0 <= i < facts.len() ==> (#[trigger] facts[i]).generated) && (exists|i: int|
            0 <= i < facts.len() && ((#[trigger] facts[i]).outdated || !facts[i].recognized
                || !facts[i].presented || !facts[i].bounded)) ==> !detection_skipped(facts, repeats),
        (forall|i: int| 0 <= i < facts.len() ==> (#[trigger] facts[i]).generated) && (exists|
            earlier: usize,
            later: usize,
        |
            earlier < later < facts.len() && #[trigger] call_ensures(
                repeats,
                (earlier, later),
                true,
            )) ==> !detection_skipped(facts, repeats),
{
    if forall|i: int| 0 <= i < facts.len() ==> (#[trigger] facts[i]).generated {
        if exists|i: int|
            0 <= i < facts.len() && ((#[trigger] facts[i]).outdated || !facts[i].recognized
                || !facts[i].presented || !facts[i].bounded) {
            let i = choose|i: int|
                0 <= i < facts.len() && ((#[trigger] facts[i]).outdated || !facts[i].recognized
                    || !facts[i].presented || !facts[i].bounded);
            assert(!settled_region(facts, repeats, i));
        }
        if exists|earlier: usize, later: usize|
            earlier < later < facts.len() && #[trigger] call_ensures(
                repeats,
                (earlier, later),
                true,
            ) {
            let (earlier, later) = choose|earlier: usize, later: usize|
                earlier < later < facts.len() && #[trigger] call_ensures(
                    repeats,
                    (earlier, later),
                    true,
                );
            assert((later as int) as usize == later);
            assert(!settled_region(facts, repeats, later as int));
        }
    }
}

/// Outside of a chapter only the containers in scope count: the others might as well not be there.
pub proof fn law_containers_out_of_scope_do_not_count(regions: Seq<ScopedRegion>)
    ensures
        regions.filter(holding(false)) == regions.filter(
            |entry: ScopedRegion| entry.in_scope,
        ).filter(holding(true)),
        forall|i: int|
            0 <= i < regions.filter(holding(false)).len() ==> (#[trigger] regions.filter(
                holding(false),
            )[i]).in_scope,
        forall|i: int|
            0 <= i < regions.filter(holding(true)).len() ==> {
                let region = (#[trigger] regions.filter(holding(true))[i]).region;
                &&& region.kind == LayoutKind::Panel || region.kind == LayoutKind::Bubble
                &&& region.place is Some
            },
    decreases regions.len(),
{
    let inside = |entry: ScopedRegion| entry.in_scope;
    assert forall|i: int| 0 <= i < regions.filter(holding(false)).len() implies (
    #[trigger] regions.filter(holding(false))[i]).in_scope by {
        regions.lemma_filter_pred(holding(false), i);
    }
    assert forall|i: int| 0 <= i < regions.filter(holding(true)).len() implies {
        let region = (#[trigger] regions.filter(holding(true))[i]).region;
        &&& region.kind == LayoutKind::Panel || region.kind == LayoutKind::Bubble
        &&& region.place is Some
    } by {
        regions.lemma_filter_pred(holding(true), i);
    }
    reveal(Seq::filter);
    if regions.len() > 0 {
        let rest = regions.drop_last();
        law_containers_out_of_scope_do_not_count(rest);
        if inside(regions.last()) {
            assert(rest.filter(inside).push(regions.last()).drop_last() =~= rest.filter(inside));
        }
    }
}

/// New text comes last among the items of a page. Before it come the panels and bubbles that have
/// a place, and between them and it the text layers that have one.
pub proof fn law_containers_come_before_texts(
    regions: Seq<RegionFact>,
    layers: Seq<LayerFact>,
    inserted: ([u64; 4], [u64; 2]),
    at: int,
)
    requires
        0 <= at < page_items(regions, layers, inserted).len(),
    ensures
        page_items(regions, layers, inserted).len() == regions.filter(framing()).len()
            + layers.filter(placed_layer()).len() + 1,
        page_layers(regions, layers).len() == page_items(regions, layers, inserted).len(),
        at < regions.filter(framing()).len() ==> {
            let item = page_items(regions, layers, inserted)[at];
            &&& item.kind == LayoutKind::Panel || item.kind == LayoutKind::Bubble
            &&& page_layers(regions, layers)[at] is None
        },
        regions.filter(framing()).len() <= at ==> page_items(regions, layers, inserted)[at].kind
            == LayoutKind::Text,
        regions.filter(framing()).len() <= at < page_items(regions, layers, inserted).len() - 1 ==> {
            let layer = layers.filter(placed_layer())[at - regions.filter(framing()).len()];
            let item = page_items(regions, layers, inserted)[at];
            &&& page_layers(regions, layers)[at] == Some(layer.layer)
            &&& layer.place == Some((item.bounds, item.center))
        },
        at == page_items(regions, layers, inserted).len() - 1 ==> {
            let item = page_items(regions, layers, inserted)[at];
            &&& item.bounds == inserted.0 && item.center == inserted.1
            &&& page_layers(regions, layers)[at] is None
        },
{
    let frames = regions.filter(framing());
    let texts = layers.filter(placed_layer());
    if at < frames.len() {
        regions.lemma_filter_pred(framing(), at);
    } else if at < frames.len() + texts.len() {
        layers.lemma_filter_pred(placed_layer(), at - frames.len());
    }
}

/// Only what a detection itself made in scope is replaced, and nothing but regions.
pub proof fn law_only_own_regions_are_replaced(facts: Seq<EntityFact>, value: usize)
    requires
        facts.len() <= usize::MAX,
    ensures
        selected(facts.len(), |i: usize| facts[i as int].replaced()).contains(value) <==> value
            < facts.len() && facts[value as int].in_scope && facts[value as int].own
            && facts[value as int].is_region,
{
    let condition = |i: usize| facts[i as int].replaced();
    crate::ordering::lemma_selected(facts.len(), condition);
    let list = selected(facts.len(), condition);
    if list.contains(value) {
        let k = choose|k: int| 0 <= k < list.len() && list[k] == value;
        assert(condition(list[k]));
    } else if value < facts.len() {
        assert(!condition(value));
    }
}

} // verus!
