//! The order in which the regions of a page are read.
//!
//! Where regions lie is measured in floating-point numbers. What the order needs of them is
//! either an order, which the bits of the numbers give, or a measurement, which the caller
//! provides as a function.

use vstd::prelude::*;

use crate::bits::{double_key, double_order, reversed};
use crate::language::Language;
use crate::lists::{
    append_all, contents, find_least, flat, least_element, lemma_filter_same, lemma_filter_split,
    lemma_flat_contains, lemma_flat_extended, lemma_flat_push, lemma_flat_same,
    lemma_same_elements_len, lemma_sum_elements, same_elements,
};
use crate::ordering::places;
use crate::sorting::{
    by_keys, lemma_by_keys, lemma_sorted, lemma_sorted_unique, sort_by_keys, sorted,
};

verus! {

/// What kind of region an item is.
#[derive(Clone, Copy, Debug, PartialEq, Eq, Structural)]
pub enum LayoutKind {
    Panel,
    Bubble,
    Text,
    Other,
}

/// Whether a page is read by rows or by columns.
#[derive(Clone, Copy, Debug, PartialEq, Eq, Structural)]
pub enum ReadingOrder {
    RowMajor,
    ColumnMajor,
}

#[derive(Clone, Copy, Debug, PartialEq, Eq, Structural)]
pub enum SpatialAxis {
    X,
    Y,
}

impl ReadingOrder {
    pub open spec fn of(language: Language) -> ReadingOrder {
        match language {
            Language::Japanese => ReadingOrder::ColumnMajor,
            Language::ChineseSimplified => ReadingOrder::ColumnMajor,
            Language::ChineseTraditional => ReadingOrder::ColumnMajor,
            _ => ReadingOrder::RowMajor,
        }
    }

    /// Japanese and Chinese pages are read by columns, all others by rows.
    pub fn for_language(language: Language) -> (result: ReadingOrder)
        ensures
            result == ReadingOrder::of(language),
    {
        match language {
            Language::Japanese => ReadingOrder::ColumnMajor,
            Language::ChineseSimplified => ReadingOrder::ColumnMajor,
            Language::ChineseTraditional => ReadingOrder::ColumnMajor,
            _ => ReadingOrder::RowMajor,
        }
    }

    /// The axis along which columns or rows follow each other.
    pub open spec fn main_axis(self) -> SpatialAxis {
        match self {
            ReadingOrder::ColumnMajor => SpatialAxis::X,
            ReadingOrder::RowMajor => SpatialAxis::Y,
        }
    }

    pub open spec fn cross_axis(self) -> SpatialAxis {
        match self {
            ReadingOrder::ColumnMajor => SpatialAxis::Y,
            ReadingOrder::RowMajor => SpatialAxis::X,
        }
    }
}

/// A region: its kind, its left, top, right and bottom bound, and its center on both axes,
/// as the bits of double-precision numbers.
#[derive(Clone, Copy, Debug)]
pub struct LayoutItem {
    pub kind: LayoutKind,
    pub bounds: [u64; 4],
    pub center: [u64; 2],
}

impl LayoutItem {
    /// Where the item starts along an axis.
    pub open spec fn start(self, axis: SpatialAxis) -> i64 {
        match axis {
            SpatialAxis::X => double_order(self.bounds@[0]) as i64,
            SpatialAxis::Y => double_order(self.bounds@[1]) as i64,
        }
    }

    /// Where the item starts across an axis.
    pub open spec fn cross_start(self, axis: SpatialAxis) -> i64 {
        match axis {
            SpatialAxis::X => double_order(self.bounds@[1]) as i64,
            SpatialAxis::Y => double_order(self.bounds@[0]) as i64,
        }
    }

    /// Where the item's center is along an axis.
    pub open spec fn middle(self, axis: SpatialAxis) -> i64 {
        match axis {
            SpatialAxis::X => double_order(self.center@[0]) as i64,
            SpatialAxis::Y => double_order(self.center@[1]) as i64,
        }
    }

    fn start_key(&self, axis: SpatialAxis) -> (result: i64)
        ensures
            result == self.start(axis),
    {
        match axis {
            SpatialAxis::X => double_key(self.bounds[0]),
            SpatialAxis::Y => double_key(self.bounds[1]),
        }
    }

    fn cross_key(&self, axis: SpatialAxis) -> (result: i64)
        ensures
            result == self.cross_start(axis),
    {
        match axis {
            SpatialAxis::X => double_key(self.bounds[1]),
            SpatialAxis::Y => double_key(self.bounds[0]),
        }
    }

    fn middle_key(&self, axis: SpatialAxis) -> (result: i64)
        ensures
            result == self.middle(axis),
    {
        match axis {
            SpatialAxis::X => double_key(self.center[0]),
            SpatialAxis::Y => double_key(self.center[1]),
        }
    }
}

/// Measurements of items: whether an item joins a group, given all items that are divided
/// into groups; where the center of a group is; and whether an item starts a new group
/// after another group of panels.
pub struct Metrics<J, C, B> {
    pub joins: J,
    pub center: C,
    pub breaks: B,
}

/// Measurements as mathematical functions.
pub struct Geometry {
    pub joins: spec_fn(Seq<usize>, Seq<usize>, usize) -> bool,
    pub center: spec_fn(Seq<usize>) -> i64,
    pub breaks: spec_fn(Seq<usize>, usize, SpatialAxis) -> bool,
}

impl<
    J: Fn(&Vec<usize>, &Vec<usize>, usize) -> bool,
    C: Fn(&Vec<usize>) -> i64,
    B: Fn(&Vec<usize>, usize, SpatialAxis) -> bool,
> Metrics<J, C, B> {
    /// The measurements can always be made, and the same items give the same ones.
    pub open spec fn steady(&self) -> bool {
        &&& forall|all: &Vec<usize>, group: &Vec<usize>, index: usize| #[trigger]
            call_requires(self.joins, (all, group, index))
        &&& forall|group: &Vec<usize>| #[trigger] call_requires(self.center, (group,))
        &&& forall|group: &Vec<usize>, index: usize, axis: SpatialAxis| #[trigger]
            call_requires(self.breaks, (group, index, axis))
        &&& forall|
            all: &Vec<usize>,
            group: &Vec<usize>,
            other_all: &Vec<usize>,
            other: &Vec<usize>,
            index: usize,
            left: bool,
            right: bool,
        | #[trigger]
            call_ensures(self.joins, (all, group, index), left) && #[trigger] call_ensures(
                self.joins,
                (other_all, other, index),
                right,
            ) && all@ == other_all@ && group@ == other@ ==> left == right
        &&& forall|group: &Vec<usize>, other: &Vec<usize>, left: i64, right: i64| #[trigger]
            call_ensures(self.center, (group,), left) && #[trigger] call_ensures(
                self.center,
                (other,),
                right,
            ) && group@ == other@ ==> left == right
        &&& forall|
            group: &Vec<usize>,
            other: &Vec<usize>,
            index: usize,
            axis: SpatialAxis,
            left: bool,
            right: bool,
        | #[trigger]
            call_ensures(self.breaks, (group, index, axis), left) && #[trigger] call_ensures(
                self.breaks,
                (other, index, axis),
                right,
            ) && group@ == other@ ==> left == right
    }

    pub open spec fn measured_center(&self, group: Seq<usize>, key: i64) -> bool {
        exists|g: &Vec<usize>| g@ == group && #[trigger] call_ensures(self.center, (g,), key)
    }

    /// The measurements as mathematical functions.
    pub open spec fn geometry(&self) -> Geometry {
        Geometry {
            joins: |all: Seq<usize>, group: Seq<usize>, index: usize|
                exists|a: &Vec<usize>, g: &Vec<usize>|
                    a@ == all && g@ == group && #[trigger] call_ensures(
                        self.joins,
                        (a, g, index),
                        true,
                    ),
            center: |group: Seq<usize>|
                choose|key: i64| self.measured_center(group, key),
            breaks: |group: Seq<usize>, index: usize, axis: SpatialAxis|
                exists|g: &Vec<usize>|
                    g@ == group && #[trigger] call_ensures(self.breaks, (g, index, axis), true),
        }
    }

    fn joins_group(&self, all: &Vec<usize>, group: &Vec<usize>, index: usize) -> (result: bool)
        requires
            self.steady(),
        ensures
            result == (self.geometry().joins)(all@, group@, index),
    {
        let joins = &self.joins;
        joins(all, group, index)
    }

    fn center_of(&self, group: &Vec<usize>) -> (result: i64)
        requires
            self.steady(),
        ensures
            result == (self.geometry().center)(group@),
    {
        let center = &self.center;
        let result: i64 = center(group);
        assert(self.measured_center(group@, result));
        result
    }

    fn breaks_group(&self, group: &Vec<usize>, index: usize, axis: SpatialAxis) -> (result: bool)
        requires
            self.steady(),
        ensures
            result == (self.geometry().breaks)(group@, index, axis),
    {
        let breaks = &self.breaks;
        breaks(group, index, axis)
    }
}

/// The order of items by their centers along the main axis, then by where they start across it.
pub open spec fn center_keys(items: Seq<LayoutItem>, order: ReadingOrder) -> Seq<(i64, i128)> {
    items.map_values(
        |item: LayoutItem|
            match order {
                ReadingOrder::ColumnMajor => (
                    (-1 - item.middle(SpatialAxis::X)) as i64,
                    item.cross_start(SpatialAxis::X) as i128,
                ),
                ReadingOrder::RowMajor => (
                    item.middle(SpatialAxis::Y),
                    item.cross_start(SpatialAxis::Y) as i128,
                ),
            },
    )
}

/// The order of the items of one column or row.
pub open spec fn line_keys(items: Seq<LayoutItem>, order: ReadingOrder) -> Seq<(i64, i128)> {
    items.map_values(
        |item: LayoutItem|
            (item.cross_start(order.main_axis()), item.start(order.main_axis()) as i128),
    )
}

/// The order of items by where they start along an axis.
pub open spec fn start_keys(items: Seq<LayoutItem>, axis: SpatialAxis) -> Seq<(i64, i128)> {
    items.map_values(|item: LayoutItem| (item.start(axis), 0i128))
}

/// The first group, from a place on, that an item joins; the number of groups where it joins
/// none.
pub open spec fn first_joined(
    geometry: Geometry,
    all: Seq<usize>,
    groups: Seq<Seq<usize>>,
    index: usize,
    from: int,
) -> int
    decreases groups.len() - from,
{
    if from < 0 || from >= groups.len() {
        groups.len() as int
    } else if (geometry.joins)(all, groups[from], index) {
        from
    } else {
        first_joined(geometry, all, groups, index, from + 1)
    }
}

/// The groups once an item has joined the first that it fits, or begun one of its own.
pub open spec fn placed(
    geometry: Geometry,
    all: Seq<usize>,
    groups: Seq<Seq<usize>>,
    index: usize,
) -> Seq<Seq<usize>> {
    let group = first_joined(geometry, all, groups, index, 0);
    if group < groups.len() {
        groups.update(group, groups[group].push(index))
    } else {
        groups.push(seq![index])
    }
}

/// The groups of the first items of a list.
pub open spec fn groups_of(geometry: Geometry, all: Seq<usize>, end: int) -> Seq<Seq<usize>>
    decreases end,
{
    if end <= 0 {
        Seq::empty()
    } else {
        placed(geometry, all, groups_of(geometry, all, end - 1), all[end - 1])
    }
}

/// The order of groups by their centers along the main axis, then by their first items.
pub open spec fn group_keys(geometry: Geometry, groups: Seq<Seq<usize>>, order: ReadingOrder) -> Seq<
    (i64, i128),
> {
    groups.map_values(
        |group: Seq<usize>|
            match order {
                ReadingOrder::ColumnMajor => (
                    (-1 - (geometry.center)(group)) as i64,
                    least_element(group) as i128,
                ),
                ReadingOrder::RowMajor => ((geometry.center)(group), least_element(group) as i128),
            },
    )
}

/// The columns or rows of some items, in order, each of them in order.
pub open spec fn lines(
    items: Seq<LayoutItem>,
    indices: Seq<usize>,
    order: ReadingOrder,
    geometry: Geometry,
) -> Seq<Seq<usize>> {
    let all = sorted(indices, center_keys(items, order));
    let groups = groups_of(geometry, all, all.len() as int);
    sorted(places(groups.len()), group_keys(geometry, groups, order)).map_values(
        |group: usize| sorted(groups[group as int], line_keys(items, order)),
    )
}

/// The groups of the first panels of a list, divided by the gaps between them.
pub open spec fn gap_groups(
    geometry: Geometry,
    all: Seq<usize>,
    axis: SpatialAxis,
    end: int,
) -> Seq<Seq<usize>>
    decreases end,
{
    if end <= 0 {
        Seq::empty()
    } else {
        let groups = gap_groups(geometry, all, axis, end - 1);
        let index = all[end - 1];
        if groups.len() == 0 || (geometry.breaks)(groups.last(), index, axis) {
            groups.push(seq![index])
        } else {
            groups.update(groups.len() - 1, groups.last().push(index))
        }
    }
}

pub open spec fn axis_groups(
    items: Seq<LayoutItem>,
    indices: Seq<usize>,
    axis: SpatialAxis,
    geometry: Geometry,
) -> Seq<Seq<usize>> {
    let all = sorted(indices, start_keys(items, axis));
    gap_groups(geometry, all, axis, all.len() as int)
}

/// Panels divided by gaps along the main axis or, where there is none, across it; columns from
/// right to left.
pub open spec fn panel_groups(
    items: Seq<LayoutItem>,
    indices: Seq<usize>,
    order: ReadingOrder,
    geometry: Geometry,
) -> Option<Seq<Seq<usize>>> {
    let main = axis_groups(items, indices, order.main_axis(), geometry);
    let cross = axis_groups(items, indices, order.cross_axis(), geometry);
    if main.len() > 1 {
        Some(
            if order == ReadingOrder::ColumnMajor {
                main.reverse()
            } else {
                main
            },
        )
    } else if cross.len() > 1 {
        Some(cross)
    } else {
        None
    }
}

pub open spec fn is_panel(items: Seq<LayoutItem>) -> spec_fn(usize) -> bool {
    |index: usize| items[index as int].kind == LayoutKind::Panel
}

/// The list with its panels replaced, one after the other, by those of another list.
pub open spec fn with_panels(
    items: Seq<LayoutItem>,
    list: Seq<usize>,
    panels: Seq<usize>,
) -> Seq<usize>
    decreases list.len(),
{
    if list.len() == 0 {
        Seq::empty()
    } else {
        let rest = list.drop_last();
        let index = list.last();
        with_panels(items, rest, panels).push(
            if is_panel(items)(index) {
                panels[rest.filter(is_panel(items)).len() as int]
            } else {
                index
            },
        )
    }
}

/// Some items in the order in which they are read.
pub open spec fn spatial(
    items: Seq<LayoutItem>,
    indices: Seq<usize>,
    order: ReadingOrder,
    geometry: Geometry,
) -> Seq<usize>
    decreases indices.len(), 1int, 0int,
{
    let panels = indices.filter(is_panel(items));
    if indices.len() < 2 {
        indices
    } else if panels.len() == indices.len() && panel_groups(
        items,
        indices,
        order,
        geometry,
    ) is Some {
        spatial_groups(
            items,
            panel_groups(items, indices, order, geometry)->0,
            indices.len(),
            order,
            geometry,
        )
    } else if 1 < panels.len() < indices.len() {
        with_panels(
            items,
            flat(lines(items, indices, order, geometry)),
            spatial(items, panels, order, geometry),
        )
    } else {
        flat(lines(items, indices, order, geometry))
    }
}

/// Groups that are shorter than a bound, one after the other, each in the order in which it is
/// read.
pub open spec fn spatial_groups(
    items: Seq<LayoutItem>,
    groups: Seq<Seq<usize>>,
    bound: nat,
    order: ReadingOrder,
    geometry: Geometry,
) -> Seq<usize>
    decreases bound, 0int, groups.len(),
{
    if groups.len() == 0 {
        Seq::empty()
    } else {
        spatial_groups(items, groups.drop_last(), bound, order, geometry) + (if groups.last().len()
            < bound {
            spatial(items, groups.last(), order, geometry)
        } else {
            groups.last()
        })
    }
}

/// Every index belongs to an item.
pub open spec fn known(items: Seq<LayoutItem>, indices: Seq<usize>) -> bool {
    forall|i: int| 0 <= i < indices.len() ==> (#[trigger] indices[i]) < items.len()
}

proof fn lemma_known_same(items: Seq<LayoutItem>, left: Seq<usize>, right: Seq<usize>)
    requires
        known(items, left),
        same_elements(left, right),
    ensures
        known(items, right),
{
    lemma_same_elements_len(left, right);
    assert forall|i: int| 0 <= i < right.len() implies (#[trigger] right[i]) < items.len() by {
        assert(right.contains(right[i]));
        assert(left.contains(right[i]));
        let j = choose|j: int| 0 <= j < left.len() && left[j] == right[i];
        assert(left[j] < items.len());
    }
}

fn keys_of_centers(items: &Vec<LayoutItem>, order: ReadingOrder) -> (result: Vec<(i64, i128)>)
    ensures
        result@ == center_keys(items@, order),
{
    let mut keys: Vec<(i64, i128)> = Vec::new();
    let mut index: usize = 0;
    while index < items.len()
        invariant
            index <= items.len(),
            keys.len() == index,
            forall|i: int| 0 <= i < index ==> #[trigger] keys@[i] == center_keys(items@, order)[i],
        decreases items.len() - index,
    {
        let item = items[index];
        keys.push(
            match order {
                ReadingOrder::ColumnMajor => (
                    reversed(item.middle_key(SpatialAxis::X)),
                    item.cross_key(SpatialAxis::X) as i128,
                ),
                ReadingOrder::RowMajor => (
                    item.middle_key(SpatialAxis::Y),
                    item.cross_key(SpatialAxis::Y) as i128,
                ),
            },
        );
        index += 1;
    }
    proof {
        assert(keys@ =~= center_keys(items@, order));
    }
    keys
}

fn main_axis_of(order: ReadingOrder) -> (result: SpatialAxis)
    ensures
        result == order.main_axis(),
{
    match order {
        ReadingOrder::ColumnMajor => SpatialAxis::X,
        ReadingOrder::RowMajor => SpatialAxis::Y,
    }
}

fn cross_axis_of(order: ReadingOrder) -> (result: SpatialAxis)
    ensures
        result == order.cross_axis(),
{
    match order {
        ReadingOrder::ColumnMajor => SpatialAxis::Y,
        ReadingOrder::RowMajor => SpatialAxis::X,
    }
}

fn keys_of_lines(items: &Vec<LayoutItem>, order: ReadingOrder) -> (result: Vec<(i64, i128)>)
    ensures
        result@ == line_keys(items@, order),
{
    let axis = main_axis_of(order);
    let mut keys: Vec<(i64, i128)> = Vec::new();
    let mut index: usize = 0;
    while index < items.len()
        invariant
            index <= items.len(),
            axis == order.main_axis(),
            keys.len() == index,
            forall|i: int| 0 <= i < index ==> #[trigger] keys@[i] == line_keys(items@, order)[i],
        decreases items.len() - index,
    {
        keys.push((items[index].cross_key(axis), items[index].start_key(axis) as i128));
        index += 1;
    }
    proof {
        assert(keys@ =~= line_keys(items@, order));
    }
    keys
}

fn keys_of_starts(items: &Vec<LayoutItem>, axis: SpatialAxis) -> (result: Vec<(i64, i128)>)
    ensures
        result@ == start_keys(items@, axis),
{
    let mut keys: Vec<(i64, i128)> = Vec::new();
    let mut index: usize = 0;
    while index < items.len()
        invariant
            index <= items.len(),
            keys.len() == index,
            forall|i: int| 0 <= i < index ==> #[trigger] keys@[i] == start_keys(items@, axis)[i],
        decreases items.len() - index,
    {
        keys.push((items[index].start_key(axis), 0));
        index += 1;
    }
    proof {
        assert(keys@ =~= start_keys(items@, axis));
    }
    keys
}

/// Divides items into groups, each item joining the first group that it fits.
fn divide<
    J: Fn(&Vec<usize>, &Vec<usize>, usize) -> bool,
    C: Fn(&Vec<usize>) -> i64,
    B: Fn(&Vec<usize>, usize, SpatialAxis) -> bool,
>(all: &Vec<usize>, metrics: &Metrics<J, C, B>) -> (result: Vec<Vec<usize>>)
    requires
        metrics.steady(),
    ensures
        contents(result@) == groups_of(metrics.geometry(), all@, all.len() as int),
{
    let ghost geometry = metrics.geometry();
    let mut groups: Vec<Vec<usize>> = Vec::new();
    let mut index: usize = 0;
    proof {
        assert(contents(groups@) =~= groups_of(geometry, all@, 0));
    }
    while index < all.len()
        invariant
            index <= all.len(),
            metrics.steady(),
            geometry == metrics.geometry(),
            contents(groups@) == groups_of(geometry, all@, index as int),
        decreases all.len() - index,
    {
        let item: usize = all[index];
        let ghost before = contents(groups@);
        let mut group: usize = 0;
        while group < groups.len() && !metrics.joins_group(all, &groups[group], item)
            invariant
                group <= groups.len(),
                metrics.steady(),
                geometry == metrics.geometry(),
                before == contents(groups@),
                first_joined(geometry, all@, before, item, 0) == first_joined(
                    geometry,
                    all@,
                    before,
                    item,
                    group as int,
                ),
            decreases groups.len() - group,
        {
            assert(before[group as int] == groups@[group as int]@);
            group += 1;
        }
        if group < groups.len() {
            assert(before[group as int] == groups@[group as int]@);
            groups[group].push(item);
            proof {
                assert(contents(groups@) =~= before.update(
                    group as int,
                    before[group as int].push(item),
                ));
            }
        } else {
            let mut list: Vec<usize> = Vec::new();
            list.push(item);
            proof {
                assert(list@ =~= seq![item]);
            }
            groups.push(list);
            proof {
                assert(contents(groups@) =~= before.push(seq![item]));
            }
        }
        index += 1;
    }
    groups
}

proof fn lemma_first_joined(
    geometry: Geometry,
    all: Seq<usize>,
    groups: Seq<Seq<usize>>,
    index: usize,
    from: int,
)
    requires
        0 <= from <= groups.len(),
    ensures
        0 <= first_joined(geometry, all, groups, index, from) <= groups.len(),
    decreases groups.len() - from,
{
    if from < groups.len() {
        lemma_first_joined(geometry, all, groups, index, from + 1);
    }
}

/// The groups hold the items of the list, and none of them is empty.
pub proof fn lemma_groups_of(geometry: Geometry, all: Seq<usize>, end: int)
    requires
        0 <= end <= all.len(),
    ensures
        same_elements(flat(groups_of(geometry, all, end)), all.take(end)),
        forall|i: int|
            0 <= i < groups_of(geometry, all, end).len() ==> (#[trigger] groups_of(
                geometry,
                all,
                end,
            )[i]).len() > 0,
    decreases end,
{
    if end <= 0 {
        assert(flat(groups_of(geometry, all, end)) =~= all.take(end));
    } else {
        lemma_groups_of(geometry, all, end - 1);
        let groups = groups_of(geometry, all, end - 1);
        let index = all[end - 1];
        let group = first_joined(geometry, all, groups, index, 0);
        lemma_first_joined(geometry, all, groups, index, 0);
        assert(all.take(end) =~= all.take(end - 1).push(index));
        vstd::seq_lib::to_multiset_build(all.take(end - 1), index);
        if group < groups.len() {
            lemma_flat_extended(groups, group, index);
        } else {
            lemma_flat_push(groups, seq![index]);
            assert(flat(groups) + seq![index] =~= flat(groups).push(index));
            vstd::seq_lib::to_multiset_build(flat(groups), index);
        }
    }
}

/// Sorting each of some lists, and the lists themselves, keeps the elements.
proof fn lemma_lines(
    items: Seq<LayoutItem>,
    indices: Seq<usize>,
    order: ReadingOrder,
    geometry: Geometry,
)
    requires
        indices.len() <= usize::MAX,
    ensures
        same_elements(flat(lines(items, indices, order, geometry)), indices),
{
    let all = sorted(indices, center_keys(items, order));
    let groups = groups_of(geometry, all, all.len() as int);
    lemma_sorted(indices, center_keys(items, order));
    lemma_groups_of(geometry, all, all.len() as int);
    assert(all.take(all.len() as int) =~= all);
    let keys = group_keys(geometry, groups, order);
    let arranged = sorted(places(groups.len()), keys);
    lemma_groups_count(geometry, all, all.len() as int);
    lemma_sorted(places(groups.len()), keys);
    let chosen = arranged.map_values(|group: usize| groups[group as int]);
    let result = lines(items, indices, order, geometry);
    assert forall|i: int| 0 <= i < result.len() implies same_elements(
        #[trigger] result[i],
        chosen[i],
    ) by {
        lemma_sorted(groups[arranged[i] as int], line_keys(items, order));
    }
    lemma_flat_same(result, chosen);
    lemma_flat_permuted(groups, arranged);
}

/// There are no more groups than items.
pub proof fn lemma_groups_count(geometry: Geometry, all: Seq<usize>, end: int)
    requires
        0 <= end <= all.len(),
    ensures
        groups_of(geometry, all, end).len() <= end,
    decreases end,
{
    if end > 0 {
        lemma_groups_count(geometry, all, end - 1);
        lemma_first_joined(
            geometry,
            all,
            groups_of(geometry, all, end - 1),
            all[end - 1],
            0,
        );
    }
}

/// Lists in another order have the same elements together.
proof fn lemma_flat_permuted(groups: Seq<Seq<usize>>, order: Seq<usize>)
    requires
        groups.len() <= usize::MAX,
        same_elements(order, places(groups.len())),
    ensures
        same_elements(flat(order.map_values(|group: usize| groups[group as int])), flat(groups)),
    decreases groups.len(),
{
    let chosen = order.map_values(|group: usize| groups[group as int]);
    lemma_same_elements_len(order, places(groups.len()));
    if groups.len() == 0 {
        assert(chosen =~= groups);
    } else {
        let last = (groups.len() - 1) as usize;
        assert(places(groups.len())[groups.len() - 1] == last);
        assert(places(groups.len()).contains(last));
        assert(order.contains(last));
        let at = choose|at: int| 0 <= at < order.len() && order[at] == last;
        let rest = order.remove(at);
        vstd::seq_lib::to_multiset_remove(order, at);
        vstd::seq_lib::to_multiset_remove(places(groups.len()), groups.len() - 1);
        assert(places(groups.len()).remove(groups.len() - 1) =~= places(
            (groups.len() - 1) as nat,
        ));
        assert(same_elements(rest, places((groups.len() - 1) as nat)));
        lemma_same_elements_len(rest, places((groups.len() - 1) as nat));
        let shorter = groups.drop_last();
        lemma_flat_permuted(shorter, rest);
        let picked = rest.map_values(|group: usize| groups[group as int]);
        assert forall|i: int| 0 <= i < rest.len() implies picked[i] == rest.map_values(
            |group: usize| shorter[group as int],
        )[i] by {
            assert(rest.contains(rest[i]));
            assert(places((groups.len() - 1) as nat).contains(rest[i]));
        }
        assert(picked =~= rest.map_values(|group: usize| shorter[group as int]));
        assert(picked =~= chosen.remove(at));
        lemma_flat_removed(chosen, at);
        lemma_sum_elements(flat(shorter), groups.last());
    }
}

/// Taking one list out takes its elements out.
proof fn lemma_flat_removed(lists: Seq<Seq<usize>>, at: int)
    requires
        0 <= at < lists.len(),
    ensures
        flat(lists).to_multiset() == flat(lists.remove(at)).to_multiset().add(
            lists[at].to_multiset(),
        ),
    decreases lists.len(),
{
    let rest = lists.drop_last();
    lemma_sum_elements(flat(rest), lists.last());
    if at == lists.len() - 1 {
        assert(lists.remove(at) =~= rest);
    } else {
        lemma_flat_removed(rest, at);
        let removed = lists.remove(at);
        assert(removed.drop_last() =~= rest.remove(at));
        assert(removed.last() == lists.last());
        lemma_sum_elements(flat(rest.remove(at)), lists.last());
        assert(flat(rest.remove(at)).to_multiset().add(lists[at].to_multiset()).add(
            lists.last().to_multiset(),
        ) =~= flat(rest.remove(at)).to_multiset().add(lists.last().to_multiset()).add(
            lists[at].to_multiset(),
        ));
    }
}

/// The groups between gaps hold the items of the list, and none of them is empty.
pub proof fn lemma_gap_groups(geometry: Geometry, all: Seq<usize>, axis: SpatialAxis, end: int)
    requires
        0 <= end <= all.len(),
    ensures
        flat(gap_groups(geometry, all, axis, end)) == all.take(end),
        gap_groups(geometry, all, axis, end).len() <= end,
        forall|i: int|
            0 <= i < gap_groups(geometry, all, axis, end).len() ==> (#[trigger] gap_groups(
                geometry,
                all,
                axis,
                end,
            )[i]).len() > 0,
    decreases end,
{
    if end <= 0 {
        assert(flat(gap_groups(geometry, all, axis, end)) =~= all.take(end));
    } else {
        lemma_gap_groups(geometry, all, axis, end - 1);
        let groups = gap_groups(geometry, all, axis, end - 1);
        let index = all[end - 1];
        assert(all.take(end) =~= all.take(end - 1).push(index));
        if groups.len() == 0 || (geometry.breaks)(groups.last(), index, axis) {
            lemma_flat_push(groups, seq![index]);
            assert(flat(groups) + seq![index] =~= flat(groups).push(index));
        } else {
            let changed = groups.update(groups.len() - 1, groups.last().push(index));
            assert(changed.drop_last() =~= groups.drop_last());
            assert(flat(groups.drop_last()) + groups.last().push(index) =~= (flat(
                groups.drop_last(),
            ) + groups.last()).push(index));
        }
    }
}

/// Several lists, none of them empty, are each shorter than all together.
proof fn lemma_flat_longer(lists: Seq<Seq<usize>>, index: int)
    requires
        lists.len() > 1,
        0 <= index < lists.len(),
        forall|i: int| 0 <= i < lists.len() ==> (#[trigger] lists[i]).len() > 0,
    ensures
        lists[index].len() < flat(lists).len(),
    decreases lists.len(),
{
    let rest = lists.drop_last();
    assert forall|i: int| 0 <= i < rest.len() implies (#[trigger] rest[i]).len() > 0 by {
        assert(rest[i] == lists[i]);
    }
    assert(lists[lists.len() - 1].len() > 0);
    if index == lists.len() - 1 {
        assert(rest[0].len() > 0);
        lemma_flat_member(rest, 0);
    } else if rest.len() > 1 {
        lemma_flat_longer(rest, index);
    } else {
        lemma_flat_member(rest, index);
    }
}

proof fn lemma_flat_member(lists: Seq<Seq<usize>>, index: int)
    requires
        0 <= index < lists.len(),
    ensures
        lists[index].len() <= flat(lists).len(),
    decreases lists.len(),
{
    if index < lists.len() - 1 {
        lemma_flat_member(lists.drop_last(), index);
    }
}

/// Lists in reverse order have the same elements together.
proof fn lemma_flat_reversed(lists: Seq<Seq<usize>>)
    ensures
        same_elements(flat(lists.reverse()), flat(lists)),
    decreases lists.len(),
{
    if lists.len() > 0 {
        let rest = lists.drop_last();
        lemma_flat_reversed(rest);
        let turned = lists.reverse();
        assert(turned.remove(0) =~= rest.reverse());
        lemma_flat_removed(turned, 0);
        assert(turned[0] == lists.last());
        lemma_sum_elements(flat(rest), lists.last());
    } else {
        assert(lists.reverse() =~= lists);
    }
}

/// Panels divided by gaps are the same panels, in shorter groups.
pub proof fn lemma_panel_groups(
    items: Seq<LayoutItem>,
    indices: Seq<usize>,
    order: ReadingOrder,
    geometry: Geometry,
)
    ensures
        panel_groups(items, indices, order, geometry) matches Some(groups) ==> {
            &&& same_elements(flat(groups), indices)
            &&& forall|i: int|
                0 <= i < groups.len() ==> (#[trigger] groups[i]).len() < indices.len()
        },
{
    lemma_axis_groups(items, indices, order.main_axis(), geometry);
    lemma_axis_groups(items, indices, order.cross_axis(), geometry);
    let main = axis_groups(items, indices, order.main_axis(), geometry);
    let cross = axis_groups(items, indices, order.cross_axis(), geometry);
    if main.len() > 1 {
        lemma_flat_reversed(main);
        assert forall|i: int| 0 <= i < main.len() implies (#[trigger] main[i]).len()
            < indices.len() by {
            lemma_flat_longer(main, i);
        }
    } else if cross.len() > 1 {
        assert forall|i: int| 0 <= i < cross.len() implies (#[trigger] cross[i]).len()
            < indices.len() by {
            lemma_flat_longer(cross, i);
        }
    }
}

proof fn lemma_axis_groups(
    items: Seq<LayoutItem>,
    indices: Seq<usize>,
    axis: SpatialAxis,
    geometry: Geometry,
)
    ensures
        same_elements(flat(axis_groups(items, indices, axis, geometry)), indices),
        flat(axis_groups(items, indices, axis, geometry)).len() == indices.len(),
        forall|i: int|
            0 <= i < axis_groups(items, indices, axis, geometry).len() ==> (#[trigger] axis_groups(
                items,
                indices,
                axis,
                geometry,
            )[i]).len() > 0,
{
    let all = sorted(indices, start_keys(items, axis));
    lemma_sorted(indices, start_keys(items, axis));
    lemma_gap_groups(geometry, all, axis, all.len() as int);
    assert(all.take(all.len() as int) =~= all);
}

/// Replacing the panels of a list by the same panels in another order keeps its elements.
proof fn lemma_with_panels(items: Seq<LayoutItem>, list: Seq<usize>, panels: Seq<usize>)
    requires
        forall|i: int| 0 <= i < panels.len() ==> is_panel(items)(#[trigger] panels[i]),
        list.filter(is_panel(items)).len() <= panels.len(),
    ensures
        with_panels(items, list, panels).len() == list.len(),
        with_panels(items, list, panels).filter(is_panel(items)) == panels.take(
            list.filter(is_panel(items)).len() as int,
        ),
        with_panels(items, list, panels).filter(|i: usize| !is_panel(items)(i)) == list.filter(
            |i: usize| !is_panel(items)(i),
        ),
    decreases list.len(),
{
    let keep = is_panel(items);
    reveal(Seq::filter);
    if list.len() == 0 {
        assert(with_panels(items, list, panels) =~= list);
        assert(list.filter(keep) =~= Seq::empty());
        assert(panels.take(0) =~= Seq::empty());
    } else {
        let rest = list.drop_last();
        let index = list.last();
        lemma_with_panels(items, rest, panels);
        let count = rest.filter(keep).len();
        let done = with_panels(items, rest, panels);
        let result = with_panels(items, list, panels);
        assert(result.drop_last() =~= done);
        if keep(index) {
            assert(keep(panels[count as int]));
            assert(panels.take(count as int + 1) =~= panels.take(count as int).push(
                panels[count as int],
            ));
        }
    }
}

/// The elements that pass a test do so.
proof fn lemma_filter_passes(list: Seq<usize>, keep: spec_fn(usize) -> bool)
    ensures
        forall|i: int| 0 <= i < list.filter(keep).len() ==> keep(#[trigger] list.filter(keep)[i]),
        list.filter(keep).len() <= list.len(),
        forall|i: int|
            0 <= i < list.filter(keep).len() ==> list.contains(#[trigger] list.filter(keep)[i]),
    decreases list.len(),
{
    reveal(Seq::filter);
    if list.len() > 0 {
        let rest = list.drop_last();
        lemma_filter_passes(rest, keep);
        assert forall|i: int| 0 <= i < list.filter(keep).len() implies list.contains(
            #[trigger] list.filter(keep)[i],
        ) by {
            if i < rest.filter(keep).len() {
                assert(rest.contains(rest.filter(keep)[i]));
                let j = choose|j: int| 0 <= j < rest.len() && rest[j] == rest.filter(keep)[i];
                assert(list[j] == rest[j]);
            } else {
                assert(list[list.len() - 1] == list.last());
            }
        }
    }
}

/// Bringing items into the order in which they are read loses none of them and repeats none.
pub proof fn law_spatial_keeps_items(
    items: Seq<LayoutItem>,
    indices: Seq<usize>,
    order: ReadingOrder,
    geometry: Geometry,
)
    requires
        indices.len() <= usize::MAX,
    ensures
        same_elements(spatial(items, indices, order, geometry), indices),
    decreases indices.len(), 1int, 0int,
{
    let keep = is_panel(items);
    let panels = indices.filter(keep);
    lemma_filter_passes(indices, keep);
    if indices.len() >= 2 {
        if panels.len() == indices.len() && panel_groups(items, indices, order, geometry) is Some {
            let groups = panel_groups(items, indices, order, geometry)->0;
            lemma_panel_groups(items, indices, order, geometry);
            lemma_spatial_groups(items, groups, indices.len(), order, geometry);
        } else {
            let base = flat(lines(items, indices, order, geometry));
            lemma_lines(items, indices, order, geometry);
            if 1 < panels.len() < indices.len() {
                law_spatial_keeps_items(items, panels, order, geometry);
                lemma_replaced(items, indices, base, spatial(items, panels, order, geometry));
            }
        }
    }
}

proof fn lemma_spatial_groups(
    items: Seq<LayoutItem>,
    groups: Seq<Seq<usize>>,
    bound: nat,
    order: ReadingOrder,
    geometry: Geometry,
)
    requires
        bound <= usize::MAX,
        forall|i: int| 0 <= i < groups.len() ==> (#[trigger] groups[i]).len() < bound,
    ensures
        same_elements(spatial_groups(items, groups, bound, order, geometry), flat(groups)),
    decreases bound, 0int, groups.len(),
{
    if groups.len() > 0 {
        let rest = groups.drop_last();
        assert forall|i: int| 0 <= i < rest.len() implies (#[trigger] rest[i]).len() < bound by {
            assert(rest[i] == groups[i]);
        }
        assert(groups[groups.len() - 1].len() < bound);
        lemma_spatial_groups(items, rest, bound, order, geometry);
        law_spatial_keeps_items(items, groups.last(), order, geometry);
        lemma_sum_elements(
            spatial_groups(items, rest, bound, order, geometry),
            spatial(items, groups.last(), order, geometry),
        );
        lemma_sum_elements(flat(rest), groups.last());
    }
}

proof fn lemma_replaced(
    items: Seq<LayoutItem>,
    indices: Seq<usize>,
    base: Seq<usize>,
    panels: Seq<usize>,
)
    requires
        same_elements(base, indices),
        same_elements(panels, indices.filter(is_panel(items))),
    ensures
        same_elements(with_panels(items, base, panels), indices),
        base.filter(is_panel(items)).len() == panels.len(),
        forall|i: int| 0 <= i < panels.len() ==> is_panel(items)(#[trigger] panels[i]),
{
    let keep = is_panel(items);
    let drop = |i: usize| !is_panel(items)(i);
    lemma_filter_same(base, indices, keep);
    lemma_same_elements_len(base.filter(keep), indices.filter(keep));
    lemma_same_elements_len(panels, indices.filter(keep));
    lemma_filter_passes(indices, keep);
    assert forall|i: int| 0 <= i < panels.len() implies keep(#[trigger] panels[i]) by {
        assert(panels.contains(panels[i]));
        let j = choose|j: int|
            0 <= j < indices.filter(keep).len() && indices.filter(keep)[j] == panels[i];
        assert(keep(indices.filter(keep)[j]));
    }
    lemma_with_panels(items, base, panels);
    assert(panels.take(panels.len() as int) =~= panels);
    let result = with_panels(items, base, panels);
    lemma_filter_split(result, keep);
    lemma_filter_split(base, keep);
    let other = |value: usize| !keep(value);
    assert(result.filter(other) == base.filter(other)) by {
        assert(other =~= drop);
    }
}

proof fn lemma_sorted_same(left: Seq<usize>, right: Seq<usize>, keys: Seq<(i64, i128)>)
    requires
        same_elements(left, right),
    ensures
        sorted(left, keys) == sorted(right, keys),
{
    lemma_sorted(left, keys);
    lemma_sorted(right, keys);
    lemma_by_keys(keys);
    lemma_sorted_unique(sorted(left, keys), sorted(right, keys), by_keys(keys));
}

/// Two lists of at most one element are equal where they have the same elements.
proof fn lemma_short_same(left: Seq<usize>, right: Seq<usize>)
    requires
        same_elements(left, right),
        left.len() < 2,
    ensures
        left == right,
{
    lemma_same_elements_len(left, right);
    if left.len() == 1 {
        assert(left.contains(left[0]));
        assert(right.contains(left[0]));
    }
    assert(left =~= right);
}

/// The order in which items are read does not depend on the order in which they were given.
pub proof fn law_spatial_ignores_the_old_order(
    items: Seq<LayoutItem>,
    left: Seq<usize>,
    right: Seq<usize>,
    order: ReadingOrder,
    geometry: Geometry,
)
    requires
        same_elements(left, right),
    ensures
        spatial(items, left, order, geometry) == spatial(items, right, order, geometry),
    decreases left.len(),
{
    let keep = is_panel(items);
    lemma_same_elements_len(left, right);
    lemma_filter_same(left, right, keep);
    lemma_same_elements_len(left.filter(keep), right.filter(keep));
    if left.len() < 2 {
        lemma_short_same(left, right);
    } else {
        lemma_sorted_same(left, right, start_keys(items, order.main_axis()));
        lemma_sorted_same(left, right, start_keys(items, order.cross_axis()));
        lemma_sorted_same(left, right, center_keys(items, order));
        if 1 < left.filter(keep).len() < left.len() {
            law_spatial_ignores_the_old_order(
                items,
                left.filter(keep),
                right.filter(keep),
                order,
                geometry,
            );
        }
    }
}

/// A list all of whose elements pass a test is left as it is, and so is one of which as many
/// pass as there are.
proof fn lemma_filter_all(list: Seq<usize>, keep: spec_fn(usize) -> bool)
    requires
        list.filter(keep).len() == list.len() || forall|i: int|
            0 <= i < list.len() ==> keep(#[trigger] list[i]),
    ensures
        list.filter(keep) == list,
    decreases list.len(),
{
    reveal(Seq::filter);
    if list.len() > 0 {
        let rest = list.drop_last();
        lemma_filter_passes(rest, keep);
        if list.filter(keep).len() != list.len() {
            assert forall|i: int| 0 <= i < rest.len() implies keep(#[trigger] rest[i]) by {
                assert(keep(list[i]));
            }
            assert(keep(list[list.len() - 1]));
        }
        lemma_filter_all(rest, keep);
        assert(rest.push(list.last()) =~= list);
    } else {
        assert(list.filter(keep) =~= list);
    }
}

/// Loose items leave the order of the panels alone: the panels are read in the order in which
/// they would be read by themselves.
pub proof fn law_panels_are_read_as_if_alone(
    items: Seq<LayoutItem>,
    indices: Seq<usize>,
    order: ReadingOrder,
    geometry: Geometry,
)
    requires
        indices.len() <= usize::MAX,
    ensures
        spatial(items, indices, order, geometry).filter(is_panel(items)) == spatial(
            items,
            indices.filter(is_panel(items)),
            order,
            geometry,
        ),
{
    let keep = is_panel(items);
    let panels = indices.filter(keep);
    let result = spatial(items, indices, order, geometry);
    lemma_filter_passes(indices, keep);
    law_spatial_keeps_items(items, indices, order, geometry);
    lemma_filter_same(result, indices, keep);
    lemma_same_elements_len(result, indices);
    lemma_same_elements_len(result.filter(keep), panels);
    if panels.len() == indices.len() {
        lemma_filter_all(indices, keep);
        lemma_filter_all(result, keep);
    } else if panels.len() > 1 {
        let base = flat(lines(items, indices, order, geometry));
        let alone = spatial(items, panels, order, geometry);
        lemma_lines(items, indices, order, geometry);
        law_spatial_keeps_items(items, panels, order, geometry);
        lemma_replaced(items, indices, base, alone);
        lemma_with_panels(items, base, alone);
        assert(alone.take(alone.len() as int) =~= alone);
    } else {
        lemma_short_same(result.filter(keep), panels);
    }
}

/// The columns or rows of some items, one after the other.
fn arrange_lines<
    J: Fn(&Vec<usize>, &Vec<usize>, usize) -> bool,
    C: Fn(&Vec<usize>) -> i64,
    B: Fn(&Vec<usize>, usize, SpatialAxis) -> bool,
>(
    items: &Vec<LayoutItem>,
    indices: &Vec<usize>,
    order: ReadingOrder,
    metrics: &Metrics<J, C, B>,
) -> (result: Vec<usize>)
    requires
        metrics.steady(),
        known(items@, indices@),
    ensures
        result@ == flat(lines(items@, indices@, order, metrics.geometry())),
{
    let ghost geometry = metrics.geometry();
    let all = sort_by_keys(indices, &keys_of_centers(items, order));
    let groups = divide(&all, metrics);
    let ghost shown = groups_of(geometry, all@, all.len() as int);
    proof {
        lemma_sorted(indices@, center_keys(items@, order));
        lemma_groups_of(geometry, all@, all.len() as int);
        assert(all@.take(all.len() as int) =~= all@);
        lemma_known_same(items@, indices@, all@);
        lemma_known_same(items@, all@, flat(shown));
    }
    let mut keys: Vec<(i64, i128)> = Vec::new();
    let mut numbers: Vec<usize> = Vec::new();
    let mut group: usize = 0;
    while group < groups.len()
        invariant
            group <= groups.len(),
            metrics.steady(),
            geometry == metrics.geometry(),
            contents(groups@) == shown,
            known(items@, flat(shown)),
            forall|i: int| 0 <= i < shown.len() ==> (#[trigger] shown[i]).len() > 0,
            keys.len() == group,
            numbers.len() == group,
            forall|i: int|
                0 <= i < group ==> #[trigger] keys@[i] == group_keys(geometry, shown, order)[i],
            forall|i: int| 0 <= i < group ==> #[trigger] numbers@[i] == i,
        decreases groups.len() - group,
    {
        assert(shown[group as int] == groups@[group as int]@);
        let center: i64 = metrics.center_of(&groups[group]);
        let first: usize = find_least(&groups[group]);
        proof {
            lemma_flat_contains(shown, group as int, first);
            let at = choose|at: int| 0 <= at < flat(shown).len() && flat(shown)[at] == first;
            assert(flat(shown)[at] < items.len());
        }
        keys.push(
            match order {
                ReadingOrder::ColumnMajor => (reversed(center), first as i128),
                ReadingOrder::RowMajor => (center, first as i128),
            },
        );
        numbers.push(group);
        group += 1;
    }
    proof {
        assert(keys@ =~= group_keys(geometry, shown, order));
        assert(numbers@ =~= places(shown.len()));
    }
    let arranged = sort_by_keys(&numbers, &keys);
    let line_order = keys_of_lines(items, order);
    let mut result: Vec<usize> = Vec::new();
    let mut line: usize = 0;
    let ghost all_lines = lines(items@, indices@, order, geometry);
    proof {
        assert(flat(all_lines.take(0)) =~= Seq::empty());
    }
    while line < arranged.len()
        invariant
            line <= arranged.len(),
            contents(groups@) == shown,
            known(items@, flat(shown)),
            forall|i: int| 0 <= i < arranged.len() ==> (#[trigger] arranged@[i]) < groups.len(),
            line_order@ == line_keys(items@, order),
            all_lines.len() == arranged.len(),
            forall|i: int|
                0 <= i < arranged.len() ==> #[trigger] all_lines[i] == sorted(
                    shown[arranged@[i] as int],
                    line_keys(items@, order),
                ),
            result@ == flat(all_lines.take(line as int)),
        decreases arranged.len() - line,
    {
        assert(arranged@[line as int] < groups.len());
        let list = &groups[arranged[line]];
        proof {
            let number = arranged@[line as int] as int;
            assert(shown[number] == list@);
            assert forall|i: int| 0 <= i < list.len() implies (#[trigger] list@[i])
                < line_order.len() by {
                assert(list@.contains(list@[i]));
                lemma_flat_contains(shown, number, list@[i]);
                let at = choose|at: int| 0 <= at < flat(shown).len() && flat(shown)[at] == list@[i];
                assert(flat(shown)[at] < items.len());
            }
        }
        let ordered = sort_by_keys(list, &line_order);
        append_all(&mut result, &ordered);
        proof {
            assert(all_lines.take(line as int + 1) =~= all_lines.take(line as int).push(
                all_lines[line as int],
            ));
            lemma_flat_push(all_lines.take(line as int), all_lines[line as int]);
        }
        line += 1;
    }
    proof {
        assert(all_lines.take(line as int) =~= all_lines);
    }
    result
}

/// Divides panels by the gaps along one axis.
fn divide_by_gaps<
    J: Fn(&Vec<usize>, &Vec<usize>, usize) -> bool,
    C: Fn(&Vec<usize>) -> i64,
    B: Fn(&Vec<usize>, usize, SpatialAxis) -> bool,
>(
    items: &Vec<LayoutItem>,
    indices: &Vec<usize>,
    axis: SpatialAxis,
    metrics: &Metrics<J, C, B>,
) -> (result: Vec<Vec<usize>>)
    requires
        metrics.steady(),
        known(items@, indices@),
    ensures
        contents(result@) == axis_groups(items@, indices@, axis, metrics.geometry()),
{
    let ghost geometry = metrics.geometry();
    let all = sort_by_keys(indices, &keys_of_starts(items, axis));
    let mut groups: Vec<Vec<usize>> = Vec::new();
    let mut index: usize = 0;
    proof {
        assert(contents(groups@) =~= gap_groups(geometry, all@, axis, 0));
    }
    while index < all.len()
        invariant
            index <= all.len(),
            metrics.steady(),
            geometry == metrics.geometry(),
            contents(groups@) == gap_groups(geometry, all@, axis, index as int),
        decreases all.len() - index,
    {
        let item: usize = all[index];
        let ghost before = contents(groups@);
        let fresh = if groups.len() == 0 {
            true
        } else {
            assert(before.last() == groups@[groups.len() - 1]@);
            metrics.breaks_group(&groups[groups.len() - 1], item, axis)
        };
        if fresh {
            let mut list: Vec<usize> = Vec::new();
            list.push(item);
            assert(list@ =~= seq![item]);
            groups.push(list);
            proof {
                assert(contents(groups@) =~= before.push(seq![item]));
            }
        } else {
            let last: usize = groups.len() - 1;
            groups[last].push(item);
            proof {
                assert(contents(groups@) =~= before.update(
                    last as int,
                    before.last().push(item),
                ));
            }
        }
        index += 1;
    }
    groups
}

fn reverse_groups(groups: &Vec<Vec<usize>>) -> (result: Vec<Vec<usize>>)
    ensures
        contents(result@) == contents(groups@).reverse(),
{
    let mut result: Vec<Vec<usize>> = Vec::new();
    let mut index: usize = 0;
    let ghost turned = contents(groups@).reverse();
    while index < groups.len()
        invariant
            index <= groups.len(),
            turned == contents(groups@).reverse(),
            contents(result@) == turned.take(index as int),
        decreases groups.len() - index,
    {
        let mut list: Vec<usize> = Vec::new();
        append_all(&mut list, &groups[groups.len() - 1 - index]);
        let ghost before = contents(result@);
        result.push(list);
        proof {
            assert(list@ =~= groups@[groups.len() - 1 - index]@);
            assert(turned[index as int] == list@);
            assert(contents(result@) =~= before.push(list@));
            assert(turned.take(index as int + 1) =~= turned.take(index as int).push(list@));
        }
        index += 1;
    }
    proof {
        assert(turned.take(index as int) =~= turned);
    }
    result
}

/// Divides panels by the gaps between them, if there are any.
pub fn panel_gap_groups<
    J: Fn(&Vec<usize>, &Vec<usize>, usize) -> bool,
    C: Fn(&Vec<usize>) -> i64,
    B: Fn(&Vec<usize>, usize, SpatialAxis) -> bool,
>(
    items: &Vec<LayoutItem>,
    indices: &Vec<usize>,
    order: ReadingOrder,
    metrics: &Metrics<J, C, B>,
) -> (result: Option<Vec<Vec<usize>>>)
    requires
        metrics.steady(),
        known(items@, indices@),
    ensures
        match result {
            Some(groups) => panel_groups(items@, indices@, order, metrics.geometry()) == Some(
                contents(groups@),
            ),
            None => panel_groups(items@, indices@, order, metrics.geometry()) is None,
        },
{
    let main = divide_by_gaps(items, indices, main_axis_of(order), metrics);
    assert(main.len() == contents(main@).len());
    if main.len() > 1 {
        return Some(
            if order == ReadingOrder::ColumnMajor {
                reverse_groups(&main)
            } else {
                main
            },
        );
    }
    let cross = divide_by_gaps(items, indices, cross_axis_of(order), metrics);
    assert(cross.len() == contents(cross@).len());
    if cross.len() > 1 {
        Some(cross)
    } else {
        None
    }
}

fn panels_of(items: &Vec<LayoutItem>, indices: &Vec<usize>) -> (result: Vec<usize>)
    requires
        known(items@, indices@),
    ensures
        result@ == indices@.filter(is_panel(items@)),
        known(items@, result@),
        result.len() <= indices.len(),
{
    let mut result: Vec<usize> = Vec::new();
    let mut index: usize = 0;
    while index < indices.len()
        invariant
            index <= indices.len(),
            known(items@, indices@),
            known(items@, result@),
            result@ == indices@.take(index as int).filter(is_panel(items@)),
            result.len() <= index,
        decreases indices.len() - index,
    {
        let item: usize = indices[index];
        proof {
            let next = indices@.take(index as int + 1);
            assert(next.drop_last() =~= indices@.take(index as int));
            reveal(Seq::filter);
            assert(indices@[index as int] < items.len());
        }
        if items[item].kind == LayoutKind::Panel {
            result.push(item);
        }
        index += 1;
    }
    proof {
        assert(indices@.take(index as int) =~= indices@);
    }
    result
}

fn replace_panels(items: &Vec<LayoutItem>, list: &Vec<usize>, panels: &Vec<usize>) -> (result: Vec<
    usize,
>)
    requires
        known(items@, list@),
        list@.filter(is_panel(items@)).len() <= panels.len(),
    ensures
        result@ == with_panels(items@, list@, panels@),
{
    let ghost keep = is_panel(items@);
    let mut result: Vec<usize> = Vec::new();
    let mut used: usize = 0;
    let mut index: usize = 0;
    proof {
        reveal(Seq::filter);
        assert(list@.take(0).filter(keep) =~= Seq::empty());
    }
    while index < list.len()
        invariant
            index <= list.len(),
            known(items@, list@),
            keep == is_panel(items@),
            list@.filter(keep).len() <= panels.len(),
            used == list@.take(index as int).filter(keep).len(),
            result@ == with_panels(items@, list@.take(index as int), panels@),
        decreases list.len() - index,
    {
        let item: usize = list[index];
        proof {
            let next = list@.take(index as int + 1);
            assert(next.drop_last() =~= list@.take(index as int));
            assert(list@[index as int] < items.len());
            assert(next.filter(keep).len() == used + (if keep(item) {
                1int
            } else {
                0
            })) by {
                reveal(Seq::filter);
            }
            lemma_filter_prefix(list@, keep, index as int + 1);
        }
        if items[item].kind == LayoutKind::Panel {
            result.push(panels[used]);
            used += 1;
        } else {
            result.push(item);
        }
        index += 1;
    }
    proof {
        assert(list@.take(index as int) =~= list@);
    }
    result
}

proof fn lemma_filter_prefix(list: Seq<usize>, keep: spec_fn(usize) -> bool, end: int)
    requires
        0 <= end <= list.len(),
    ensures
        list.take(end).filter(keep).len() <= list.filter(keep).len(),
    decreases list.len(),
{
    if end < list.len() {
        reveal(Seq::filter);
        lemma_filter_prefix(list.drop_last(), keep, end);
        assert(list.drop_last().take(end) =~= list.take(end));
    } else {
        assert(list.take(end) =~= list);
    }
}

/// Brings some items into the order in which they are read.
pub fn sort_spatial<
    J: Fn(&Vec<usize>, &Vec<usize>, usize) -> bool,
    C: Fn(&Vec<usize>) -> i64,
    B: Fn(&Vec<usize>, usize, SpatialAxis) -> bool,
>(
    items: &Vec<LayoutItem>,
    indices: &mut Vec<usize>,
    order: ReadingOrder,
    metrics: &Metrics<J, C, B>,
)
    requires
        metrics.steady(),
        known(items@, old(indices)@),
    ensures
        final(indices)@ == spatial(items@, old(indices)@, order, metrics.geometry()),
        same_elements(final(indices)@, old(indices)@),
        known(items@, final(indices)@),
    decreases old(indices).len(),
{
    let ghost geometry = metrics.geometry();
    let ghost given = indices@;
    proof {
        assert(given.len() == indices.len());
        law_spatial_keeps_items(items@, given, order, geometry);
        lemma_known_same(items@, given, spatial(items@, given, order, geometry));
    }
    if indices.len() < 2 {
        return;
    }
    let mut panels = panels_of(items, indices);
    if panels.len() == indices.len() {
        if let Some(groups) = panel_gap_groups(items, indices, order, metrics) {
            let ghost shown = contents(groups@);
            proof {
                lemma_panel_groups(items@, given, order, geometry);
                lemma_known_same(items@, given, flat(shown));
            }
            let mut result: Vec<usize> = Vec::new();
            let mut group: usize = 0;
            proof {
                assert(shown.take(0) =~= Seq::empty());
            }
            while group < groups.len()
                invariant
                    group <= groups.len(),
                    metrics.steady(),
                    geometry == metrics.geometry(),
                    shown == contents(groups@),
                    known(items@, flat(shown)),
                    given.len() == old(indices).len(),
                    forall|i: int|
                        0 <= i < shown.len() ==> (#[trigger] shown[i]).len() < given.len(),
                    result@ == spatial_groups(
                        items@,
                        shown.take(group as int),
                        given.len(),
                        order,
                        geometry,
                    ),
                decreases groups.len() - group,
            {
                let mut list: Vec<usize> = Vec::new();
                append_all(&mut list, &groups[group]);
                proof {
                    assert(list@ =~= groups@[group as int]@);
                    assert(shown[group as int] == list@);
                    assert forall|i: int| 0 <= i < list.len() implies (#[trigger] list@[i])
                        < items.len() by {
                        assert(list@.contains(list@[i]));
                        lemma_flat_contains(shown, group as int, list@[i]);
                        let at = choose|at: int|
                            0 <= at < flat(shown).len() && flat(shown)[at] == list@[i];
                        assert(flat(shown)[at] < items.len());
                    }
                }
                sort_spatial(items, &mut list, order, metrics);
                append_all(&mut result, &list);
                proof {
                    let next = shown.take(group as int + 1);
                    assert(next.drop_last() =~= shown.take(group as int));
                    assert(next.last() == shown[group as int]);
                }
                group += 1;
            }
            proof {
                assert(shown.take(group as int) =~= shown);
            }
            *indices = result;
            return;
        }
    }
    let base = arrange_lines(items, indices, order, metrics);
    proof {
        lemma_lines(items@, given, order, geometry);
        lemma_known_same(items@, given, base@);
    }
    if panels.len() > 1 && panels.len() < indices.len() {
        sort_spatial(items, &mut panels, order, metrics);
        proof {
            lemma_replaced(items@, given, base@, panels@);
        }
        *indices = replace_panels(items, &base, &panels);
    } else {
        *indices = base;
    }
}

} // verus!
