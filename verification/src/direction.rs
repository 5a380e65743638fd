//! The direction in which a page is read, as it shows in the order of two regions.

use vstd::prelude::*;

use crate::bits::double_order;
use crate::layout::{
    axis_groups, center_keys, first_joined, gap_groups, group_keys, groups_of, is_panel, known,
    law_panels_are_read_as_if_alone, law_spatial_keeps_items, lemma_gap_groups,
    lemma_groups_count, lemma_groups_of, line_keys, lines, panel_groups, spatial, spatial_groups,
    start_keys, with_panels, Geometry, LayoutItem, ReadingOrder, SpatialAxis,
};
use crate::lists::{flat, lemma_same_elements_len};
use crate::ordering::places;
use crate::sorting::{by_keys, lemma_sorted, sorted};
use crate::tree::{forest, subtree};

verus! {

/// One number stands before another in a list.
pub open spec fn precedes(list: Seq<usize>, left: usize, right: usize) -> bool {
    exists|i: int, j: int|
        0 <= i < j < list.len() && #[trigger] list[i] == left && #[trigger] list[j] == right
}

/// A column or row that can come about when some of the regions of a page are put into order: every
/// region in it but the first has joined those before.
pub open spec fn formed(
    geometry: Geometry,
    count: nat,
    all: Seq<usize>,
    group: Seq<usize>,
) -> bool {
    &&& all.no_duplicates()
    &&& forall|k: int| 0 <= k < all.len() ==> (#[trigger] all[k]) < count
    &&& group.len() > 0
    &&& group.no_duplicates()
    &&& forall|k: int| 0 <= k < group.len() ==> all.contains(#[trigger] group[k])
    &&& forall|k: int|
        0 < k < group.len() ==> (geometry.joins)(all, #[trigger] group.take(k), group[k])
}

/// No column or row can hold both regions.
pub open spec fn apart(geometry: Geometry, count: nat, left: usize, right: usize) -> bool {
    forall|all: Seq<usize>, group: Seq<usize>|
        #[trigger] formed(geometry, count, all, group) && group.contains(left)
            ==> !group.contains(right)
}

/// Each of two regions joins a column or row exactly if the other is in it.
pub open spec fn together(geometry: Geometry, count: nat, left: usize, right: usize) -> bool {
    forall|all: Seq<usize>, group: Seq<usize>| #[trigger]
        formed(geometry, count, all, group) ==> {
            &&& !group.contains(right) ==> (geometry.joins)(all, group, right) == group.contains(
                left,
            )
            &&& !group.contains(left) ==> (geometry.joins)(all, group, left) == group.contains(
                right,
            )
        }
}

/// Every column or row of the one region lies farther to the right or below than every one of the
/// other.
pub open spec fn beyond(geometry: Geometry, count: nat, left: usize, right: usize) -> bool {
    forall|all: Seq<usize>, group: Seq<usize>, other: Seq<usize>|
        #![trigger formed(geometry, count, all, group), formed(geometry, count, all, other)]
        formed(geometry, count, all, group) && formed(geometry, count, all, other)
            && group.contains(left) && other.contains(right) ==> (geometry.center)(group)
            > (geometry.center)(other)
}

pub proof fn lemma_precedes_at(list: Seq<usize>, i: int, j: int)
    requires
        0 <= i < j < list.len(),
    ensures
        precedes(list, list[i], list[j]),
{
}

/// What stands in a part of a list stands in the list in the same order.
pub proof fn lemma_precedes_within(
    before: Seq<usize>,
    part: Seq<usize>,
    after: Seq<usize>,
    left: usize,
    right: usize,
)
    requires
        precedes(part, left, right),
    ensures
        precedes(before + part + after, left, right),
{
    let (i, j) = choose|i: int, j: int|
        0 <= i < j < part.len() && #[trigger] part[i] == left && #[trigger] part[j] == right;
    let whole = before + part + after;
    assert(whole[before.len() + i] == left);
    assert(whole[before.len() + j] == right);
}

/// What stands in one of some lists comes before what stands in a later one.
pub proof fn lemma_flat_precedes(lists: Seq<Seq<usize>>, p: int, q: int, left: usize, right: usize)
    requires
        0 <= p < q < lists.len(),
        lists[p].contains(left),
        lists[q].contains(right),
    ensures
        precedes(flat(lists), left, right),
    decreases lists.len(),
{
    let rest = lists.drop_last();
    let whole = flat(lists);
    if q == lists.len() - 1 {
        crate::lists::lemma_flat_contains(rest, p, left);
        let i = choose|i: int| 0 <= i < flat(rest).len() && flat(rest)[i] == left;
        let j = choose|j: int| 0 <= j < lists[q].len() && lists[q][j] == right;
        assert(whole[i] == left);
        assert(whole[flat(rest).len() + j] == right);
    } else {
        lemma_flat_precedes(rest, p, q, left, right);
        assert(whole =~= Seq::<usize>::empty() + flat(rest) + lists.last());
        lemma_precedes_within(Seq::empty(), flat(rest), lists.last(), left, right);
    }
}

/// What stands in one of some lists stands in all of them together in the same order.
pub proof fn lemma_flat_precedes_within(lists: Seq<Seq<usize>>, p: int, left: usize, right: usize)
    requires
        0 <= p < lists.len(),
        precedes(lists[p], left, right),
    ensures
        precedes(flat(lists), left, right),
    decreases lists.len(),
{
    let rest = lists.drop_last();
    if p == lists.len() - 1 {
        assert(flat(lists) =~= flat(rest) + lists[p] + Seq::<usize>::empty());
        lemma_precedes_within(flat(rest), lists[p], Seq::empty(), left, right);
    } else {
        lemma_flat_precedes_within(rest, p, left, right);
        assert(flat(lists) =~= Seq::<usize>::empty() + flat(rest) + lists.last());
        lemma_precedes_within(Seq::empty(), flat(rest), lists.last(), left, right);
    }
}

/// A number with a smaller key comes first in what is sorted.
pub proof fn lemma_sorted_precedes(
    indices: Seq<usize>,
    keys: Seq<(i64, i128)>,
    left: usize,
    right: usize,
)
    requires
        indices.contains(left),
        indices.contains(right),
        !by_keys(keys)(right, left),
    ensures
        precedes(sorted(indices, keys), left, right),
{
    let result = sorted(indices, keys);
    lemma_sorted(indices, keys);
    lemma_same_elements_len(indices, result);
    assert(result.contains(left) && result.contains(right));
    let i = choose|i: int| 0 <= i < result.len() && result[i] == left;
    let j = choose|j: int| 0 <= j < result.len() && result[j] == right;
    if j < i {
        assert(by_keys(keys)(result[j], result[i]));
    }
}

/// Every group that is made can come about.
proof fn lemma_groups_formed(geometry: Geometry, count: nat, all: Seq<usize>, end: int)
    requires
        0 <= end <= all.len(),
        all.no_duplicates(),
        forall|k: int| 0 <= k < all.len() ==> (#[trigger] all[k]) < count,
    ensures
        forall|i: int|
            0 <= i < groups_of(geometry, all, end).len() ==> formed(
                geometry,
                count,
                all,
                #[trigger] groups_of(geometry, all, end)[i],
            ),
    decreases end,
{
    if end > 0 {
        let before = groups_of(geometry, all, end - 1);
        let after = groups_of(geometry, all, end);
        let index = all[end - 1];
        lemma_groups_formed(geometry, count, all, end - 1);
        lemma_joined(geometry, all, before, index, 0);
        let at = first_joined(geometry, all, before, index, 0);
        assert forall|i: int| 0 <= i < after.len() implies formed(
            geometry,
            count,
            all,
            #[trigger] after[i],
        ) by {
            if at < before.len() && i == at {
                let group = before[at];
                assert(formed(geometry, count, all, group));
                lemma_not_yet(geometry, all, end, at);
                assert forall|k: int| 0 < k < after[i].len() implies (geometry.joins)(
                    all,
                    #[trigger] after[i].take(k),
                    after[i][k],
                ) by {
                    if k < group.len() {
                        assert(after[i].take(k) =~= group.take(k));
                    } else {
                        assert(after[i].take(k) =~= group);
                    }
                }
                assert forall|k: int| 0 <= k < after[i].len() implies all.contains(
                    #[trigger] after[i][k],
                ) by {
                    if k < group.len() {
                        assert(after[i][k] == group[k]);
                    } else {
                        assert(all[end - 1] == index);
                    }
                }
                assert forall|k: int, l: int|
                    0 <= k < after[i].len() && 0 <= l < after[i].len() && k
                        != l implies after[i][k] != after[i][l] by {
                    if k < group.len() && l < group.len() {
                        assert(group[k] != group[l]);
                    } else if k < group.len() {
                        assert(group.contains(group[k]));
                    } else {
                        assert(group.contains(group[l]));
                    }
                }
            } else if i < before.len() {
                assert(after[i] == before[i]);
                assert(formed(geometry, count, all, before[i]));
            } else {
                assert(after[i] =~= seq![index]);
                assert(all[end - 1] == index);
            }
        }
    }
}

/// A region is in no group before its turn.
proof fn lemma_not_yet(geometry: Geometry, all: Seq<usize>, end: int, group: int)
    requires
        0 < end <= all.len(),
        all.no_duplicates(),
        0 <= group < groups_of(geometry, all, end - 1).len(),
    ensures
        !groups_of(geometry, all, end - 1)[group].contains(all[end - 1]),
{
    let before = groups_of(geometry, all, end - 1);
    let earlier = all.take(end - 1);
    let index = all[end - 1];
    lemma_groups_of(geometry, all, end - 1);
    lemma_same_elements_len(flat(before), earlier);
    if before[group].contains(index) {
        crate::lists::lemma_flat_contains(before, group, index);
        assert(earlier.contains(index));
        let k = choose|k: int| 0 <= k < earlier.len() && earlier[k] == index;
        assert(all[k] == all[end - 1]);
    }
}

proof fn lemma_joined(
    geometry: Geometry,
    all: Seq<usize>,
    groups: Seq<Seq<usize>>,
    index: usize,
    from: int,
)
    requires
        0 <= from <= groups.len(),
    ensures
        ({
            let at = first_joined(geometry, all, groups, index, from);
            &&& from <= at <= groups.len()
            &&& at < groups.len() ==> (geometry.joins)(all, groups[at], index)
            &&& forall|i: int|
                from <= i < at ==> !(geometry.joins)(all, #[trigger] groups[i], index)
        }),
    decreases groups.len() - from,
{
    if from < groups.len() && !(geometry.joins)(all, groups[from], index) {
        lemma_joined(geometry, all, groups, index, from + 1);
    }
}

/// Every item of a list is in one of the groups that are made of it.
proof fn lemma_group_with(geometry: Geometry, all: Seq<usize>, value: usize) -> (at: int)
    requires
        all.contains(value),
    ensures
        0 <= at < groups_of(geometry, all, all.len() as int).len(),
        groups_of(geometry, all, all.len() as int)[at].contains(value),
{
    let groups = groups_of(geometry, all, all.len() as int);
    lemma_groups_of(geometry, all, all.len() as int);
    assert(all.take(all.len() as int) =~= all);
    lemma_same_elements_len(flat(groups), all);
    lemma_flat_from(groups, value)
}

proof fn lemma_flat_from(lists: Seq<Seq<usize>>, value: usize) -> (at: int)
    requires
        flat(lists).contains(value),
    ensures
        0 <= at < lists.len(),
        lists[at].contains(value),
    decreases lists.len(),
{
    let rest = lists.drop_last();
    let i = choose|i: int| 0 <= i < flat(lists).len() && flat(lists)[i] == value;
    if i < flat(rest).len() {
        assert(flat(rest)[i] == value);
        lemma_flat_from(rest, value)
    } else {
        assert(lists.last()[i - flat(rest).len()] == value);
        lists.len() - 1
    }
}

/// Two regions that belong together are in one group as soon as both are in any.
proof fn lemma_groups_together(
    geometry: Geometry,
    count: nat,
    all: Seq<usize>,
    end: int,
    left: usize,
    right: usize,
) -> (at: int)
    requires
        0 <= end <= all.len(),
        left != right,
        all.no_duplicates(),
        forall|k: int| 0 <= k < all.len() ==> (#[trigger] all[k]) < count,
        together(geometry, count, left, right),
        all.take(end).contains(left),
        all.take(end).contains(right),
    ensures
        0 <= at < groups_of(geometry, all, end).len(),
        groups_of(geometry, all, end)[at].contains(left),
        groups_of(geometry, all, end)[at].contains(right),
    decreases end,
{
    if end <= 0 {
        assert(all.take(end) =~= Seq::<usize>::empty());
        0
    } else {
        let before = groups_of(geometry, all, end - 1);
        let after = groups_of(geometry, all, end);
        let index = all[end - 1];
        let earlier = all.take(end - 1);
        assert(all.take(end) =~= earlier.push(index));
        lemma_pushed(earlier, index, left);
        lemma_pushed(earlier, index, right);
        lemma_joined(geometry, all, before, index, 0);
        let joined = first_joined(geometry, all, before, index, 0);
        if earlier.contains(left) && earlier.contains(right) {
            let at = lemma_groups_together(geometry, count, all, end - 1, left, right);
            lemma_pushed(before[at], index, left);
            lemma_pushed(before[at], index, right);
            at
        } else {
            let other = if index == left {
                right
            } else {
                left
            };
            lemma_groups_formed(geometry, count, all, end - 1);
            lemma_groups_of(geometry, all, end - 1);
            lemma_same_elements_len(flat(before), earlier);
            assert forall|i: int| 0 <= i < before.len() implies !(#[trigger] before[i]).contains(
                index,
            ) by {
                lemma_not_yet(geometry, all, end, i);
            }
            let home = lemma_flat_from(before, other);
            assert(formed(geometry, count, all, before[home]));
            assert((geometry.joins)(all, before[home], index));
            assert(joined <= home);
            assert(formed(geometry, count, all, before[joined]));
            assert(before[joined].contains(other));
            lemma_pushed(before[joined], index, other);
            joined
        }
    }
}

proof fn lemma_pushed(list: Seq<usize>, last: usize, value: usize)
    ensures
        list.push(last).contains(value) ==> list.contains(value) || last == value,
        list.contains(value) ==> list.push(last).contains(value),
        list.push(last).contains(last),
{
    let longer = list.push(last);
    assert(longer[list.len() as int] == last);
    if list.contains(value) {
        let k = choose|k: int| 0 <= k < list.len() && list[k] == value;
        assert(longer[k] == value);
    }
    if longer.contains(value) {
        let k = choose|k: int| 0 <= k < longer.len() && longer[k] == value;
        if k < list.len() {
            assert(list[k] == value);
        }
    }
}

/// The line that an item stands in, given its group.
proof fn lemma_line_at(
    items: Seq<LayoutItem>,
    indices: Seq<usize>,
    order: ReadingOrder,
    geometry: Geometry,
    group: int,
) -> (at: int)
    requires
        indices.len() <= usize::MAX,
        0 <= group < groups_of(
            geometry,
            sorted(indices, center_keys(items, order)),
            indices.len() as int,
        ).len(),
    ensures
        ({
            let all = sorted(indices, center_keys(items, order));
            let groups = groups_of(geometry, all, all.len() as int);
            let arranged = sorted(places(groups.len()), group_keys(geometry, groups, order));
            &&& 0 <= at < arranged.len()
            &&& arranged[at] == group
            &&& lines(items, indices, order, geometry).len() == arranged.len()
            &&& lines(items, indices, order, geometry)[at] == sorted(
                groups[group],
                line_keys(items, order),
            )
        }),
{
    let all = sorted(indices, center_keys(items, order));
    lemma_sorted(indices, center_keys(items, order));
    let groups = groups_of(geometry, all, all.len() as int);
    lemma_groups_count(geometry, all, all.len() as int);
    let keys = group_keys(geometry, groups, order);
    let arranged = sorted(places(groups.len()), keys);
    lemma_sorted(places(groups.len()), keys);
    lemma_same_elements_len(places(groups.len()), arranged);
    assert(places(groups.len())[group] == group as usize);
    assert(arranged.contains(group as usize));
    choose|at: int| 0 <= at < arranged.len() && arranged[at] == group as usize
}

/// Items in another order are still known, each of them once.
proof fn lemma_same_items(items: Seq<LayoutItem>, indices: Seq<usize>, all: Seq<usize>)
    requires
        indices.no_duplicates(),
        known(items, indices),
        indices.to_multiset() == all.to_multiset(),
    ensures
        all.no_duplicates(),
        forall|k: int| 0 <= k < all.len() ==> (#[trigger] all[k]) < items.len(),
{
    indices.lemma_multiset_has_no_duplicates();
    all.lemma_multiset_has_no_duplicates_conv();
    lemma_same_elements_len(indices, all);
    assert forall|k: int| 0 <= k < all.len() implies (#[trigger] all[k]) < items.len() by {
        assert(all.contains(all[k]));
        let i = choose|i: int| 0 <= i < indices.len() && indices[i] == all[k];
        assert(indices[i] < items.len());
    }
}

/// Of two items in different columns or rows, the one whose line comes first along the main axis
/// is read first.
proof fn lemma_lines_apart(
    items: Seq<LayoutItem>,
    indices: Seq<usize>,
    order: ReadingOrder,
    geometry: Geometry,
    left: usize,
    right: usize,
)
    requires
        indices.len() <= usize::MAX,
        indices.no_duplicates(),
        known(items, indices),
        indices.contains(left),
        indices.contains(right),
        apart(geometry, items.len(), left, right),
        order == ReadingOrder::ColumnMajor ==> beyond(geometry, items.len(), left, right),
        order == ReadingOrder::RowMajor ==> beyond(geometry, items.len(), right, left),
    ensures
        precedes(flat(lines(items, indices, order, geometry)), left, right),
{
    let all = sorted(indices, center_keys(items, order));
    lemma_sorted(indices, center_keys(items, order));
    lemma_same_elements_len(indices, all);
    lemma_same_items(items, indices, all);
    let groups = groups_of(geometry, all, all.len() as int);
    lemma_groups_formed(geometry, items.len(), all, all.len() as int);
    lemma_groups_count(geometry, all, all.len() as int);
    let i = lemma_group_with(geometry, all, left);
    let j = lemma_group_with(geometry, all, right);
    assert(formed(geometry, items.len(), all, groups[i]));
    assert(formed(geometry, items.len(), all, groups[j]));
    let keys = group_keys(geometry, groups, order);
    assert(keys[i].0 < keys[j].0);
    let p = lemma_line_at(items, indices, order, geometry, i);
    let q = lemma_line_at(items, indices, order, geometry, j);
    let arranged = sorted(places(groups.len()), keys);
    lemma_sorted(places(groups.len()), keys);
    if q < p {
        assert(by_keys(keys)(arranged[q], arranged[p]));
    }
    lemma_sorted(groups[i], line_keys(items, order));
    lemma_sorted(groups[j], line_keys(items, order));
    let rows = lines(items, indices, order, geometry);
    lemma_same_elements_len(groups[i], rows[p]);
    lemma_same_elements_len(groups[j], rows[q]);
    lemma_flat_precedes(rows, p, q, left, right);
}

/// Of two items in the same column or row, the one that starts first across the main axis is read
/// first.
proof fn lemma_lines_together(
    items: Seq<LayoutItem>,
    indices: Seq<usize>,
    order: ReadingOrder,
    geometry: Geometry,
    left: usize,
    right: usize,
)
    requires
        indices.len() <= usize::MAX,
        indices.no_duplicates(),
        known(items, indices),
        indices.contains(left),
        indices.contains(right),
        left < items.len(),
        right < items.len(),
        left != right,
        together(geometry, items.len(), left, right),
        items[left as int].cross_start(order.main_axis()) < items[right as int].cross_start(
            order.main_axis(),
        ),
    ensures
        precedes(flat(lines(items, indices, order, geometry)), left, right),
{
    let all = sorted(indices, center_keys(items, order));
    lemma_sorted(indices, center_keys(items, order));
    lemma_same_elements_len(indices, all);
    lemma_same_items(items, indices, all);
    assert(all.take(all.len() as int) =~= all);
    let groups = groups_of(geometry, all, all.len() as int);
    let i = lemma_groups_together(
        geometry,
        items.len(),
        all,
        all.len() as int,
        left,
        right,
    );
    let p = lemma_line_at(items, indices, order, geometry, i);
    lemma_sorted_precedes(groups[i], line_keys(items, order), left, right);
    lemma_flat_precedes_within(lines(items, indices, order, geometry), p, left, right);
}

/// What is no panel stays at its place when the panels of a list are replaced.
proof fn lemma_replaced_precedes(
    items: Seq<LayoutItem>,
    list: Seq<usize>,
    panels: Seq<usize>,
    left: usize,
    right: usize,
)
    requires
        precedes(list, left, right),
        !is_panel(items)(left),
        !is_panel(items)(right),
    ensures
        precedes(with_panels(items, list, panels), left, right),
{
    let (i, j) = choose|i: int, j: int|
        0 <= i < j < list.len() && #[trigger] list[i] == left && #[trigger] list[j] == right;
    lemma_kept_place(items, list, panels, i);
    lemma_kept_place(items, list, panels, j);
    let result = with_panels(items, list, panels);
    assert(result[i] == left && result[j] == right);
}

proof fn lemma_kept_place(items: Seq<LayoutItem>, list: Seq<usize>, panels: Seq<usize>, at: int)
    requires
        0 <= at < list.len(),
    ensures
        with_panels(items, list, panels).len() == list.len(),
        !is_panel(items)(list[at]) ==> with_panels(items, list, panels)[at] == list[at],
    decreases list.len(),
{
    let rest = list.drop_last();
    if at < rest.len() {
        lemma_kept_place(items, rest, panels, at);
    } else {
        reveal_with_fuel(with_panels, 2);
        if rest.len() > 0 {
            lemma_kept_place(items, rest, panels, 0);
        }
    }
}

/// Of two regions that are no panels and stand side by side, the one is read before the other: by
/// columns, the one to the right or, in one column, the upper one; by rows, the upper one or, in
/// one row, the one to the left.
pub proof fn lemma_spatial_direction(
    items: Seq<LayoutItem>,
    indices: Seq<usize>,
    order: ReadingOrder,
    geometry: Geometry,
    left: usize,
    right: usize,
)
    requires
        indices.len() <= usize::MAX,
        indices.no_duplicates(),
        known(items, indices),
        indices.contains(left),
        indices.contains(right),
        left != right,
        left < items.len(),
        right < items.len(),
        !is_panel(items)(left),
        !is_panel(items)(right),
        order == ReadingOrder::ColumnMajor ==> {
            ||| apart(geometry, items.len(), left, right) && beyond(geometry, items.len(), left, right)
            ||| together(geometry, items.len(), left, right) && double_order(items[left as int].bounds@[1])
                < double_order(items[right as int].bounds@[1])
        },
        order == ReadingOrder::RowMajor ==> {
            ||| apart(geometry, items.len(), left, right) && beyond(geometry, items.len(), right, left)
            ||| together(geometry, items.len(), left, right) && double_order(items[left as int].bounds@[0])
                < double_order(items[right as int].bounds@[0])
        },
    ensures
        precedes(spatial(items, indices, order, geometry), left, right),
{
    if together(geometry, items.len(), left, right) && items[left as int].cross_start(order.main_axis())
        < items[right as int].cross_start(order.main_axis()) {
        lemma_lines_together(items, indices, order, geometry, left, right);
    } else {
        lemma_lines_apart(items, indices, order, geometry, left, right);
    }
    let base = flat(lines(items, indices, order, geometry));
    let panels = indices.filter(is_panel(items));
    assert(indices.len() >= 2) by {
        let i = choose|i: int| 0 <= i < indices.len() && indices[i] == left;
        let j = choose|j: int| 0 <= j < indices.len() && indices[j] == right;
        assert(i != j);
    }
    assert(panels.len() < indices.len()) by {
        lemma_filter_drops(indices, is_panel(items), left);
    }
    if panels.len() > 1 {
        lemma_replaced_precedes(
            items,
            base,
            spatial(items, panels, order, geometry),
            left,
            right,
        );
    }
}

proof fn lemma_filter_drops(list: Seq<usize>, keep: spec_fn(usize) -> bool, value: usize)
    requires
        list.contains(value),
        !keep(value),
    ensures
        list.filter(keep).len() < list.len(),
    decreases list.len(),
{
    reveal(Seq::filter);
    let rest = list.drop_last();
    let i = choose|i: int| 0 <= i < list.len() && list[i] == value;
    if i < rest.len() {
        assert(rest[i] == value);
        lemma_filter_drops(rest, keep, value);
    } else {
        rest.lemma_filter_len(keep);
    }
}

/// What is below a number of a list stands in one piece.
pub proof fn lemma_forest_part(
    kids: spec_fn(usize) -> Seq<usize>,
    list: Seq<usize>,
    depth: nat,
    at: int,
) -> (around: (Seq<usize>, Seq<usize>))
    requires
        0 <= at < list.len(),
    ensures
        forest(kids, list, depth) == around.0 + subtree(kids, list[at], depth) + around.1,
    decreases list.len(),
{
    let rest = list.drop_last();
    let tail = subtree(kids, list.last(), depth);
    if at == list.len() - 1 {
        let around = (forest(kids, rest, depth), Seq::<usize>::empty());
        assert(forest(kids, list, depth) =~= around.0 + tail + around.1);
        around
    } else {
        let inner = lemma_forest_part(kids, rest, depth, at);
        let around = (inner.0, inner.1 + tail);
        assert(forest(kids, list, depth) =~= around.0 + subtree(kids, list[at], depth) + around.1);
        around
    }
}

/// What is below one number of a list comes before what is below a later one.
pub proof fn lemma_forest_precedes(
    kids: spec_fn(usize) -> Seq<usize>,
    list: Seq<usize>,
    depth: nat,
    i: int,
    j: int,
    left: usize,
    right: usize,
)
    requires
        0 <= i < j < list.len(),
        subtree(kids, list[i], depth).contains(left),
        subtree(kids, list[j], depth).contains(right),
    ensures
        precedes(forest(kids, list, depth), left, right),
    decreases list.len(),
{
    let rest = list.drop_last();
    let head = forest(kids, rest, depth);
    let tail = subtree(kids, list.last(), depth);
    let whole = forest(kids, list, depth);
    if j == list.len() - 1 {
        let around = lemma_forest_part(kids, rest, depth, i);
        let part = subtree(kids, list[i], depth);
        let k = choose|k: int| 0 <= k < part.len() && part[k] == left;
        let l = choose|l: int| 0 <= l < tail.len() && tail[l] == right;
        assert(head[around.0.len() + k] == left);
        assert(whole[around.0.len() + k] == left);
        assert(whole[head.len() + l] == right);
    } else {
        lemma_forest_precedes(kids, rest, depth, i, j, left, right);
        assert(whole =~= Seq::<usize>::empty() + head + tail);
        lemma_precedes_within(Seq::empty(), head, tail, left, right);
    }
}

/// A panel begins a new group behind every group that holds another one.
pub open spec fn divided(
    geometry: Geometry,
    first: usize,
    second: usize,
    axis: SpatialAxis,
) -> bool {
    forall|group: Seq<usize>|
        group.contains(first) ==> #[trigger] (geometry.breaks)(group, second, axis)
}

/// No panel begins a new group along an axis.
pub open spec fn undivided(geometry: Geometry, axis: SpatialAxis) -> bool {
    forall|group: Seq<usize>, index: usize| !#[trigger] (geometry.breaks)(group, index, axis)
}

/// Panels that are divided are in different groups, the first one in the earlier.
proof fn lemma_gap_groups_divided(
    geometry: Geometry,
    all: Seq<usize>,
    axis: SpatialAxis,
    end: int,
    p: int,
    q: int,
) -> (at: (int, int))
    requires
        0 <= p < q < end <= all.len(),
        divided(geometry, all[p], all[q], axis),
    ensures
        0 <= at.0 < at.1 < gap_groups(geometry, all, axis, end).len(),
        gap_groups(geometry, all, axis, end)[at.0].contains(all[p]),
        gap_groups(geometry, all, axis, end)[at.1].contains(all[q]),
    decreases end,
{
    let before = gap_groups(geometry, all, axis, end - 1);
    let after = gap_groups(geometry, all, axis, end);
    let index = all[end - 1];
    if q < end - 1 {
        let at = lemma_gap_groups_divided(geometry, all, axis, end - 1, p, q);
        lemma_pushed(before[at.0], index, all[p]);
        lemma_pushed(before[at.1], index, all[q]);
        at
    } else {
        lemma_gap_groups(geometry, all, axis, end - 1);
        assert(flat(before)[p] == all[p]);
        let at = lemma_flat_from(before, all[p]);
        if before.len() == 0 || (geometry.breaks)(before.last(), index, axis) {
            assert(after[before.len() as int][0] == index);
            (at, before.len() as int)
        } else {
            lemma_pushed(before.last(), index, index);
            (at, before.len() - 1)
        }
    }
}

proof fn lemma_gap_groups_undivided(
    geometry: Geometry,
    all: Seq<usize>,
    axis: SpatialAxis,
    end: int,
)
    requires
        0 <= end <= all.len(),
        undivided(geometry, axis),
    ensures
        gap_groups(geometry, all, axis, end).len() <= 1,
    decreases end,
{
    if end > 0 {
        lemma_gap_groups_undivided(geometry, all, axis, end - 1);
    }
}

/// The groups of two panels that are divided along an axis.
proof fn lemma_axis_groups_divided(
    items: Seq<LayoutItem>,
    indices: Seq<usize>,
    axis: SpatialAxis,
    geometry: Geometry,
    first: usize,
    second: usize,
) -> (at: (int, int))
    requires
        indices.contains(first),
        indices.contains(second),
        first < items.len(),
        second < items.len(),
        divided(geometry, first, second, axis),
        items[first as int].start(axis) < items[second as int].start(axis),
    ensures
        0 <= at.0 < at.1 < axis_groups(items, indices, axis, geometry).len(),
        axis_groups(items, indices, axis, geometry)[at.0].contains(first),
        axis_groups(items, indices, axis, geometry)[at.1].contains(second),
{
    let all = sorted(indices, start_keys(items, axis));
    lemma_sorted_precedes(indices, start_keys(items, axis), first, second);
    let (p, q) = choose|i: int, j: int|
        0 <= i < j < all.len() && #[trigger] all[i] == first && #[trigger] all[j] == second;
    lemma_gap_groups_divided(geometry, all, axis, all.len() as int, p, q)
}

/// Groups of panels are read one after the other.
proof fn lemma_spatial_groups_precede(
    items: Seq<LayoutItem>,
    groups: Seq<Seq<usize>>,
    bound: nat,
    order: ReadingOrder,
    geometry: Geometry,
    p: int,
    q: int,
    first: usize,
    second: usize,
)
    requires
        0 <= p < q < groups.len(),
        groups[p].contains(first),
        groups[q].contains(second),
        forall|i: int| 0 <= i < groups.len() ==> (#[trigger] groups[i]).len() <= usize::MAX,
    ensures
        precedes(spatial_groups(items, groups, bound, order, geometry), first, second),
    decreases groups.len(),
{
    let rest = groups.drop_last();
    let head = spatial_groups(items, rest, bound, order, geometry);
    let whole = spatial_groups(items, groups, bound, order, geometry);
    assert forall|i: int| 0 <= i < rest.len() implies (#[trigger] rest[i]).len()
        <= usize::MAX by {
        assert(rest[i] == groups[i]);
    }
    if q == groups.len() - 1 {
        let tail = if groups.last().len() < bound {
            spatial(items, groups.last(), order, geometry)
        } else {
            groups.last()
        };
        assert(groups[q].len() <= usize::MAX);
        law_spatial_keeps_items(items, groups.last(), order, geometry);
        lemma_same_elements_len(spatial(items, groups.last(), order, geometry), groups.last());
        assert(tail.contains(second));
        lemma_spatial_groups_contain(items, rest, bound, order, geometry, p, first);
        let i = choose|i: int| 0 <= i < head.len() && head[i] == first;
        let j = choose|j: int| 0 <= j < tail.len() && tail[j] == second;
        assert(whole[i] == first);
        assert(whole[head.len() + j] == second);
    } else {
        lemma_spatial_groups_precede(items, rest, bound, order, geometry, p, q, first, second);
        let tail = whole.skip(head.len() as int);
        assert(whole =~= Seq::<usize>::empty() + head + tail);
        lemma_precedes_within(Seq::empty(), head, tail, first, second);
    }
}

proof fn lemma_spatial_groups_contain(
    items: Seq<LayoutItem>,
    groups: Seq<Seq<usize>>,
    bound: nat,
    order: ReadingOrder,
    geometry: Geometry,
    p: int,
    value: usize,
)
    requires
        0 <= p < groups.len(),
        groups[p].contains(value),
        forall|i: int| 0 <= i < groups.len() ==> (#[trigger] groups[i]).len() <= usize::MAX,
    ensures
        spatial_groups(items, groups, bound, order, geometry).contains(value),
    decreases groups.len(),
{
    let rest = groups.drop_last();
    let head = spatial_groups(items, rest, bound, order, geometry);
    let whole = spatial_groups(items, groups, bound, order, geometry);
    assert forall|i: int| 0 <= i < rest.len() implies (#[trigger] rest[i]).len()
        <= usize::MAX by {
        assert(rest[i] == groups[i]);
    }
    if p == groups.len() - 1 {
        let tail = if groups.last().len() < bound {
            spatial(items, groups.last(), order, geometry)
        } else {
            groups.last()
        };
        assert(groups[p].len() <= usize::MAX);
        law_spatial_keeps_items(items, groups.last(), order, geometry);
        lemma_same_elements_len(spatial(items, groups.last(), order, geometry), groups.last());
        assert(tail.contains(value));
        let j = choose|j: int| 0 <= j < tail.len() && tail[j] == value;
        assert(whole[head.len() + j] == value);
    } else {
        lemma_spatial_groups_contain(items, rest, bound, order, geometry, p, value);
        let i = choose|i: int| 0 <= i < head.len() && head[i] == value;
        assert(whole[i] == value);
    }
}

/// Of two panels with a gap between them, the one is read before the other: by columns, the one to
/// the right of a gap from top to bottom or, where there is no such gap, the one above a gap from
/// left to right; by rows, the one above a gap from left to right or, where there is no such gap,
/// the one to the left of a gap from top to bottom.
pub proof fn lemma_panel_direction(
    items: Seq<LayoutItem>,
    indices: Seq<usize>,
    order: ReadingOrder,
    geometry: Geometry,
    first: usize,
    second: usize,
)
    requires
        indices.len() <= usize::MAX,
        indices.contains(first),
        indices.contains(second),
        first != second,
        first < items.len(),
        second < items.len(),
        is_panel(items)(first),
        is_panel(items)(second),
        order == ReadingOrder::ColumnMajor ==> {
            ||| divided(geometry, second, first, SpatialAxis::X) && double_order(
                items[second as int].bounds@[0],
            ) < double_order(items[first as int].bounds@[0])
            ||| undivided(geometry, SpatialAxis::X) && divided(
                geometry,
                first,
                second,
                SpatialAxis::Y,
            ) && double_order(items[first as int].bounds@[1]) < double_order(
                items[second as int].bounds@[1],
            )
        },
        order == ReadingOrder::RowMajor ==> {
            ||| divided(geometry, first, second, SpatialAxis::Y) && double_order(
                items[first as int].bounds@[1],
            ) < double_order(items[second as int].bounds@[1])
            ||| undivided(geometry, SpatialAxis::Y) && divided(
                geometry,
                first,
                second,
                SpatialAxis::X,
            ) && double_order(items[first as int].bounds@[0]) < double_order(
                items[second as int].bounds@[0],
            )
        },
    ensures
        precedes(spatial(items, indices, order, geometry), first, second),
{
    let keep = is_panel(items);
    let panels = indices.filter(keep);
    law_panels_are_read_as_if_alone(items, indices, order, geometry);
    indices.lemma_filter_len(keep);
    lemma_filter_keeps(indices, keep, first);
    lemma_filter_keeps(indices, keep, second);
    assert(panels.len() >= 2) by {
        let i = choose|i: int| 0 <= i < panels.len() && panels[i] == first;
        let j = choose|j: int| 0 <= j < panels.len() && panels[j] == second;
        assert(i != j);
    }
    lemma_filter_twice(indices, keep);
    let main = axis_groups(items, panels, order.main_axis(), geometry);
    let cross = axis_groups(items, panels, order.cross_axis(), geometry);
    let sideways = if order == ReadingOrder::ColumnMajor {
        !(divided(geometry, second, first, SpatialAxis::X) && double_order(
            items[second as int].bounds@[0],
        ) < double_order(items[first as int].bounds@[0]))
    } else {
        !(divided(geometry, first, second, SpatialAxis::Y) && double_order(
            items[first as int].bounds@[1],
        ) < double_order(items[second as int].bounds@[1]))
    };
    let at = if sideways {
        let all = sorted(panels, start_keys(items, order.main_axis()));
        lemma_gap_groups_undivided(geometry, all, order.main_axis(), all.len() as int);
        lemma_axis_groups_divided(items, panels, order.cross_axis(), geometry, first, second)
    } else if order == ReadingOrder::ColumnMajor {
        let at = lemma_axis_groups_divided(
            items,
            panels,
            order.main_axis(),
            geometry,
            second,
            first,
        );
        assert(main.reverse()[main.len() - 1 - at.1] == main[at.1]);
        assert(main.reverse()[main.len() - 1 - at.0] == main[at.0]);
        (main.len() - 1 - at.1, main.len() - 1 - at.0)
    } else {
        lemma_axis_groups_divided(items, panels, order.main_axis(), geometry, first, second)
    };
    let groups = panel_groups(items, panels, order, geometry)->0;
    crate::layout::lemma_panel_groups(items, panels, order, geometry);
    lemma_spatial_groups_precede(
        items,
        groups,
        panels.len(),
        order,
        geometry,
        at.0,
        at.1,
        first,
        second,
    );
    lemma_filter_precedes(spatial(items, indices, order, geometry), keep, first, second);
}

proof fn lemma_filter_keeps(list: Seq<usize>, keep: spec_fn(usize) -> bool, value: usize)
    requires
        list.contains(value),
        keep(value),
    ensures
        list.filter(keep).contains(value),
{
    let i = choose|i: int| 0 <= i < list.len() && list[i] == value;
    list.lemma_filter_contains(keep, i);
}

proof fn lemma_filter_twice(list: Seq<usize>, keep: spec_fn(usize) -> bool)
    ensures
        list.filter(keep).filter(keep) == list.filter(keep),
    decreases list.len(),
{
    reveal(Seq::filter);
    if list.len() > 0 {
        let rest = list.drop_last().filter(keep);
        lemma_filter_twice(list.drop_last(), keep);
        if keep(list.last()) {
            assert(rest.push(list.last()).drop_last() =~= rest);
        }
    }
}

/// What stands in a filtered list stands in the list in the same order.
pub proof fn lemma_filter_precedes(
    list: Seq<usize>,
    keep: spec_fn(usize) -> bool,
    left: usize,
    right: usize,
)
    requires
        precedes(list.filter(keep), left, right),
    ensures
        precedes(list, left, right),
    decreases list.len(),
{
    reveal(Seq::filter);
    let kept = list.filter(keep);
    let (i, j) = choose|i: int, j: int|
        0 <= i < j < kept.len() && #[trigger] kept[i] == left && #[trigger] kept[j] == right;
    if list.len() > 0 {
        let rest = list.drop_last();
        let shorter = rest.filter(keep);
        if j < shorter.len() {
            assert(shorter[i] == left && shorter[j] == right);
            lemma_filter_precedes(rest, keep, left, right);
            assert(list =~= Seq::<usize>::empty() + rest + seq![list.last()]);
            lemma_precedes_within(Seq::empty(), rest, seq![list.last()], left, right);
        } else {
            assert(shorter[i] == left);
            rest.lemma_filter_contains_rev(keep, left);
            let k = choose|k: int| 0 <= k < rest.len() && rest[k] == left;
            assert(list[k] == left && list[list.len() - 1] == right);
        }
    }
}

} // verus!
