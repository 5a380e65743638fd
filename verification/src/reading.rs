//! Reads a page: panels hold bubbles and text, bubbles hold text.

use vstd::prelude::*;

use crate::bits::double_order;
use crate::direction::{
    apart, beyond, divided, formed, lemma_forest_part, lemma_forest_precedes, lemma_panel_direction,
    lemma_precedes_within, lemma_spatial_direction, precedes, together, undivided,
};
use crate::language::Language;
use crate::layout::{
    known, law_spatial_keeps_items, sort_spatial, spatial, Geometry, LayoutItem, LayoutKind,
    Metrics, ReadingOrder, SpatialAxis,
};
use crate::lists::{lemma_same_elements_len, same_elements};
use crate::ordering::places;
use crate::stage::EntityId;
use crate::tree::{
    append_layout_subtree, forest, lemma_forest_complete, lemma_forest_members, subtree, Family,
};

verus! {

/// How well an item lies in another: nothing where it does not, or else the order of how much
/// of it does, and that of the other item's area.
pub open spec fn steady_fit<F: Fn(usize, usize) -> Option<(i64, i64)>>(fit: F) -> bool {
    &&& forall|candidate: usize, value: usize| #[trigger] call_requires(fit, (candidate, value))
    &&& forall|
        candidate: usize,
        value: usize,
        left: Option<(i64, i64)>,
        right: Option<(i64, i64)>,
    | #[trigger]
        call_ensures(fit, (candidate, value), left) && #[trigger] call_ensures(
            fit,
            (candidate, value),
            right,
        ) ==> left == right
}

/// How well items lie in each other, as a mathematical function.
pub open spec fn fit_of<F: Fn(usize, usize) -> Option<(i64, i64)>>(fit: F) -> spec_fn(
    usize,
    usize,
) -> Option<(i64, i64)> {
    |candidate: usize, value: usize|
        choose|result: Option<(i64, i64)>| call_ensures(fit, (candidate, value), result)
}

/// One container is better than another: it holds more of the item or, where that is equal,
/// is smaller or, where that is equal too, comes first.
pub open spec fn better_container(
    left: usize,
    left_fit: (i64, i64),
    right: usize,
    right_fit: (i64, i64),
) -> bool {
    left_fit.0 > right_fit.0 || (left_fit.0 == right_fit.0 && (left_fit.1 < right_fit.1 || (
    left_fit.1 == right_fit.1 && left < right)))
}

/// The best container for an item among the first candidates.
pub open spec fn best_of(
    fit: spec_fn(usize, usize) -> Option<(i64, i64)>,
    value: usize,
    candidates: Seq<usize>,
) -> Option<usize>
    decreases candidates.len(),
{
    if candidates.len() == 0 {
        None
    } else {
        let best = best_of(fit, value, candidates.drop_last());
        let other = candidates.last();
        match fit(other, value) {
            None => best,
            Some(other_fit) => match best {
                None => Some(other),
                Some(current) => if better_container(
                    other,
                    other_fit,
                    current,
                    fit(current, value)->0,
                ) {
                    Some(other)
                } else {
                    best
                },
            },
        }
    }
}

/// The best container is a candidate that holds the item, and no other is better.
pub proof fn lemma_best_of(
    fit: spec_fn(usize, usize) -> Option<(i64, i64)>,
    value: usize,
    candidates: Seq<usize>,
)
    ensures
        match best_of(fit, value, candidates) {
            None => forall|i: int|
                0 <= i < candidates.len() ==> fit(#[trigger] candidates[i], value) is None,
            Some(best) => {
                &&& candidates.contains(best)
                &&& fit(best, value) is Some
                &&& forall|i: int|
                    0 <= i < candidates.len() && fit(
                        #[trigger] candidates[i],
                        value,
                    ) is Some ==> !better_container(
                        candidates[i],
                        fit(candidates[i], value)->0,
                        best,
                        fit(best, value)->0,
                    )
            },
        },
    decreases candidates.len(),
{
    if candidates.len() > 0 {
        let rest = candidates.drop_last();
        lemma_best_of(fit, value, rest);
        assert forall|i: int| 0 <= i < rest.len() implies rest[i] == candidates[i] by {}
        if let Some(best) = best_of(fit, value, candidates) {
            if best_of(fit, value, rest) == Some(best) {
                let i = choose|i: int| 0 <= i < rest.len() && rest[i] == best;
                assert(candidates[i] == best);
            } else {
                assert(candidates[candidates.len() - 1] == best);
            }
        }
        assert forall|i: int| 0 <= i < candidates.len() && fit(
            #[trigger] candidates[i],
            value,
        ) is Some implies best_of(fit, value, candidates) is Some && !better_container(
            candidates[i],
            fit(candidates[i], value)->0,
            best_of(fit, value, candidates)->0,
            fit(best_of(fit, value, candidates)->0, value)->0,
        ) by {
            if i < rest.len() {
                assert(rest[i] == candidates[i]);
            }
        }
    }
}

/// The candidate that holds an item best, if one does.
pub fn best_container<F: Fn(usize, usize) -> Option<(i64, i64)>>(
    value: usize,
    candidates: &Vec<usize>,
    fit: &F,
) -> (result: Option<usize>)
    requires
        steady_fit(*fit),
    ensures
        result == best_of(fit_of(*fit), value, candidates@),
{
    let ghost measure = fit_of(*fit);
    let mut best: Option<(usize, (i64, i64))> = None;
    let mut index: usize = 0;
    while index < candidates.len()
        invariant
            index <= candidates.len(),
            steady_fit(*fit),
            measure == fit_of(*fit),
            match best {
                None => best_of(measure, value, candidates@.take(index as int)) is None,
                Some((current, quality)) => best_of(measure, value, candidates@.take(index as int))
                    == Some(current) && measure(current, value) == Some(quality),
            },
        decreases candidates.len() - index,
    {
        let other: usize = candidates[index];
        let found = fit(other, value);
        proof {
            assert(measure(other, value) == found);
            let next = candidates@.take(index as int + 1);
            assert(next.drop_last() =~= candidates@.take(index as int));
        }
        if let Some(quality) = found {
            let replace = match best {
                None => true,
                Some((current, held)) => quality.0 > held.0 || (quality.0 == held.0 && (quality.1
                    < held.1 || (quality.1 == held.1 && other < current))),
            };
            if replace {
                best = Some((other, quality));
            }
        }
        index += 1;
    }
    proof {
        assert(candidates@.take(index as int) =~= candidates@);
    }
    match best {
        None => None,
        Some((current, _)) => Some(current),
    }
}

pub open spec fn of_kind(items: Seq<LayoutItem>, kind: LayoutKind) -> spec_fn(usize) -> bool {
    |index: usize| items[index as int].kind == kind
}

/// The items of one kind.
pub open spec fn kind_indices(items: Seq<LayoutItem>, kind: LayoutKind) -> Seq<usize> {
    places(items.len()).filter(of_kind(items, kind))
}

/// The items of one kind, in order.
pub fn indices_with_kind(items: &Vec<LayoutItem>, kind: LayoutKind) -> (result: Vec<usize>)
    ensures
        result@ == kind_indices(items@, kind),
        forall|i: int|
            0 <= i < result.len() ==> (#[trigger] result@[i]) < items.len()
                && items@[result@[i] as int].kind == kind,
{
    let ghost all = places(items@.len());
    let mut result: Vec<usize> = Vec::new();
    let mut index: usize = 0;
    while index < items.len()
        invariant
            index <= items.len(),
            all == places(items@.len()),
            result@ == all.take(index as int).filter(of_kind(items@, kind)),
            forall|i: int|
                0 <= i < result.len() ==> (#[trigger] result@[i]) < items.len()
                    && items@[result@[i] as int].kind == kind,
        decreases items.len() - index,
    {
        proof {
            let next = all.take(index as int + 1);
            assert(next.drop_last() =~= all.take(index as int));
            assert(next.last() == index);
            reveal(Seq::filter);
        }
        if items[index].kind == kind {
            result.push(index);
        }
        index += 1;
    }
    proof {
        assert(all.take(index as int) =~= all);
    }
    result
}

/// The item that another one lies in: a bubble in a panel, text in a bubble or else in a panel.
pub open spec fn parent_of(
    items: Seq<LayoutItem>,
    fit: spec_fn(usize, usize) -> Option<(i64, i64)>,
) -> spec_fn(usize) -> Option<usize> {
    |index: usize|
        match items[index as int].kind {
            LayoutKind::Bubble => best_of(fit, index, kind_indices(items, LayoutKind::Panel)),
            LayoutKind::Text => match best_of(
                fit,
                index,
                kind_indices(items, LayoutKind::Bubble),
            ) {
                Some(bubble) => Some(bubble),
                None => best_of(fit, index, kind_indices(items, LayoutKind::Panel)),
            },
            _ => None,
        }
}

/// Panels stand above bubbles, and bubbles above text.
pub open spec fn level_of(items: Seq<LayoutItem>) -> spec_fn(usize) -> int {
    |index: usize|
        match items[index as int].kind {
            LayoutKind::Panel => 0,
            LayoutKind::Bubble => 1,
            _ => 2,
        }
}

pub open spec fn has_parent(
    parent: spec_fn(usize) -> Option<usize>,
    wanted: Option<usize>,
) -> spec_fn(usize) -> bool {
    |index: usize| parent(index) == wanted
}

/// The items that lie in a given one, or in none, in the order in which they are read.
pub open spec fn siblings(
    items: Seq<LayoutItem>,
    fit: spec_fn(usize, usize) -> Option<(i64, i64)>,
    wanted: Option<usize>,
    order: ReadingOrder,
    geometry: Geometry,
) -> Seq<usize> {
    spatial(
        items,
        places(items.len()).filter(has_parent(parent_of(items, fit), wanted)),
        order,
        geometry,
    )
}

/// The items of a page as a forest.
pub open spec fn family_of(
    items: Seq<LayoutItem>,
    fit: spec_fn(usize, usize) -> Option<(i64, i64)>,
    order: ReadingOrder,
    geometry: Geometry,
) -> Family {
    Family {
        len: items.len(),
        parent: parent_of(items, fit),
        level: level_of(items),
        kids: |index: usize| siblings(items, fit, Some(index), order, geometry),
    }
}

/// All items of a page in the order in which they are read: each item is followed by those
/// that lie in it.
pub open spec fn page_order(
    items: Seq<LayoutItem>,
    fit: spec_fn(usize, usize) -> Option<(i64, i64)>,
    order: ReadingOrder,
    geometry: Geometry,
) -> Seq<usize> {
    forest(
        family_of(items, fit, order, geometry).kids,
        siblings(items, fit, None, order, geometry),
        2,
    )
}

/// A filtered list of the numbers below a length holds each of them that passes once.
proof fn lemma_places_filter(len: nat, keep: spec_fn(usize) -> bool, value: usize)
    requires
        len <= usize::MAX,
    ensures
        places(len).filter(keep).to_multiset().count(value) == (if value < len && keep(value) {
            1nat
        } else {
            0
        }),
        places(len).filter(keep).len() <= len,
        forall|i: int|
            0 <= i < places(len).filter(keep).len() ==> (#[trigger] places(len).filter(keep)[i])
                < len && keep(places(len).filter(keep)[i]),
    decreases len,
{
    reveal(Seq::filter);
    if len == 0 {
        let none = places(len).filter(keep);
        assert(none =~= Seq::empty());
        vstd::seq_lib::to_multiset_contains(none, value);
    } else {
        let rest = (len - 1) as nat;
        lemma_places_filter(rest, keep, value);
        assert(places(len).drop_last() =~= places(rest));
        assert(places(len).last() == rest as usize);
        vstd::seq_lib::to_multiset_build(places(rest).filter(keep), rest as usize);
    }
}

proof fn lemma_best_kind(
    items: Seq<LayoutItem>,
    fit: spec_fn(usize, usize) -> Option<(i64, i64)>,
    value: usize,
    kind: LayoutKind,
)
    requires
        items.len() <= usize::MAX,
    ensures
        best_of(fit, value, kind_indices(items, kind)) matches Some(best) ==> best < items.len()
            && items[best as int].kind == kind,
{
    lemma_best_of(fit, value, kind_indices(items, kind));
    lemma_places_filter(items.len(), of_kind(items, kind), 0);
    if let Some(best) = best_of(fit, value, kind_indices(items, kind)) {
        let list = kind_indices(items, kind);
        let i = choose|i: int| 0 <= i < list.len() && list[i] == best;
        assert(list[i] < items.len() && of_kind(items, kind)(list[i]));
    }
}

/// The items of a page are a forest.
proof fn lemma_family(
    items: Seq<LayoutItem>,
    fit: spec_fn(usize, usize) -> Option<(i64, i64)>,
    order: ReadingOrder,
    geometry: Geometry,
)
    requires
        items.len() <= usize::MAX,
    ensures
        family_of(items, fit, order, geometry).well_formed(),
{
    let family = family_of(items, fit, order, geometry);
    assert forall|i: usize|
        #![trigger (family.parent)(i)]
        i < family.len implies match (family.parent)(i) {
        Some(p) => p < family.len && (family.level)(p) < (family.level)(i),
        None => true,
    } by {
        lemma_best_kind(items, fit, i, LayoutKind::Panel);
        lemma_best_kind(items, fit, i, LayoutKind::Bubble);
    }
    assert forall|p: usize, c: usize|
        #![trigger (family.kids)(p).to_multiset().count(c)]
        (family.kids)(p).to_multiset().count(c) == (if c < family.len && (family.parent)(c) == Some(
            p,
        ) {
            1nat
        } else {
            0
        }) by {
        lemma_siblings(items, fit, Some(p), order, geometry, c);
    }
}

proof fn lemma_siblings(
    items: Seq<LayoutItem>,
    fit: spec_fn(usize, usize) -> Option<(i64, i64)>,
    wanted: Option<usize>,
    order: ReadingOrder,
    geometry: Geometry,
    value: usize,
)
    requires
        items.len() <= usize::MAX,
    ensures
        siblings(items, fit, wanted, order, geometry).to_multiset().count(value) == (if value
            < items.len() && parent_of(items, fit)(value) == wanted {
            1nat
        } else {
            0
        }),
{
    let keep = has_parent(parent_of(items, fit), wanted);
    let list = places(items.len()).filter(keep);
    lemma_places_filter(items.len(), keep, value);
    law_spatial_keeps_items(items, list, order, geometry);
}

/// Reading a page visits every item exactly once.
pub proof fn law_every_item_is_read_once(
    items: Seq<LayoutItem>,
    fit: spec_fn(usize, usize) -> Option<(i64, i64)>,
    order: ReadingOrder,
    geometry: Geometry,
)
    requires
        items.len() <= usize::MAX,
    ensures
        same_elements(page_order(items, fit, order, geometry), places(items.len())),
        page_order(items, fit, order, geometry).len() == items.len(),
        page_order(items, fit, order, geometry).no_duplicates(),
        forall|i: int|
            0 <= i < items.len() ==> (#[trigger] page_order(items, fit, order, geometry)[i])
                < items.len(),
{
    let family = family_of(items, fit, order, geometry);
    let roots = siblings(items, fit, None, order, geometry);
    let result = page_order(items, fit, order, geometry);
    let all = places(items.len());
    lemma_family(items, fit, order, geometry);
    assert forall|i: usize|
        #![trigger roots.to_multiset().count(i)]
        roots.to_multiset().count(i) == (if i < family.len && (family.parent)(i) is None {
            1nat
        } else {
            0
        }) by {
        lemma_siblings(items, fit, None, order, geometry, i);
    }
    assert forall|i: int| 0 <= i < roots.len() implies (#[trigger] roots[i]) < family.len by {
        assert(roots.contains(roots[i]));
        vstd::seq_lib::to_multiset_contains(roots, roots[i]);
    }
    lemma_forest_complete(family, roots);
    lemma_forest_members(family, roots, 2);
    assert forall|i: usize| result.to_multiset().count(i) == all.to_multiset().count(i) by {
        lemma_places_filter(items.len(), |value: usize| true, i);
        assert(all.filter(|value: usize| true) =~= all) by {
            lemma_filter_all(all);
        }
        if i >= items.len() {
            vstd::seq_lib::to_multiset_contains(result, i);
            if result.contains(i) {
                let k = choose|k: int| 0 <= k < result.len() && result[k] == i;
                assert(result[k] < family.len);
            }
        } else {
            assert(forest(family.kids, roots, 2).to_multiset().count(i) == 1);
        }
    }
    assert(result.to_multiset() =~= all.to_multiset());
    lemma_same_elements_len(result, all);
    assert forall|i: int, j: int| 0 <= i < j < all.len() implies all[i] != all[j] by {}
    assert(all.no_duplicates());
    all.lemma_multiset_has_no_duplicates();
    assert forall|x: usize| result.to_multiset().contains(x) implies result.to_multiset().count(x)
        == 1 by {}
    result.lemma_multiset_has_no_duplicates_conv();
}

proof fn lemma_filter_all(list: Seq<usize>)
    ensures
        list.filter(|value: usize| true) == list,
    decreases list.len(),
{
    reveal(Seq::filter);
    if list.len() > 0 {
        lemma_filter_all(list.drop_last());
        assert(list =~= list.drop_last().push(list.last()));
    } else {
        assert(list.filter(|value: usize| true) =~= list);
    }
}

/// The items that lie in one stand in one piece of the page's order, each with what lies in it.
proof fn lemma_page_part(
    items: Seq<LayoutItem>,
    fit: spec_fn(usize, usize) -> Option<(i64, i64)>,
    order: ReadingOrder,
    geometry: Geometry,
    index: usize,
) -> (part: (Seq<usize>, Seq<usize>, nat))
    requires
        items.len() <= usize::MAX,
        index < items.len(),
    ensures
        page_order(items, fit, order, geometry) == part.0 + forest(
            family_of(items, fit, order, geometry).kids,
            siblings(items, fit, parent_of(items, fit)(index), order, geometry),
            part.2,
        ) + part.1,
        parent_of(items, fit)(index) matches Some(p) ==> part.0.contains(p),
        part.2 >= 2 - level_of(items)(index),
{
    let family = family_of(items, fit, order, geometry);
    lemma_family(items, fit, order, geometry);
    let whole = page_order(items, fit, order, geometry);
    let roots = siblings(items, fit, None, order, geometry);
    match parent_of(items, fit)(index) {
        None => {
            assert(whole =~= Seq::<usize>::empty() + whole + Seq::<usize>::empty());
            (Seq::empty(), Seq::empty(), 2)
        },
        Some(p) => {
            assert((family.parent)(index) == Some(p));
            assert((family.level)(p) < (family.level)(index));
            match parent_of(items, fit)(p) {
                None => {
                    let at = lemma_sibling_at(items, fit, order, geometry, p);
                    let around = lemma_forest_part(family.kids, roots, 2, at);
                    let before = around.0 + seq![p];
                    assert(whole =~= before + forest(family.kids, (family.kids)(p), 1) + around.1);
                    assert(before[around.0.len() as int] == p);
                    (before, around.1, 1)
                },
                Some(q) => {
                    assert((family.parent)(p) == Some(q));
                    assert((family.level)(q) < (family.level)(p));
                    assert((family.parent)(q) is None) by {
                        if (family.parent)(q) is Some {
                            assert((family.level)((family.parent)(q)->0) >= 0);
                        }
                    }
                    let at = lemma_sibling_at(items, fit, order, geometry, q);
                    let outer = lemma_forest_part(family.kids, roots, 2, at);
                    let within = lemma_sibling_at(items, fit, order, geometry, p);
                    let inner = lemma_forest_part(family.kids, (family.kids)(q), 1, within);
                    let before = outer.0 + seq![q] + inner.0 + seq![p];
                    let after = inner.1 + outer.1;
                    assert(whole =~= before + forest(family.kids, (family.kids)(p), 0) + after);
                    assert(before[before.len() - 1] == p);
                    (before, after, 0)
                },
            }
        },
    }
}

/// The place of an item among those that lie in the same one.
proof fn lemma_sibling_at(
    items: Seq<LayoutItem>,
    fit: spec_fn(usize, usize) -> Option<(i64, i64)>,
    order: ReadingOrder,
    geometry: Geometry,
    index: usize,
) -> (at: int)
    requires
        items.len() <= usize::MAX,
        index < items.len(),
    ensures
        0 <= at < siblings(items, fit, parent_of(items, fit)(index), order, geometry).len(),
        siblings(items, fit, parent_of(items, fit)(index), order, geometry)[at] == index,
{
    let list = siblings(items, fit, parent_of(items, fit)(index), order, geometry);
    lemma_siblings(items, fit, parent_of(items, fit)(index), order, geometry, index);
    vstd::seq_lib::to_multiset_contains(list, index);
    choose|at: int| 0 <= at < list.len() && list[at] == index
}

/// Items that lie in the same one stand in the page's order as they do among themselves.
proof fn lemma_siblings_precede(
    items: Seq<LayoutItem>,
    fit: spec_fn(usize, usize) -> Option<(i64, i64)>,
    order: ReadingOrder,
    geometry: Geometry,
    left: usize,
    right: usize,
)
    requires
        items.len() <= usize::MAX,
        left < items.len(),
        precedes(
            siblings(items, fit, parent_of(items, fit)(left), order, geometry),
            left,
            right,
        ),
    ensures
        precedes(page_order(items, fit, order, geometry), left, right),
{
    let kids = family_of(items, fit, order, geometry).kids;
    let list = siblings(items, fit, parent_of(items, fit)(left), order, geometry);
    let part = lemma_page_part(items, fit, order, geometry, left);
    let (i, j) = choose|i: int, j: int|
        0 <= i < j < list.len() && #[trigger] list[i] == left && #[trigger] list[j] == right;
    assert(subtree(kids, left, part.2)[0] == left);
    assert(subtree(kids, right, part.2)[0] == right);
    lemma_forest_precedes(kids, list, part.2, i, j, left, right);
    lemma_precedes_within(part.0, forest(kids, list, part.2), part.1, left, right);
}

/// The items that lie in the same one are given to be put in order, each once.
proof fn lemma_given(
    items: Seq<LayoutItem>,
    fit: spec_fn(usize, usize) -> Option<(i64, i64)>,
    wanted: Option<usize>,
    index: usize,
)
    requires
        items.len() <= usize::MAX,
        index < items.len(),
        parent_of(items, fit)(index) == wanted,
    ensures
        places(items.len()).filter(has_parent(parent_of(items, fit), wanted)).contains(index),
        places(items.len()).filter(has_parent(parent_of(items, fit), wanted)).no_duplicates(),
        places(items.len()).filter(has_parent(parent_of(items, fit), wanted)).len() <= items.len(),
        known(items, places(items.len()).filter(has_parent(parent_of(items, fit), wanted))),
{
    let keep = has_parent(parent_of(items, fit), wanted);
    let list = places(items.len()).filter(keep);
    lemma_places_filter(items.len(), keep, index);
    vstd::seq_lib::to_multiset_contains(list, index);
    assert forall|value: usize| list.to_multiset().contains(value) implies list.to_multiset().count(
        value,
    ) == 1 by {
        lemma_places_filter(items.len(), keep, value);
    }
    list.lemma_multiset_has_no_duplicates_conv();
}

/// A page in Japanese or Chinese is read from right to left by columns: of two regions in the same
/// panel or bubble, or in none, that are no panels themselves, the one in the column farther to the
/// right comes first and, in one column, the upper one. A page in any other language is read
/// by rows: the region in the upper row comes first and, in one row, the one to the left.
pub proof fn law_pages_are_read_in_the_direction_of_their_language(
    items: Seq<LayoutItem>,
    fit: spec_fn(usize, usize) -> Option<(i64, i64)>,
    language: Language,
    geometry: Geometry,
    first: usize,
    second: usize,
)
    requires
        items.len() <= usize::MAX,
        first < items.len(),
        second < items.len(),
        first != second,
        items[first as int].kind != LayoutKind::Panel,
        items[second as int].kind != LayoutKind::Panel,
        parent_of(items, fit)(first) == parent_of(items, fit)(second),
    ensures
        language == Language::Japanese || language == Language::ChineseSimplified || language
            == Language::ChineseTraditional ==> {
            &&& apart(geometry, items.len(), first, second) && beyond(geometry, items.len(), first, second) ==> precedes(
                page_order(items, fit, ReadingOrder::of(language), geometry),
                first,
                second,
            )
            &&& together(geometry, items.len(), first, second) && double_order(items[first as int].bounds@[1])
                < double_order(items[second as int].bounds@[1]) ==> precedes(
                page_order(items, fit, ReadingOrder::of(language), geometry),
                first,
                second,
            )
        },
        language != Language::Japanese && language != Language::ChineseSimplified && language
            != Language::ChineseTraditional ==> {
            &&& apart(geometry, items.len(), first, second) && beyond(geometry, items.len(), second, first) ==> precedes(
                page_order(items, fit, ReadingOrder::of(language), geometry),
                first,
                second,
            )
            &&& together(geometry, items.len(), first, second) && double_order(items[first as int].bounds@[0])
                < double_order(items[second as int].bounds@[0]) ==> precedes(
                page_order(items, fit, ReadingOrder::of(language), geometry),
                first,
                second,
            )
        },
{
    let order = ReadingOrder::of(language);
    let wanted = parent_of(items, fit)(first);
    lemma_given(items, fit, wanted, first);
    lemma_given(items, fit, wanted, second);
    let indices = places(items.len()).filter(has_parent(parent_of(items, fit), wanted));
    let columns = language == Language::Japanese || language == Language::ChineseSimplified
        || language == Language::ChineseTraditional;
    if (columns && apart(geometry, items.len(), first, second) && beyond(geometry, items.len(), first, second)) || (columns
        && together(geometry, items.len(), first, second) && double_order(items[first as int].bounds@[1])
        < double_order(items[second as int].bounds@[1])) || (!columns && apart(
        geometry,
        items.len(),
        first,
        second,
    ) && beyond(geometry, items.len(), second, first)) || (!columns && together(geometry, items.len(), first, second)
        && double_order(items[first as int].bounds@[0]) < double_order(
        items[second as int].bounds@[0],
    )) {
        lemma_spatial_direction(items, indices, order, geometry, first, second);
        lemma_siblings_precede(items, fit, order, geometry, first, second);
    }
}

/// A column or row of two regions at most is the one, the other, or one behind the other that it
/// joined.
proof fn lemma_formed_of_two(
    geometry: Geometry,
    all: Seq<usize>,
    group: Seq<usize>,
    first: usize,
    second: usize,
)
    requires
        formed(geometry, 2, all, group),
        first < 2,
        second < 2,
        first != second,
    ensures
        ({
            ||| group == seq![first]
            ||| group == seq![second]
            ||| group == seq![first, second] && (geometry.joins)(all, seq![first], second)
            ||| group == seq![second, first] && (geometry.joins)(all, seq![second], first)
        }),
{
    assert forall|k: int| 0 <= k < group.len() implies #[trigger] group[k] == first || group[k]
        == second by {
        assert(all.contains(group[k]));
        let i = choose|i: int| 0 <= i < all.len() && all[i] == group[k];
        assert(all[i] < 2);
    }
    if group.len() >= 3 {
        assert(group[0] != group[1] && group[1] != group[2] && group[0] != group[2]);
    } else if group.len() == 2 {
        assert(group[0] != group[1]);
        assert(group.take(1) =~= seq![group[0]]);
        assert((geometry.joins)(all, group.take(1), group[1]));
        assert(group =~= seq![group[0], group[1]]);
    } else {
        assert(group =~= seq![group[0]]);
    }
}

/// Neither of two regions joins a column or row that holds the other alone.
pub open spec fn never_join(geometry: Geometry, first: usize, second: usize) -> bool {
    forall|all: Seq<usize>|
        !#[trigger] (geometry.joins)(all, seq![first], second) && !(geometry.joins)(
            all,
            seq![second],
            first,
        )
}

/// Each of two regions joins a column or row that holds the other alone.
pub open spec fn always_join(geometry: Geometry, first: usize, second: usize) -> bool {
    forall|all: Seq<usize>|
        #[trigger] (geometry.joins)(all, seq![first], second) && (geometry.joins)(
            all,
            seq![second],
            first,
        )
}

/// Of two texts on a page, neither in the column of the other, the right one is read first in
/// Japanese and Chinese. In any other language the upper of two texts in different rows is read
/// first, and the left of two texts in one row.
pub proof fn law_two_texts_beside_each_other(
    items: Seq<LayoutItem>,
    fit: spec_fn(usize, usize) -> Option<(i64, i64)>,
    language: Language,
    geometry: Geometry,
    first: usize,
    second: usize,
)
    requires
        items.len() == 2,
        items[0].kind == LayoutKind::Text,
        items[1].kind == LayoutKind::Text,
        first < 2,
        second < 2,
        first != second,
    ensures
        ({
            let columns = language == Language::Japanese || language == Language::ChineseSimplified
                || language == Language::ChineseTraditional;
            let separate = never_join(geometry, first, second);
            let joined = always_join(geometry, first, second);
            let gap = (geometry.center)(seq![first]) - (geometry.center)(seq![second]);
            let order = page_order(items, fit, ReadingOrder::of(language), geometry);
            &&& columns && separate && gap > 0 ==> order == seq![first, second]
            &&& !columns && separate && gap < 0 ==> order == seq![first, second]
            &&& columns && joined && double_order(items[first as int].bounds@[1]) < double_order(
                items[second as int].bounds@[1],
            ) ==> order == seq![first, second]
            &&& !columns && joined && double_order(items[first as int].bounds@[0]) < double_order(
                items[second as int].bounds@[0],
            ) ==> order == seq![first, second]
        }),
{
    let order = page_order(items, fit, ReadingOrder::of(language), geometry);
    lemma_best_kind(items, fit, first, LayoutKind::Panel);
    lemma_best_kind(items, fit, first, LayoutKind::Bubble);
    lemma_best_kind(items, fit, second, LayoutKind::Panel);
    lemma_best_kind(items, fit, second, LayoutKind::Bubble);
    assert(parent_of(items, fit)(first) is None);
    assert(parent_of(items, fit)(second) is None);
    assert(seq![first][0] == first && seq![second][0] == second);
    if never_join(geometry, first, second) {
        assert forall|all: Seq<usize>, group: Seq<usize>|
            #[trigger] formed(geometry, 2, all, group) implies group == seq![first] || group
            == seq![second] by {
            lemma_formed_of_two(geometry, all, group, first, second);
            assert(!(geometry.joins)(all, seq![first], second));
        }
        assert(apart(geometry, 2, first, second));
        if (geometry.center)(seq![first]) > (geometry.center)(seq![second]) {
            assert(beyond(geometry, 2, first, second));
        }
        if (geometry.center)(seq![first]) < (geometry.center)(seq![second]) {
            assert(beyond(geometry, 2, second, first));
        }
    }
    if always_join(geometry, first, second) {
        assert forall|all: Seq<usize>, group: Seq<usize>| #[trigger]
            formed(geometry, 2, all, group) implies {
            &&& !group.contains(second) ==> (geometry.joins)(all, group, second)
                == group.contains(first)
            &&& !group.contains(first) ==> (geometry.joins)(all, group, first) == group.contains(
                second,
            )
        } by {
            lemma_formed_of_two(geometry, all, group, first, second);
            assert((geometry.joins)(all, seq![first], second));
            assert(group[0] == first || group[0] == second);
            if group.len() == 2 {
                assert(group[1] == first || group[1] == second);
            }
        }
        assert(together(geometry, 2, first, second));
    }
    law_pages_are_read_in_the_direction_of_their_language(
        items,
        fit,
        language,
        geometry,
        first,
        second,
    );
    law_every_item_is_read_once(items, fit, ReadingOrder::of(language), geometry);
    if precedes(order, first, second) {
        let (i, j) = choose|i: int, j: int|
            0 <= i < j < order.len() && #[trigger] order[i] == first && #[trigger] order[j]
                == second;
        assert(order =~= seq![first, second]);
    }
}

/// The panels of a page in Japanese or Chinese are read from right to left where a gap from top to
/// bottom parts them and, where there is no such gap, from top to bottom. Those of a page in any
/// other language are read from top to bottom where a gap from left to right parts them and, where
/// there is no such gap, from left to right.
pub proof fn law_panels_are_read_in_the_direction_of_their_language(
    items: Seq<LayoutItem>,
    fit: spec_fn(usize, usize) -> Option<(i64, i64)>,
    language: Language,
    geometry: Geometry,
    first: usize,
    second: usize,
)
    requires
        items.len() <= usize::MAX,
        first < items.len(),
        second < items.len(),
        first != second,
        items[first as int].kind == LayoutKind::Panel,
        items[second as int].kind == LayoutKind::Panel,
    ensures
        language == Language::Japanese || language == Language::ChineseSimplified || language
            == Language::ChineseTraditional ==> {
            &&& divided(geometry, second, first, SpatialAxis::X) && double_order(
                items[second as int].bounds@[0],
            ) < double_order(items[first as int].bounds@[0]) ==> precedes(
                page_order(items, fit, ReadingOrder::of(language), geometry),
                first,
                second,
            )
            &&& undivided(geometry, SpatialAxis::X) && divided(
                geometry,
                first,
                second,
                SpatialAxis::Y,
            ) && double_order(items[first as int].bounds@[1]) < double_order(
                items[second as int].bounds@[1],
            ) ==> precedes(
                page_order(items, fit, ReadingOrder::of(language), geometry),
                first,
                second,
            )
        },
        language != Language::Japanese && language != Language::ChineseSimplified && language
            != Language::ChineseTraditional ==> {
            &&& divided(geometry, first, second, SpatialAxis::Y) && double_order(
                items[first as int].bounds@[1],
            ) < double_order(items[second as int].bounds@[1]) ==> precedes(
                page_order(items, fit, ReadingOrder::of(language), geometry),
                first,
                second,
            )
            &&& undivided(geometry, SpatialAxis::Y) && divided(
                geometry,
                first,
                second,
                SpatialAxis::X,
            ) && double_order(items[first as int].bounds@[0]) < double_order(
                items[second as int].bounds@[0],
            ) ==> precedes(
                page_order(items, fit, ReadingOrder::of(language), geometry),
                first,
                second,
            )
        },
{
    let order = ReadingOrder::of(language);
    lemma_given(items, fit, None, first);
    lemma_given(items, fit, None, second);
    let indices = places(items.len()).filter(has_parent(parent_of(items, fit), None));
    let columns = language == Language::Japanese || language == Language::ChineseSimplified
        || language == Language::ChineseTraditional;
    let x = double_order(items[second as int].bounds@[0]) - double_order(
        items[first as int].bounds@[0],
    );
    let y = double_order(items[second as int].bounds@[1]) - double_order(
        items[first as int].bounds@[1],
    );
    if (columns && divided(geometry, second, first, SpatialAxis::X) && x < 0) || (columns
        && undivided(geometry, SpatialAxis::X) && divided(geometry, first, second, SpatialAxis::Y)
        && y > 0) || (!columns && divided(geometry, first, second, SpatialAxis::Y) && y > 0) || (
    !columns && undivided(geometry, SpatialAxis::Y) && divided(
        geometry,
        first,
        second,
        SpatialAxis::X,
    ) && x > 0) {
        lemma_panel_direction(items, indices, order, geometry, first, second);
        lemma_siblings_precede(items, fit, order, geometry, first, second);
    }
}

/// A panel or a bubble is read before what lies in it, and what lies in it is read before anything
/// beside it that comes later.
pub proof fn law_containers_are_read_with_what_lies_in_them(
    items: Seq<LayoutItem>,
    fit: spec_fn(usize, usize) -> Option<(i64, i64)>,
    order: ReadingOrder,
    geometry: Geometry,
    inner: usize,
    container: usize,
    beside: usize,
)
    requires
        items.len() <= usize::MAX,
        inner < items.len(),
        beside < items.len(),
        parent_of(items, fit)(inner) == Some(container),
    ensures
        precedes(page_order(items, fit, order, geometry), container, inner),
        parent_of(items, fit)(beside) == parent_of(items, fit)(container) && precedes(
            page_order(items, fit, order, geometry),
            container,
            beside,
        ) ==> precedes(page_order(items, fit, order, geometry), inner, beside),
{
    let family = family_of(items, fit, order, geometry);
    lemma_family(items, fit, order, geometry);
    assert((family.parent)(inner) == Some(container));
    let whole = page_order(items, fit, order, geometry);
    let part = lemma_page_part(items, fit, order, geometry, inner);
    let place = lemma_sibling_at(items, fit, order, geometry, inner);
    let list = siblings(items, fit, Some(container), order, geometry);
    let around = lemma_forest_part(family.kids, list, part.2, place);
    let i = choose|i: int| 0 <= i < part.0.len() && part.0[i] == container;
    assert(subtree(family.kids, inner, part.2)[0] == inner);
    assert(whole[i] == container);
    assert(whole[(part.0.len() + around.0.len()) as int] == inner);
    if parent_of(items, fit)(beside) == parent_of(items, fit)(container) && precedes(
        whole,
        container,
        beside,
    ) {
        law_every_item_is_read_once(items, fit, order, geometry);
        let outer = lemma_page_part(items, fit, order, geometry, container);
        let wanted = parent_of(items, fit)(container);
        let all = siblings(items, fit, wanted, order, geometry);
        let p = lemma_sibling_at(items, fit, order, geometry, container);
        let q = lemma_sibling_at(items, fit, order, geometry, beside);
        let (k, l) = choose|k: int, l: int|
            0 <= k < l < whole.len() && #[trigger] whole[k] == container && #[trigger] whole[l]
                == beside;
        assert(container != beside);
        if q < p {
            assert(precedes(all, beside, container));
            lemma_siblings_precede(items, fit, order, geometry, beside, container);
            let (m, n) = choose|m: int, n: int|
                0 <= m < n < whole.len() && #[trigger] whole[m] == beside && #[trigger] whole[n]
                    == container;
            assert(m == l && n == k);
        }
        let below = subtree(family.kids, container, outer.2);
        assert(below.contains(inner)) by {
            assert(outer.2 >= 1);
            let kids = (family.kids)(container);
            let around = lemma_forest_part(family.kids, kids, (outer.2 - 1) as nat, place);
            assert(subtree(family.kids, inner, (outer.2 - 1) as nat)[0] == inner);
            assert(below[1 + around.0.len() as int] == inner);
        }
        assert(subtree(family.kids, beside, outer.2)[0] == beside);
        lemma_forest_precedes(family.kids, all, outer.2, p, q, inner, beside);
        lemma_precedes_within(
            outer.0,
            forest(family.kids, all, outer.2),
            outer.1,
            inner,
            beside,
        );
    }
}

/// A text lies in a bubble if it fits any, and else in a panel if it fits any. A bubble lies in a
/// panel if it fits any. Of all that fit it is the one that holds most and, of those that hold as
/// much, the smallest.
pub proof fn law_items_lie_where_they_fit_best(
    items: Seq<LayoutItem>,
    fit: spec_fn(usize, usize) -> Option<(i64, i64)>,
    index: usize,
    other: usize,
    quality: (i64, i64),
)
    requires
        items.len() <= usize::MAX,
        index < items.len(),
        other < items.len(),
        fit(other, index) == Some(quality),
    ensures
        items[index as int].kind == LayoutKind::Text && items[other as int].kind
            == LayoutKind::Bubble ==> {
            &&& parent_of(items, fit)(index) matches Some(p)
            &&& p < items.len() && items[p as int].kind == LayoutKind::Bubble
            &&& fit(p, index) matches Some(held)
            &&& held.0 >= quality.0
            &&& held.0 == quality.0 ==> held.1 <= quality.1
        },
        items[index as int].kind == LayoutKind::Bubble && items[other as int].kind
            == LayoutKind::Panel ==> {
            &&& parent_of(items, fit)(index) matches Some(p)
            &&& p < items.len() && items[p as int].kind == LayoutKind::Panel
            &&& fit(p, index) matches Some(held)
            &&& held.0 >= quality.0
            &&& held.0 == quality.0 ==> held.1 <= quality.1
        },
        items[index as int].kind == LayoutKind::Text && items[other as int].kind
            == LayoutKind::Panel && (forall|bubble: usize|
            bubble < items.len() && items[bubble as int].kind == LayoutKind::Bubble
                ==> #[trigger] fit(bubble, index) is None) ==> {
            &&& parent_of(items, fit)(index) matches Some(p)
            &&& p < items.len() && items[p as int].kind == LayoutKind::Panel
            &&& fit(p, index) matches Some(held)
            &&& held.0 >= quality.0
            &&& held.0 == quality.0 ==> held.1 <= quality.1
        },
{
    let kind = items[other as int].kind;
    lemma_best_of(fit, index, kind_indices(items, LayoutKind::Panel));
    lemma_best_of(fit, index, kind_indices(items, LayoutKind::Bubble));
    lemma_best_kind(items, fit, index, LayoutKind::Panel);
    lemma_best_kind(items, fit, index, LayoutKind::Bubble);
    let list = kind_indices(items, kind);
    lemma_places_filter(items.len(), of_kind(items, kind), other);
    vstd::seq_lib::to_multiset_contains(list, other);
    let i = choose|i: int| 0 <= i < list.len() && list[i] == other;
    assert(fit(list[i], index) is Some);
}

fn find_parents<F: Fn(usize, usize) -> Option<(i64, i64)>>(items: &Vec<LayoutItem>, fit: &F) -> (
result: Vec<Option<usize>>)
    requires
        steady_fit(*fit),
    ensures
        result.len() == items.len(),
        forall|i: int|
            0 <= i < items.len() ==> #[trigger] result@[i] == parent_of(items@, fit_of(*fit))(
                i as usize,
            ),
{
    let panels = indices_with_kind(items, LayoutKind::Panel);
    let bubbles = indices_with_kind(items, LayoutKind::Bubble);
    let mut parents: Vec<Option<usize>> = Vec::new();
    let mut index: usize = 0;
    while index < items.len()
        invariant
            index <= items.len(),
            steady_fit(*fit),
            panels@ == kind_indices(items@, LayoutKind::Panel),
            bubbles@ == kind_indices(items@, LayoutKind::Bubble),
            parents.len() == index,
            forall|i: int|
                0 <= i < index ==> #[trigger] parents@[i] == parent_of(items@, fit_of(*fit))(
                    i as usize,
                ),
        decreases items.len() - index,
    {
        let parent = match items[index].kind {
            LayoutKind::Bubble => best_container(index, &panels, fit),
            LayoutKind::Text => match best_container(index, &bubbles, fit) {
                Some(bubble) => Some(bubble),
                None => best_container(index, &panels, fit),
            },
            _ => None,
        };
        parents.push(parent);
        index += 1;
    }
    parents
}

fn same_parent(left: Option<usize>, right: Option<usize>) -> (result: bool)
    ensures
        result == (left == right),
{
    match (left, right) {
        (Some(l), Some(r)) => l == r,
        (None, None) => true,
        _ => false,
    }
}

fn find_siblings<
    J: Fn(&Vec<usize>, &Vec<usize>, usize) -> bool,
    C: Fn(&Vec<usize>) -> i64,
    B: Fn(&Vec<usize>, usize, SpatialAxis) -> bool,
>(
    items: &Vec<LayoutItem>,
    parents: &Vec<Option<usize>>,
    wanted: Option<usize>,
    order: ReadingOrder,
    metrics: &Metrics<J, C, B>,
    Ghost(fit): Ghost<spec_fn(usize, usize) -> Option<(i64, i64)>>,
) -> (result: Vec<usize>)
    requires
        metrics.steady(),
        parents.len() == items.len(),
        forall|i: int|
            0 <= i < items.len() ==> #[trigger] parents@[i] == parent_of(items@, fit)(i as usize),
    ensures
        result@ == siblings(items@, fit, wanted, order, metrics.geometry()),
{
    let ghost all = places(items@.len());
    let ghost keep = has_parent(parent_of(items@, fit), wanted);
    let mut result: Vec<usize> = Vec::new();
    let mut index: usize = 0;
    while index < items.len()
        invariant
            index <= items.len(),
            parents.len() == items.len(),
            all == places(items@.len()),
            keep == has_parent(parent_of(items@, fit), wanted),
            forall|i: int|
                0 <= i < items.len() ==> #[trigger] parents@[i] == parent_of(items@, fit)(
                    i as usize,
                ),
            result@ == all.take(index as int).filter(keep),
            known(items@, result@),
        decreases items.len() - index,
    {
        proof {
            let next = all.take(index as int + 1);
            assert(next.drop_last() =~= all.take(index as int));
            assert(next.last() == index);
            reveal(Seq::filter);
            assert(parents@[index as int] == parent_of(items@, fit)(index));
        }
        if same_parent(parents[index], wanted) {
            result.push(index);
        }
        index += 1;
    }
    proof {
        assert(all.take(index as int) =~= all);
    }
    sort_spatial(items, &mut result, order, metrics);
    result
}

/// Two regions that are no panels lie in the same panel or bubble, or in none.
pub open spec fn beside(
    items: Seq<LayoutItem>,
    fit: spec_fn(usize, usize) -> Option<(i64, i64)>,
    first: usize,
    second: usize,
) -> bool {
    &&& first != second
    &&& first < items.len() && second < items.len()
    &&& items[first as int].kind != LayoutKind::Panel
    &&& items[second as int].kind != LayoutKind::Panel
    &&& parent_of(items, fit)(first) == parent_of(items, fit)(second)
}

/// Two regions stand in an order as a language asks for it.
spec fn direction_kept(
    items: Seq<LayoutItem>,
    language: Language,
    geometry: Geometry,
    order: Seq<usize>,
    first: usize,
    second: usize,
) -> bool {
    let first_item = items[first as int];
    let second_item = items[second as int];
    match language {
        Language::Japanese | Language::ChineseSimplified | Language::ChineseTraditional => {
            &&& apart(geometry, items.len(), first, second) && beyond(geometry, items.len(), first, second) ==> precedes(
                order,
                first,
                second,
            )
            &&& together(geometry, items.len(), first, second) && double_order(first_item.bounds@[1])
                < double_order(second_item.bounds@[1]) ==> precedes(order, first, second)
        },
        _ => {
            &&& apart(geometry, items.len(), first, second) && beyond(geometry, items.len(), second, first) ==> precedes(
                order,
                first,
                second,
            )
            &&& together(geometry, items.len(), first, second) && double_order(first_item.bounds@[0])
                < double_order(second_item.bounds@[0]) ==> precedes(order, first, second)
        },
    }
}

/// All items of a page in the order in which they are read in a language.
pub fn reading_order<
    F: Fn(usize, usize) -> Option<(i64, i64)>,
    J: Fn(&Vec<usize>, &Vec<usize>, usize) -> bool,
    C: Fn(&Vec<usize>) -> i64,
    B: Fn(&Vec<usize>, usize, SpatialAxis) -> bool,
>(items: &Vec<LayoutItem>, source_language: Language, fit: &F, metrics: &Metrics<J, C, B>) -> (
result: Vec<usize>)
    requires
        steady_fit(*fit),
        metrics.steady(),
    ensures
        result@ == page_order(
            items@,
            fit_of(*fit),
            ReadingOrder::of(source_language),
            metrics.geometry(),
        ),
        same_elements(result@, places(items@.len())),
        result.len() == items.len(),
        result@.no_duplicates(),
        forall|i: int| 0 <= i < result.len() ==> (#[trigger] result@[i]) < items.len(),
        forall|first: usize, second: usize| #[trigger]
            beside(items@, fit_of(*fit), first, second) ==> {
                let geometry = metrics.geometry();
                let first_item = items@[first as int];
                let second_item = items@[second as int];
                match source_language {
                    Language::Japanese | Language::ChineseSimplified
                    | Language::ChineseTraditional => {
                        &&& apart(geometry, items@.len(), first, second) && beyond(geometry, items@.len(), first, second)
                            ==> precedes(result@, first, second)
                        &&& together(geometry, items@.len(), first, second) && double_order(
                            first_item.bounds@[1],
                        ) < double_order(second_item.bounds@[1]) ==> precedes(
                            result@,
                            first,
                            second,
                        )
                    },
                    _ => {
                        &&& apart(geometry, items@.len(), first, second) && beyond(geometry, items@.len(), second, first)
                            ==> precedes(result@, first, second)
                        &&& together(geometry, items@.len(), first, second) && double_order(
                            first_item.bounds@[0],
                        ) < double_order(second_item.bounds@[0]) ==> precedes(
                            result@,
                            first,
                            second,
                        )
                    },
                }
            },
{
    proof {
        assert(items.len() == items@.len());
        assert forall|first: usize, second: usize| #[trigger]
            beside(items@, fit_of(*fit), first, second) implies direction_kept(
            items@,
            source_language,
            metrics.geometry(),
            page_order(
                items@,
                fit_of(*fit),
                ReadingOrder::of(source_language),
                metrics.geometry(),
            ),
            first,
            second,
        ) by {
            law_pages_are_read_in_the_direction_of_their_language(
                items@,
                fit_of(*fit),
                source_language,
                metrics.geometry(),
                first,
                second,
            );
        }
    }
    let order = ReadingOrder::for_language(source_language);
    let ghost measure = fit_of(*fit);
    let ghost geometry = metrics.geometry();
    let ghost family = family_of(items@, measure, order, geometry);
    let parents = find_parents(items, fit);
    let roots = find_siblings(items, &parents, None, order, metrics, Ghost(measure));
    let mut children: Vec<Vec<usize>> = Vec::new();
    let mut index: usize = 0;
    while index < items.len()
        invariant
            index <= items.len(),
            metrics.steady(),
            parents.len() == items.len(),
            geometry == metrics.geometry(),
            forall|i: int|
                0 <= i < items.len() ==> #[trigger] parents@[i] == parent_of(items@, measure)(
                    i as usize,
                ),
            children.len() == index,
            forall|p: int|
                0 <= p < index ==> (#[trigger] children@[p])@ == siblings(
                    items@,
                    measure,
                    Some(p as usize),
                    order,
                    geometry,
                ),
        decreases items.len() - index,
    {
        children.push(
            find_siblings(items, &parents, Some(index), order, metrics, Ghost(measure)),
        );
        index += 1;
    }
    proof {
        lemma_family(items@, measure, order, geometry);
        law_every_item_is_read_once(items@, measure, order, geometry);
        assert forall|p: usize| p < children.len() implies #[trigger] (family.kids)(p)
            == children@[p as int]@ by {}
        assert forall|i: int| 0 <= i < roots.len() implies (#[trigger] roots@[i])
            < items.len() by {
            assert(roots@.contains(roots@[i]));
            vstd::seq_lib::to_multiset_contains(roots@, roots@[i]);
            lemma_siblings(items@, measure, None, order, geometry, roots@[i]);
        }
    }
    let mut result: Vec<usize> = Vec::new();
    let mut next: usize = 0;
    while next < roots.len()
        invariant
            next <= roots.len(),
            family.well_formed(),
            children.len() == family.len,
            family.len == items.len(),
            forall|p: usize|
                p < children.len() ==> #[trigger] (family.kids)(p) == children@[p as int]@,
            forall|i: int| 0 <= i < roots.len() ==> (#[trigger] roots@[i]) < items.len(),
            result@ == forest(family.kids, roots@.take(next as int), 2),
        decreases roots.len() - next,
    {
        assert(roots@[next as int] < items.len());
        proof {
            assert(0 <= (family.level)(roots@[next as int]));
        }
        append_layout_subtree(roots[next], &children, &mut result, Ghost(family), Ghost(2));
        proof {
            let longer = roots@.take(next as int + 1);
            assert(longer.drop_last() =~= roots@.take(next as int));
        }
        next += 1;
    }
    proof {
        assert(roots@.take(next as int) =~= roots@);
    }
    result
}

/// What comes next in a reading order after an inserted item: the layer of the first later
/// text item that has one.
pub open spec fn layer_after(
    items: Seq<LayoutItem>,
    layers: Seq<Option<EntityId>>,
    order: Seq<usize>,
    inserted: usize,
    from: int,
    after: bool,
) -> Option<EntityId>
    decreases order.len() - from,
{
    if from < 0 || from >= order.len() {
        None
    } else {
        let index = order[from];
        if index == inserted {
            layer_after(items, layers, order, inserted, from + 1, true)
        } else if after && items[index as int].kind == LayoutKind::Text && layers[index as int] is Some {
            layers[index as int]
        } else {
            layer_after(items, layers, order, inserted, from + 1, after)
        }
    }
}

/// The layer before which a new text layer is placed so that the layers of a page stand in
/// reading order; none where it comes last.
pub fn place_layer(
    items: &Vec<LayoutItem>,
    layers: &Vec<Option<EntityId>>,
    order: &Vec<usize>,
    inserted: usize,
) -> (result: Option<EntityId>)
    requires
        layers.len() == items.len(),
        forall|i: int| 0 <= i < order.len() ==> (#[trigger] order@[i]) < items.len(),
    ensures
        result == layer_after(items@, layers@, order@, inserted, 0, false),
{
    let mut after = false;
    let mut at: usize = 0;
    while at < order.len()
        invariant
            at <= order.len(),
            layers.len() == items.len(),
            forall|i: int| 0 <= i < order.len() ==> (#[trigger] order@[i]) < items.len(),
            layer_after(items@, layers@, order@, inserted, 0, false) == layer_after(
                items@,
                layers@,
                order@,
                inserted,
                at as int,
                after,
            ),
        decreases order.len() - at,
    {
        let index: usize = order[at];
        assert(order@[at as int] < items.len());
        if index == inserted {
            after = true;
        } else if after && items[index].kind == LayoutKind::Text {
            if let Some(layer) = layers[index] {
                return Some(layer);
            }
        }
        at += 1;
    }
    None
}

} // verus!
