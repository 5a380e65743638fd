//! The order in which the texts of a page are translated.

use vstd::prelude::*;

use crate::direction::{lemma_filter_precedes, lemma_precedes_at, precedes};
use crate::language::Language;
use crate::layout::{Geometry, LayoutItem, LayoutKind, Metrics, ReadingOrder, SpatialAxis};
use crate::lists::{lemma_filter_same, lemma_same_elements_len};
use crate::ordering::{all_places, lemma_selected, places, select_places, selected};
use crate::reading::{fit_of, law_every_item_is_read_once, page_order, reading_order, steady_fit};

verus! {

/// Where a text stands on a page: its bounds and its center, as the bits of double-precision
/// numbers.
#[derive(Clone, Copy, Debug)]
pub struct Extent {
    pub bounds: [u64; 4],
    pub center: [u64; 2],
}

/// The condition to stand somewhere.
pub open spec fn stands(extents: Seq<Option<Extent>>) -> spec_fn(usize) -> bool {
    |index: usize| extents[index as int] is Some
}

/// The texts that stand somewhere.
pub open spec fn standing(extents: Seq<Option<Extent>>) -> Seq<usize> {
    selected(extents.len(), stands(extents))
}

/// A text as a part of the page.
pub open spec fn text_item(extent: Extent) -> LayoutItem {
    LayoutItem { kind: LayoutKind::Text, bounds: extent.bounds, center: extent.center }
}

/// The containers of a page and the texts that stand somewhere behind them.
pub open spec fn page_items(
    containers: Seq<LayoutItem>,
    extents: Seq<Option<Extent>>,
) -> Seq<LayoutItem> {
    containers + standing(extents).map_values(|index: usize| text_item(extents[index as int]->0))
}

/// The condition to come at or behind a place.
pub open spec fn from_place(first: nat) -> spec_fn(usize) -> bool {
    |index: usize| index >= first
}

/// The texts that stand somewhere in the order in which they are read.
pub open spec fn read_texts(
    containers: Seq<LayoutItem>,
    extents: Seq<Option<Extent>>,
    fit: spec_fn(usize, usize) -> Option<(i64, i64)>,
    order: ReadingOrder,
    geometry: Geometry,
) -> Seq<usize> {
    page_order(page_items(containers, extents), fit, order, geometry).filter(
        from_place(containers.len()),
    ).map_values(|index: usize| standing(extents)[index - containers.len()])
}

/// The order of the texts of a page: those that stand somewhere change places among themselves so
/// that they come as they are read, where pages are read by columns.
pub open spec fn text_order(
    containers: Seq<LayoutItem>,
    extents: Seq<Option<Extent>>,
    fit: spec_fn(usize, usize) -> Option<(i64, i64)>,
    order: ReadingOrder,
    geometry: Geometry,
) -> Seq<usize> {
    if order == ReadingOrder::RowMajor || standing(extents).len() < 2 {
        places(extents.len())
    } else {
        Seq::new(
            extents.len(),
            |index: int|
                if extents[index] is Some {
                    read_texts(containers, extents, fit, order, geometry)[selected(
                        index as nat,
                        stands(extents),
                    ).len() as int]
                } else {
                    index as usize
                },
        )
    }
}

/// An order holds each place of a list once.
pub open spec fn is_order(order: Seq<usize>, count: nat) -> bool {
    &&& order.len() == count
    &&& order.no_duplicates()
    &&& forall|i: int| 0 <= i < order.len() ==> (#[trigger] order[i]) < count
}

proof fn lemma_selected_prefix(count: nat, more: nat, condition: spec_fn(usize) -> bool)
    requires
        count <= more <= usize::MAX,
    ensures
        selected(count, condition).len() <= selected(more, condition).len(),
        selected(count, condition) == selected(more, condition).take(
            selected(count, condition).len() as int,
        ),
    decreases more - count,
{
    reveal(Seq::filter);
    if count < more {
        let less = (more - 1) as nat;
        lemma_selected_prefix(count, less, condition);
        assert(places(more).drop_last() =~= places(less));
        let shorter = selected(less, condition);
        let longer = selected(more, condition);
        assert(longer == (if condition(places(more).last()) {
            shorter.push(places(more).last())
        } else {
            shorter
        }));
        let length = selected(count, condition).len() as int;
        assert(longer.take(length) =~= shorter.take(length));
    } else {
        assert(selected(count, condition).take(selected(count, condition).len() as int)
            =~= selected(count, condition));
    }
}

proof fn lemma_rank(extents: Seq<Option<Extent>>, left: int, right: int)
    requires
        0 <= left < right <= extents.len() <= usize::MAX,
        extents[left] is Some,
    ensures
        selected(left as nat, stands(extents)).len() < selected(
            right as nat,
            stands(extents),
        ).len(),
        selected(right as nat, stands(extents)).len() <= standing(extents).len(),
{
    reveal(Seq::filter);
    let condition = stands(extents);
    assert(places(left as nat + 1).drop_last() =~= places(left as nat));
    assert(places(left as nat + 1).last() == left as usize);
    assert(condition(left as usize));
    lemma_selected_prefix(left as nat + 1, right as nat, condition);
    lemma_selected_prefix(right as nat, extents.len(), condition);
}

proof fn lemma_places_behind(first: nat, count: nat)
    requires
        first <= count <= usize::MAX,
    ensures
        places(count).filter(from_place(first)).len() == count - first,
    decreases count,
{
    reveal(Seq::filter);
    if count > 0 {
        let less = (count - 1) as nat;
        assert(places(count).drop_last() =~= places(less));
        if first <= less {
            lemma_places_behind(first, less);
        } else {
            assert forall|i: int| 0 <= i < count implies !from_place(first)(
                #[trigger] places(count)[i],
            ) by {}
            lemma_none_selected(places(count), from_place(first));
        }
    }
}

proof fn lemma_none_selected(list: Seq<usize>, condition: spec_fn(usize) -> bool)
    requires
        forall|i: int| 0 <= i < list.len() ==> !condition(#[trigger] list[i]),
    ensures
        list.filter(condition).len() == 0,
    decreases list.len(),
{
    reveal(Seq::filter);
    if list.len() > 0 {
        assert forall|i: int| 0 <= i < list.drop_last().len() implies !condition(
            #[trigger] list.drop_last()[i],
        ) by {
            assert(list.drop_last()[i] == list[i]);
        }
        lemma_none_selected(list.drop_last(), condition);
    }
}

proof fn lemma_filter_unique(list: Seq<usize>, condition: spec_fn(usize) -> bool)
    requires
        list.no_duplicates(),
    ensures
        list.filter(condition).no_duplicates(),
        forall|i: int|
            0 <= i < list.filter(condition).len() ==> list.contains(
                #[trigger] list.filter(condition)[i],
            ) && condition(list.filter(condition)[i]),
    decreases list.len(),
{
    reveal(Seq::filter);
    if list.len() > 0 {
        let shorter = list.drop_last();
        lemma_filter_unique(shorter, condition);
        let kept = shorter.filter(condition);
        let all = list.filter(condition);
        assert forall|i: int| 0 <= i < all.len() implies list.contains(#[trigger] all[i])
            && condition(all[i]) by {
            if i < kept.len() {
                assert(all[i] == kept[i]);
                assert(shorter.contains(kept[i]));
                let k = choose|k: int| 0 <= k < shorter.len() && shorter[k] == kept[i];
                assert(list[k] == kept[i]);
            } else {
                assert(list[list.len() - 1] == all[i]);
            }
        }
        assert forall|i: int, j: int| 0 <= i < j < all.len() implies all[i] != all[j] by {
            if j >= kept.len() {
                assert(shorter.contains(kept[i]));
                let k = choose|k: int| 0 <= k < shorter.len() && shorter[k] == kept[i];
                assert(list[k] != list[list.len() - 1]);
            }
        }
    }
}

proof fn lemma_read_texts(
    containers: Seq<LayoutItem>,
    extents: Seq<Option<Extent>>,
    fit: spec_fn(usize, usize) -> Option<(i64, i64)>,
    order: ReadingOrder,
    geometry: Geometry,
)
    requires
        containers.len() + extents.len() <= usize::MAX,
    ensures
        read_texts(containers, extents, fit, order, geometry).len() == standing(extents).len(),
        read_texts(containers, extents, fit, order, geometry).no_duplicates(),
        forall|i: int|
            0 <= i < standing(extents).len() ==> {
                let place = #[trigger] read_texts(containers, extents, fit, order, geometry)[i];
                place < extents.len() && extents[place as int] is Some
            },
{
    let items = page_items(containers, extents);
    let first = containers.len();
    let found = standing(extents);
    lemma_selected(extents.len(), stands(extents));
    lemma_selected_short(extents.len(), stands(extents));
    assert(items.len() == first + found.len());
    law_every_item_is_read_once(items, fit, order, geometry);
    let read = page_order(items, fit, order, geometry);
    let behind = read.filter(from_place(first));
    lemma_filter_unique(read, from_place(first));
    lemma_filter_same(read, places(items.len()), from_place(first));
    lemma_same_elements_len(behind, places(items.len()).filter(from_place(first)));
    lemma_places_behind(first, items.len());
    let result = read_texts(containers, extents, fit, order, geometry);
    assert forall|i: int| 0 <= i < result.len() implies {
        let place = #[trigger] result[i];
        place < extents.len() && extents[place as int] is Some
    } by {
        assert(read.contains(behind[i]));
        let k = choose|k: int| 0 <= k < read.len() && read[k] == behind[i];
        assert(read[k] < items.len());
        assert(result[i] == found[behind[i] - first]);
        assert(stands(extents)(found[behind[i] - first]));
    }
    assert forall|i: int, j: int| 0 <= i < j < result.len() implies result[i] != result[j] by {
        assert(behind[i] != behind[j]);
        assert(read.contains(behind[i]));
        assert(read.contains(behind[j]));
        let k = choose|k: int| 0 <= k < read.len() && read[k] == behind[i];
        let l = choose|l: int| 0 <= l < read.len() && read[l] == behind[j];
        assert(read[k] < items.len() && read[l] < items.len());
        let a = behind[i] - first;
        let b = behind[j] - first;
        if a < b {
            assert(found[a] < found[b]);
        } else {
            assert(found[b] < found[a]);
        }
    }
}

proof fn lemma_selected_short(count: nat, condition: spec_fn(usize) -> bool)
    ensures
        selected(count, condition).len() <= count,
    decreases count,
{
    reveal(Seq::filter);
    if count > 0 {
        assert(places(count).drop_last() =~= places((count - 1) as nat));
        lemma_selected_short((count - 1) as nat, condition);
    }
}

/// However a page is read, the order of its texts holds each of them once.
pub proof fn law_every_text_keeps_a_place(
    containers: Seq<LayoutItem>,
    extents: Seq<Option<Extent>>,
    fit: spec_fn(usize, usize) -> Option<(i64, i64)>,
    order: ReadingOrder,
    geometry: Geometry,
)
    requires
        containers.len() + extents.len() <= usize::MAX,
    ensures
        is_order(text_order(containers, extents, fit, order, geometry), extents.len()),
{
    let result = text_order(containers, extents, fit, order, geometry);
    if !(order == ReadingOrder::RowMajor || standing(extents).len() < 2) {
        let read = read_texts(containers, extents, fit, order, geometry);
        lemma_read_texts(containers, extents, fit, order, geometry);
        assert forall|i: int| 0 <= i < result.len() implies (#[trigger] result[i])
            < extents.len() by {
            if extents[i] is Some {
                lemma_rank(extents, i, extents.len() as int);
                assert(result[i] == read[selected(i as nat, stands(extents)).len() as int]);
            }
        }
        assert forall|i: int, j: int| 0 <= i < j < result.len() implies result[i] != result[j] by {
            if extents[i] is Some {
                lemma_rank(extents, i, extents.len() as int);
            }
            if extents[j] is Some {
                lemma_rank(extents, j, extents.len() as int);
            }
            let low = selected(i as nat, stands(extents)).len() as int;
            let high = selected(j as nat, stands(extents)).len() as int;
            if extents[i] is Some && extents[j] is Some {
                lemma_rank(extents, i, j);
                assert(read[low] != read[high]);
            } else if extents[i] is Some {
                assert(extents[read[low] as int] is Some);
            } else if extents[j] is Some {
                assert(extents[read[high] as int] is Some);
            }
        }
    }
}

/// The order of the texts of a page. How well items lie in each other, and the other measurements,
/// are asked of the containers and, behind them, the texts that stand somewhere.
pub fn order_entries<
    F: Fn(usize, usize) -> Option<(i64, i64)>,
    J: Fn(&Vec<usize>, &Vec<usize>, usize) -> bool,
    C: Fn(&Vec<usize>) -> i64,
    B: Fn(&Vec<usize>, usize, SpatialAxis) -> bool,
>(
    extents: &Vec<Option<Extent>>,
    containers: &Vec<LayoutItem>,
    source_language: Language,
    fit: &F,
    metrics: &Metrics<J, C, B>,
) -> (result: Vec<usize>)
    requires
        steady_fit(*fit),
        metrics.steady(),
        containers.len() + extents.len() <= usize::MAX,
    ensures
        result@ == text_order(
            containers@,
            extents@,
            fit_of(*fit),
            ReadingOrder::of(source_language),
            metrics.geometry(),
        ),
        is_order(result@, extents@.len()),
{
    let order = ReadingOrder::for_language(source_language);
    let ghost measure = fit_of(*fit);
    let ghost geometry = metrics.geometry();
    proof {
        law_every_text_keeps_a_place(containers@, extents@, measure, order, geometry);
        lemma_selected_short(extents@.len(), stands(extents@));
    }
    let ghost condition = stands(extents@);
    let test = |index: usize| -> (flag: bool)
        requires
            index < extents.len(),
        ensures
            flag == condition(index),
        { extents[index].is_some() };
    let found = select_places(extents.len(), &test, Ghost(condition));
    if order == ReadingOrder::RowMajor || found.len() < 2 {
        return all_places(extents.len());
    }
    let mut items: Vec<LayoutItem> = Vec::new();
    let mut index: usize = 0;
    while index < containers.len()
        invariant
            index <= containers.len(),
            items@ == containers@.take(index as int),
        decreases containers.len() - index,
    {
        items.push(containers[index]);
        index += 1;
        proof {
            assert(containers@.take(index as int) =~= containers@.take(index - 1).push(
                containers@[index - 1],
            ));
        }
    }
    let ghost texts = found@.map_values(|index: usize| text_item(extents@[index as int]->0));
    let mut index: usize = 0;
    proof {
        lemma_selected(extents@.len(), stands(extents@));
        assert(containers@.take(containers@.len() as int) =~= containers@);
        assert(items@ =~= containers@ + texts.take(0));
    }
    while index < found.len()
        invariant
            index <= found.len(),
            found@ == standing(extents@),
            forall|i: int| 0 <= i < found.len() ==> (#[trigger] found@[i]) < extents.len(),
            forall|i: int|
                0 <= i < found.len() ==> extents@[(#[trigger] found@[i]) as int] is Some,
            texts == found@.map_values(|index: usize| text_item(extents@[index as int]->0)),
            items@ == containers@ + texts.take(index as int),
        decreases found.len() - index,
    {
        if let Some(extent) = extents[found[index]] {
            items.push(
                LayoutItem {
                    kind: LayoutKind::Text,
                    bounds: extent.bounds,
                    center: extent.center,
                },
            );
        }
        index += 1;
        proof {
            assert(items@ =~= containers@ + texts.take(index as int));
        }
    }
    proof {
        assert(texts.take(index as int) =~= texts);
        assert(items@ =~= page_items(containers@, extents@));
    }
    let read = reading_order(&items, source_language, fit, metrics);
    let first: usize = containers.len();
    let mut ordered: Vec<usize> = Vec::new();
    let mut index: usize = 0;
    proof {
        reveal(Seq::filter);
        assert(read@.take(0) =~= Seq::empty());
    }
    while index < read.len()
        invariant
            index <= read.len(),
            found@ == standing(extents@),
            items.len() == first + found.len(),
            forall|i: int| 0 <= i < read.len() ==> (#[trigger] read@[i]) < items.len(),
            ordered@ == read@.take(index as int).filter(from_place(first as nat)).map_values(
                |index: usize| standing(extents@)[index - first],
            ),
        decreases read.len() - index,
    {
        let place = read[index];
        let ghost shown = |index: usize| standing(extents@)[index - first];
        let ghost before = read@.take(index as int).filter(from_place(first as nat));
        proof {
            reveal(Seq::filter);
            let longer = read@.take(index as int + 1);
            assert(longer.drop_last() =~= read@.take(index as int));
            assert(longer.last() == place);
            assert(before.push(place).map_values(shown) =~= before.map_values(shown).push(
                shown(place),
            ));
        }
        if place >= first {
            ordered.push(found[place - first]);
        }
        index += 1;
    }
    proof {
        assert(read@.take(index as int) =~= read@);
        assert(ordered@ =~= read_texts(containers@, extents@, measure, order, geometry));
        lemma_read_texts(containers@, extents@, measure, order, geometry);
    }
    let mut result: Vec<usize> = Vec::new();
    let mut next: usize = 0;
    let mut index: usize = 0;
    let ghost wanted = text_order(containers@, extents@, measure, order, geometry);
    proof {
        assert(selected(0, stands(extents@)).len() == 0) by {
            reveal(Seq::filter);
            assert(places(0) =~= Seq::empty());
        }
    }
    while index < extents.len()
        invariant
            index <= extents.len(),
            containers.len() + extents.len() <= usize::MAX,
            wanted == text_order(containers@, extents@, measure, order, geometry),
            order != ReadingOrder::RowMajor,
            standing(extents@).len() >= 2,
            ordered@ == read_texts(containers@, extents@, measure, order, geometry),
            ordered@.len() == standing(extents@).len(),
            next == selected(index as nat, stands(extents@)).len(),
            result@ == wanted.take(index as int),
        decreases extents.len() - index,
    {
        proof {
            reveal(Seq::filter);
            let longer = places(index as nat + 1);
            assert(longer.drop_last() =~= places(index as nat));
            assert(longer.last() == index);
            if extents@[index as int] is Some {
                lemma_rank(extents@, index as int, extents@.len() as int);
            }
            assert(wanted.take(index as int + 1) =~= wanted.take(index as int).push(
                wanted[index as int],
            ));
        }
        if extents[index].is_some() {
            result.push(ordered[next]);
            next += 1;
        } else {
            result.push(index);
        }
        index += 1;
    }
    proof {
        assert(wanted.take(index as int) =~= wanted);
    }
    result
}

/// The texts of a page in Japanese or Chinese come in the order in which the page is read. In any
/// other language they stay as they are, and so does in every language a text that stands nowhere.
pub proof fn law_texts_come_as_they_are_read(
    containers: Seq<LayoutItem>,
    extents: Seq<Option<Extent>>,
    fit: spec_fn(usize, usize) -> Option<(i64, i64)>,
    language: Language,
    geometry: Geometry,
    i: int,
    j: int,
)
    requires
        containers.len() + extents.len() <= usize::MAX,
        0 <= i < j < extents.len(),
    ensures
        ({
            let order = text_order(
                containers,
                extents,
                fit,
                ReadingOrder::of(language),
                geometry,
            );
            let read = page_order(
                page_items(containers, extents),
                fit,
                ReadingOrder::of(language),
                geometry,
            );
            let first = containers.len();
            &&& order.len() == extents.len()
            &&& language != Language::Japanese && language != Language::ChineseSimplified
                && language != Language::ChineseTraditional ==> order[i] == i && order[j] == j
            &&& extents[i] is None ==> order[i] == i
            &&& extents[j] is None ==> order[j] == j
            &&& (language == Language::Japanese || language == Language::ChineseSimplified
                || language == Language::ChineseTraditional) && extents[i] is Some
                && extents[j] is Some ==> exists|p: usize, q: usize|
                first <= p < first + standing(extents).len() && first <= q < first + standing(
                    extents,
                ).len() && standing(extents)[p - first] == order[i] && standing(extents)[q - first]
                    == order[j] && #[trigger] precedes(read, p, q)
        }),
{
    let order = ReadingOrder::of(language);
    let first = containers.len();
    if order == ReadingOrder::ColumnMajor && extents[i] is Some && extents[j] is Some {
        lemma_rank(extents, i, j);
        lemma_rank(extents, j, extents.len() as int);
        let a = selected(i as nat, stands(extents)).len() as int;
        let b = selected(j as nat, stands(extents)).len() as int;
        lemma_read_texts(containers, extents, fit, order, geometry);
        let items = page_items(containers, extents);
        let read = page_order(items, fit, order, geometry);
        let behind = read.filter(from_place(first));
        lemma_selected_short(extents.len(), stands(extents));
        law_every_item_is_read_once(items, fit, order, geometry);
        lemma_filter_unique(read, from_place(first));
        lemma_precedes_at(behind, a, b);
        lemma_filter_precedes(read, from_place(first), behind[a], behind[b]);
        let p = behind[a];
        let q = behind[b];
        assert(read.contains(p) && read.contains(q));
        let k = choose|k: int| 0 <= k < read.len() && read[k] == p;
        let l = choose|l: int| 0 <= l < read.len() && read[l] == q;
        assert(read[k] < items.len() && read[l] < items.len());
        assert(precedes(read, p, q));
    }
}

} // verus!
