//! Removes detections that repeat others or lie in them.
//!
//! Areas and overlaps are floating-point numbers; the caller compares them and provides the
//! outcomes as functions.

use vstd::prelude::*;

use crate::bits::{single_key, single_order};
use crate::counting::{count, lemma_count_at_most};
use crate::ordering::{lemma_selected, places, selected};
use crate::mask::{is_text_detection, LayoutDetection};
use crate::sorting::{
    by_keys, lemma_by_keys, lemma_sorted, lemma_sorted_unique, sort_by_keys, sorted,
};
use crate::text::{
    comes_before, lemma_precedes_irreflexive, lemma_precedes_total, lemma_precedes_transitive,
    precedes, same,
};

verus! {

/// A detection comes before another: it lies higher or, where that is equal, farther to the
/// right or, where that is equal too, its label comes first.
pub open spec fn detection_before(left: &LayoutDetection, right: &LayoutDetection) -> bool {
    let (top, other_top) = (single_order(left.bbox@[1]), single_order(right.bbox@[1]));
    let (start, other_start) = (single_order(left.bbox@[0]), single_order(right.bbox@[0]));
    top < other_top || (top == other_top && (start > other_start || (start == other_start
        && precedes(left.label@, right.label@))))
}

/// A detection is considered before another: its score is higher or, where that is equal, it
/// comes first.
pub open spec fn considered_before(left: &LayoutDetection, right: &LayoutDetection) -> bool {
    let (score, other) = (single_order(left.score), single_order(right.score));
    score > other || (score == other && detection_before(left, right))
}

/// How many labels come before that of a detection.
pub open spec fn label_rank(detections: Seq<LayoutDetection>, index: int) -> nat {
    count(
        detections.map_values(
            |other: LayoutDetection| precedes(other.label@, detections[index].label@),
        ),
    )
}

/// Two numbers as one: the order of the first, then of the second.
pub open spec fn packed(high: int, low: int) -> int {
    high * 0x1_0000_0000 + low
}

/// Two numbers as one, the second as long as a length can be.
pub open spec fn widely_packed(high: int, low: int) -> int {
    high * 0x1_0000_0000_0000_0000 + low
}

/// The keys by which detections are considered.
pub open spec fn score_keys(detections: Seq<LayoutDetection>) -> Seq<(i64, i128)> {
    Seq::new(
        detections.len(),
        |i: int|
            (
                packed(
                    -1 - single_order(detections[i].score),
                    single_order(detections[i].bbox@[1]) + 0x8000_0000,
                ) as i64,
                widely_packed(
                    -1 - single_order(detections[i].bbox@[0]),
                    label_rank(detections, i) as int,
                ) as i128,
            ),
    )
}

proof fn lemma_label_rank(detections: Seq<LayoutDetection>, i: int, j: int)
    requires
        0 <= i < detections.len(),
        0 <= j < detections.len(),
    ensures
        label_rank(detections, i) < label_rank(detections, j) <==> precedes(
            detections[i].label@,
            detections[j].label@,
        ),
        label_rank(detections, i) < detections.len(),
{
    let a = detections[i].label@;
    let b = detections[j].label@;
    lemma_rank_bound(detections, i);
    if precedes(a, b) {
        lemma_rank_less(detections, i, j);
    } else {
        lemma_precedes_total(a, b);
        if precedes(b, a) {
            lemma_rank_less(detections, j, i);
        } else {
            assert(a == b);
        }
    }
}

proof fn lemma_rank_bound(detections: Seq<LayoutDetection>, i: int)
    requires
        0 <= i < detections.len(),
    ensures
        label_rank(detections, i) < detections.len(),
{
    let flags = detections.map_values(
        |other: LayoutDetection| precedes(other.label@, detections[i].label@),
    );
    lemma_count_at_most(flags);
    lemma_precedes_irreflexive(detections[i].label@);
    assert(!flags[i]);
}

proof fn lemma_rank_less(detections: Seq<LayoutDetection>, i: int, j: int)
    requires
        0 <= i < detections.len(),
        0 <= j < detections.len(),
        precedes(detections[i].label@, detections[j].label@),
    ensures
        label_rank(detections, i) < label_rank(detections, j),
{
    let fewer = detections.map_values(
        |other: LayoutDetection| precedes(other.label@, detections[i].label@),
    );
    let more = detections.map_values(
        |other: LayoutDetection| precedes(other.label@, detections[j].label@),
    );
    assert forall|k: int| 0 <= k < fewer.len() && fewer[k] implies more[k] by {
        lemma_precedes_transitive(
            detections[k].label@,
            detections[i].label@,
            detections[j].label@,
        );
    }
    lemma_precedes_irreflexive(detections[i].label@);
    assert(!fewer[i] && more[i]);
    lemma_count_less(fewer, more, i);
}

proof fn lemma_count_less(fewer: Seq<bool>, more: Seq<bool>, at: int)
    requires
        fewer.len() == more.len(),
        forall|k: int| 0 <= k < fewer.len() && fewer[k] ==> more[k],
        0 <= at < fewer.len(),
        !fewer[at],
        more[at],
    ensures
        count(fewer) < count(more),
{
    crate::counting::lemma_count_update(fewer, at, true);
    lemma_count_monotone(fewer.update(at, true), more);
}

proof fn lemma_count_monotone(fewer: Seq<bool>, more: Seq<bool>)
    requires
        fewer.len() == more.len(),
        forall|k: int| 0 <= k < fewer.len() && fewer[k] ==> more[k],
    ensures
        count(fewer) <= count(more),
    decreases fewer.len(),
{
    let number = |flag: bool| if flag { 1nat } else { 0nat };
    if fewer.len() > 0 {
        lemma_count_monotone(fewer.drop_last(), more.drop_last());
        assert(fewer.map_values(number).drop_last() =~= fewer.drop_last().map_values(number));
        assert(more.map_values(number).drop_last() =~= more.drop_last().map_values(number));
    } else {
        assert(fewer =~= more);
    }
}

/// The order of the keys is the order in which detections are considered.
pub proof fn law_keys_order_detections(detections: Seq<LayoutDetection>, i: usize, j: usize)
    requires
        i < detections.len(),
        j < detections.len(),
        i != j,
        detections.len() <= usize::MAX,
    ensures
        by_keys(score_keys(detections))(i, j) == (considered_before(
            &detections[i as int],
            &detections[j as int],
        ) || (!considered_before(&detections[j as int], &detections[i as int]) && i < j)),
{
    lemma_label_rank(detections, i as int, j as int);
    lemma_label_rank(detections, j as int, i as int);
}

fn pack(high: i64, low: i64) -> (result: i64)
    requires
        -0x8000_0000 <= high <= 0x7fff_ffff,
        0 <= low <= 0xffff_ffff,
    ensures
        result == packed(high as int, low as int),
{
    high * 0x1_0000_0000 + low
}

fn pack_widely(high: i64, low: usize) -> (result: i128)
    requires
        -0x8000_0000 <= high <= 0x7fff_ffff,
    ensures
        result == widely_packed(high as int, low as int),
{
    high as i128 * 0x1_0000_0000_0000_0000 + low as i128
}

fn rank_label(detections: &Vec<LayoutDetection>, index: usize) -> (result: usize)
    requires
        index < detections.len(),
    ensures
        result == label_rank(detections@, index as int),
        result < detections.len(),
{
    let ghost flags = detections@.map_values(
        |other: LayoutDetection| precedes(other.label@, detections@[index as int].label@),
    );
    let ghost number = |flag: bool| if flag { 1nat } else { 0nat };
    let mut rank: usize = 0;
    let mut other: usize = 0;
    proof {
        lemma_rank_bound(detections@, index as int);
    }
    while other < detections.len()
        invariant
            other <= detections.len(),
            index < detections.len(),
            rank <= other,
            number == (|flag: bool| if flag { 1nat } else { 0nat }),
            flags == detections@.map_values(
                |other: LayoutDetection| precedes(other.label@, detections@[index as int].label@),
            ),
            rank == count(flags.take(other as int)),
        decreases detections.len() - other,
    {
        proof {
            let next = flags.take(other as int + 1);
            assert(next.map_values(number).drop_last() =~= flags.take(other as int).map_values(
                number,
            ));
        }
        if comes_before(detections[other].label.as_str(), detections[index].label.as_str()) {
            rank += 1;
        }
        other += 1;
    }
    proof {
        assert(flags.take(other as int) =~= flags);
    }
    rank
}

/// Measurements of detections: whether the areas of two are nearly equal, and whether they
/// overlap, strictly or not.
pub struct Overlaps<A, O> {
    pub comparable: A,
    pub overlapping: O,
}

impl<A: Fn(usize, usize) -> bool, O: Fn(usize, usize, bool) -> bool> Overlaps<A, O> {
    /// The measurements can always be made, and the same detections give the same ones.
    pub open spec fn steady(&self) -> bool {
        &&& forall|left: usize, right: usize| #[trigger]
            call_requires(self.comparable, (left, right))
        &&& forall|left: usize, right: usize, strict: bool| #[trigger]
            call_requires(self.overlapping, (left, right, strict))
        &&& forall|left: usize, right: usize|
            !(#[trigger] call_ensures(self.comparable, (left, right), true) && call_ensures(
                self.comparable,
                (left, right),
                false,
            ))
        &&& forall|left: usize, right: usize, strict: bool|
            !(#[trigger] call_ensures(self.overlapping, (left, right, strict), true)
                && call_ensures(self.overlapping, (left, right, strict), false))
    }

    /// A kept detection makes another one superfluous. Text is compared with text of any kind
    /// where the areas are nearly equal, strictly where the labels differ; everything else only
    /// with its own kind.
    pub open spec fn suppresses(
        &self,
        detections: Seq<LayoutDetection>,
        kept: usize,
        other: usize,
    ) -> bool {
        let same_label = detections[kept as int].label@ == detections[other as int].label@;
        if detections[kept as int].is_text() && detections[other as int].is_text() {
            call_ensures(self.comparable, (kept, other), true) && call_ensures(
                self.overlapping,
                (kept, other, !same_label),
                true,
            )
        } else {
            same_label && call_ensures(self.overlapping, (kept, other, false), true)
        }
    }

    /// What is kept of the first detections of a list.
    pub open spec fn survivors(
        &self,
        detections: Seq<LayoutDetection>,
        order: Seq<usize>,
    ) -> Seq<usize>
        decreases order.len(),
    {
        if order.len() == 0 {
            Seq::empty()
        } else {
            let kept = self.survivors(detections, order.drop_last());
            if exists|k: int|
                0 <= k < kept.len() && self.suppresses(
                    detections,
                    #[trigger] kept[k],
                    order.last(),
                ) {
                kept
            } else {
                kept.push(order.last())
            }
        }
    }

    fn suppressed(
        &self,
        detections: &Vec<LayoutDetection>,
        kept: &Vec<usize>,
        other: usize,
    ) -> (result: bool)
        requires
            self.steady(),
            other < detections.len(),
            forall|k: int| 0 <= k < kept.len() ==> (#[trigger] kept@[k]) < detections.len(),
        ensures
            result == exists|k: int|
                0 <= k < kept.len() && self.suppresses(detections@, #[trigger] kept@[k], other),
    {
        let comparable = &self.comparable;
        let overlapping = &self.overlapping;
        let mut index: usize = 0;
        while index < kept.len()
            invariant
                index <= kept.len(),
                self.steady(),
                *comparable == self.comparable,
                *overlapping == self.overlapping,
                other < detections.len(),
                forall|k: int| 0 <= k < kept.len() ==> (#[trigger] kept@[k]) < detections.len(),
                forall|k: int|
                    0 <= k < index ==> !self.suppresses(detections@, #[trigger] kept@[k], other),
            decreases kept.len() - index,
        {
            let existing: usize = kept[index];
            assert(kept@[index as int] < detections.len());
            let same_label = same(
                detections[existing].label.as_str(),
                detections[other].label.as_str(),
            );
            let found = if is_text_detection(&detections[existing]) && is_text_detection(
                &detections[other],
            ) {
                if comparable(existing, other) {
                    overlapping(existing, other, !same_label)
                } else {
                    false
                }
            } else if same_label {
                overlapping(existing, other, false)
            } else {
                false
            };
            if found {
                assert(self.suppresses(detections@, kept@[index as int], other));
                return true;
            }
            index += 1;
        }
        false
    }
}

/// Keeps, of detections that repeat each other, the one with the highest score. The kept
/// detections come in the order in which they were considered.
pub fn non_maximum_suppression<
    A: Fn(usize, usize) -> bool,
    O: Fn(usize, usize, bool) -> bool,
>(detections: &Vec<LayoutDetection>, overlaps: &Overlaps<A, O>) -> (result: Vec<usize>)
    requires
        overlaps.steady(),
    ensures
        result@ == overlaps.survivors(
            detections@,
            sorted(places(detections@.len()), score_keys(detections@)),
        ),
        forall|k: int| 0 <= k < result.len() ==> (#[trigger] result@[k]) < detections.len(),
{
    let mut keys: Vec<(i64, i128)> = Vec::new();
    let mut numbers: Vec<usize> = Vec::new();
    let mut index: usize = 0;
    while index < detections.len()
        invariant
            index <= detections.len(),
            keys.len() == index,
            numbers.len() == index,
            forall|i: int| 0 <= i < index ==> #[trigger] numbers@[i] == i,
            forall|i: int| 0 <= i < index ==> #[trigger] keys@[i] == score_keys(detections@)[i],
        decreases detections.len() - index,
    {
        let detection = &detections[index];
        let score: i64 = single_key(detection.score);
        let top: i64 = single_key(detection.bbox[1]);
        let left: i64 = single_key(detection.bbox[0]);
        let rank: usize = rank_label(detections, index);
        keys.push((pack(-1 - score, top + 0x8000_0000), pack_widely(-1 - left, rank)));
        numbers.push(index);
        index += 1;
    }
    proof {
        assert(keys@ =~= score_keys(detections@));
        assert(numbers@ =~= places(detections@.len()));
    }
    let order = sort_by_keys(&numbers, &keys);
    let mut kept: Vec<usize> = Vec::new();
    let mut next: usize = 0;
    while next < order.len()
        invariant
            next <= order.len(),
            overlaps.steady(),
            keys.len() == detections.len(),
            forall|i: int| 0 <= i < order.len() ==> (#[trigger] order@[i]) < keys.len(),
            forall|k: int| 0 <= k < kept.len() ==> (#[trigger] kept@[k]) < detections.len(),
            kept@ == overlaps.survivors(detections@, order@.take(next as int)),
        decreases order.len() - next,
    {
        let candidate: usize = order[next];
        assert(order@[next as int] < keys.len());
        proof {
            let longer = order@.take(next as int + 1);
            assert(longer.drop_last() =~= order@.take(next as int));
            assert(longer.last() == candidate);
        }
        if !overlaps.suppressed(detections, &kept, candidate) {
            kept.push(candidate);
        }
        next += 1;
    }
    proof {
        assert(order@.take(next as int) =~= order@);
    }
    kept
}

/// No kept detection makes a later kept one superfluous, and whatever is not kept was made
/// superfluous by one that is.
pub proof fn law_survivors<
    A: Fn(usize, usize) -> bool,
    O: Fn(usize, usize, bool) -> bool,
>(overlaps: &Overlaps<A, O>, detections: Seq<LayoutDetection>, order: Seq<usize>)
    ensures
        ({
            let kept = overlaps.survivors(detections, order);
            &&& forall|i: int, j: int|
                0 <= i < j < kept.len() ==> !overlaps.suppresses(
                    detections,
                    #[trigger] kept[i],
                    #[trigger] kept[j],
                )
            &&& forall|k: int|
                0 <= k < order.len() ==> kept.contains(#[trigger] order[k]) || exists|i: int|
                    0 <= i < kept.len() && overlaps.suppresses(
                        detections,
                        #[trigger] kept[i],
                        order[k],
                    )
            &&& forall|i: int| 0 <= i < kept.len() ==> order.contains(#[trigger] kept[i])
        }),
    decreases order.len(),
{
    if order.len() > 0 {
        let rest = order.drop_last();
        law_survivors(overlaps, detections, rest);
        let before = overlaps.survivors(detections, rest);
        let kept = overlaps.survivors(detections, order);
        assert forall|k: int| 0 <= k < order.len() implies kept.contains(#[trigger] order[k])
            || exists|i: int|
            0 <= i < kept.len() && overlaps.suppresses(
                detections,
                #[trigger] kept[i],
                order[k],
            ) by {
            if k < rest.len() {
                assert(rest[k] == order[k]);
                if before.contains(order[k]) {
                    let i = choose|i: int| 0 <= i < before.len() && before[i] == order[k];
                    assert(kept[i] == order[k]);
                } else {
                    let i = choose|i: int|
                        0 <= i < before.len() && overlaps.suppresses(
                            detections,
                            #[trigger] before[i],
                            order[k],
                        );
                    assert(kept[i] == before[i]);
                }
            } else if kept.len() > before.len() {
                assert(kept[before.len() as int] == order[k]);
            }
        }
        assert forall|i: int| 0 <= i < kept.len() implies order.contains(#[trigger] kept[i]) by {
            if i < before.len() {
                assert(rest.contains(before[i]));
                let k = choose|k: int| 0 <= k < rest.len() && rest[k] == before[i];
                assert(order[k] == before[i]);
            } else {
                assert(order[order.len() - 1] == kept[i]);
            }
        }
    }
}

/// What holds between every place of an order and every later one holds between the kept ones,
/// and between whatever is not kept and a kept one that made it superfluous.
proof fn lemma_survivors_related<
    A: Fn(usize, usize) -> bool,
    O: Fn(usize, usize, bool) -> bool,
>(
    overlaps: &Overlaps<A, O>,
    detections: Seq<LayoutDetection>,
    order: Seq<usize>,
    related: spec_fn(usize, usize) -> bool,
)
    requires
        forall|i: int, j: int| 0 <= i < j < order.len() ==> #[trigger] related(order[i], order[j]),
    ensures
        ({
            let kept = overlaps.survivors(detections, order);
            &&& kept.len() <= order.len()
            &&& forall|i: int, j: int|
                0 <= i < j < kept.len() ==> #[trigger] related(kept[i], kept[j])
            &&& forall|k: int|
                0 <= k < order.len() ==> kept.contains(#[trigger] order[k]) || exists|i: int|
                    0 <= i < kept.len() && overlaps.suppresses(
                        detections,
                        #[trigger] kept[i],
                        order[k],
                    ) && related(kept[i], order[k])
        }),
    decreases order.len(),
{
    if order.len() > 0 {
        let rest = order.drop_last();
        assert forall|i: int, j: int| 0 <= i < j < rest.len() implies #[trigger] related(
            rest[i],
            rest[j],
        ) by {
            assert(related(order[i], order[j]));
        }
        lemma_survivors_related(overlaps, detections, rest, related);
        law_survivors(overlaps, detections, rest);
        let before = overlaps.survivors(detections, rest);
        let kept = overlaps.survivors(detections, order);
        assert forall|i: int| 0 <= i < before.len() implies related(
            #[trigger] before[i],
            order.last(),
        ) by {
            assert(rest.contains(before[i]));
            let k = choose|k: int| 0 <= k < rest.len() && rest[k] == before[i];
            assert(related(order[k], order[order.len() - 1]));
        }
        assert forall|i: int, j: int| 0 <= i < j < kept.len() implies #[trigger] related(
            kept[i],
            kept[j],
        ) by {
            assert(kept[i] == before[i]);
            if j < before.len() {
                assert(related(before[i], before[j]));
            }
        }
        assert forall|k: int| 0 <= k < order.len() implies kept.contains(#[trigger] order[k])
            || exists|i: int|
            0 <= i < kept.len() && overlaps.suppresses(
                detections,
                #[trigger] kept[i],
                order[k],
            ) && related(kept[i], order[k]) by {
            if k < rest.len() {
                assert(rest[k] == order[k]);
                if before.contains(order[k]) {
                    let i = choose|i: int| 0 <= i < before.len() && before[i] == order[k];
                    assert(kept[i] == order[k]);
                } else {
                    let i = choose|i: int|
                        0 <= i < before.len() && overlaps.suppresses(
                            detections,
                            #[trigger] before[i],
                            order[k],
                        ) && related(before[i], order[k]);
                    assert(kept[i] == before[i]);
                }
            } else if kept.len() > before.len() {
                assert(kept[before.len() as int] == order[k]);
            } else {
                let i = choose|i: int|
                    0 <= i < before.len() && overlaps.suppresses(
                        detections,
                        #[trigger] before[i],
                        order.last(),
                    );
                assert(kept[i] == before[i]);
            }
        }
    }
}

/// The order in which detections are considered has every place once, and each comes before the
/// later ones by its keys.
proof fn lemma_considered(detections: Seq<LayoutDetection>)
    requires
        detections.len() <= usize::MAX,
    ensures
        ({
            let keys = score_keys(detections);
            let order = sorted(places(detections.len()), keys);
            &&& order.len() == detections.len()
            &&& forall|i: int, j: int|
                0 <= i < j < order.len() ==> order[i] != order[j] && #[trigger] by_keys(keys)(
                    order[i],
                    order[j],
                )
            &&& forall|i: int| 0 <= i < order.len() ==> (#[trigger] order[i]) < detections.len()
            &&& forall|place: usize|
                place < detections.len() ==> #[trigger] order.contains(place)
        }),
{
    let keys = score_keys(detections);
    let all = places(detections.len());
    let order = sorted(all, keys);
    lemma_sorted(all, keys);
    all.lemma_multiset_has_no_duplicates();
    order.lemma_multiset_has_no_duplicates_conv();
    assert forall|i: int| 0 <= i < order.len() implies (#[trigger] order[i])
        < detections.len() by {
        assert(order.contains(order[i]));
        vstd::seq_lib::to_multiset_contains(order, order[i]);
        vstd::seq_lib::to_multiset_contains(all, order[i]);
    }
    assert forall|place: usize| place < detections.len() implies #[trigger] order.contains(
        place,
    ) by {
        assert(all[place as int] == place);
        vstd::seq_lib::to_multiset_contains(order, place);
        vstd::seq_lib::to_multiset_contains(all, place);
    }
}

/// The kept detections are some of those given, none of them twice, and come by their scores,
/// the highest first. Whatever is not kept was made superfluous by a kept one whose score is at
/// least as high.
pub proof fn law_survivors_come_by_score<
    A: Fn(usize, usize) -> bool,
    O: Fn(usize, usize, bool) -> bool,
>(overlaps: &Overlaps<A, O>, detections: Seq<LayoutDetection>)
    requires
        detections.len() <= usize::MAX,
    ensures
        ({
            let kept = overlaps.survivors(
                detections,
                sorted(places(detections.len()), score_keys(detections)),
            );
            &&& forall|i: int| 0 <= i < kept.len() ==> (#[trigger] kept[i]) < detections.len()
            &&& kept.no_duplicates()
            &&& forall|i: int, j: int|
                0 <= i < j < kept.len() ==> single_order(
                    detections[(#[trigger] kept[i]) as int].score,
                ) >= single_order(detections[(#[trigger] kept[j]) as int].score)
            &&& forall|place: usize|
                place < detections.len() ==> #[trigger] kept.contains(place) || exists|i: int|
                    0 <= i < kept.len() && overlaps.suppresses(
                        detections,
                        #[trigger] kept[i],
                        place,
                    ) && single_order(detections[kept[i] as int].score) >= single_order(
                        detections[place as int].score,
                    )
        }),
{
    let keys = score_keys(detections);
    let order = sorted(places(detections.len()), keys);
    let related = |i: usize, j: usize| i != j && by_keys(keys)(i, j);
    let kept = overlaps.survivors(detections, order);
    lemma_considered(detections);
    assert forall|i: int, j: int| 0 <= i < j < order.len() implies #[trigger] related(
        order[i],
        order[j],
    ) by {
        assert(by_keys(keys)(order[i], order[j]));
    }
    lemma_survivors_related(overlaps, detections, order, related);
    law_survivors(overlaps, detections, order);
    assert forall|i: int| 0 <= i < kept.len() implies (#[trigger] kept[i])
        < detections.len() by {
        assert(order.contains(kept[i]));
    }
    assert forall|i: int, j: int| 0 <= i < j < kept.len() implies kept[i] != kept[j]
        && single_order(detections[(#[trigger] kept[i]) as int].score) >= single_order(
        detections[(#[trigger] kept[j]) as int].score,
    ) by {
        assert(related(kept[i], kept[j]));
        law_keys_order_detections(detections, kept[i], kept[j]);
    }
    assert forall|place: usize| place < detections.len() implies #[trigger] kept.contains(place)
        || exists|i: int|
        0 <= i < kept.len() && overlaps.suppresses(
            detections,
            #[trigger] kept[i],
            place,
        ) && single_order(detections[kept[i] as int].score) >= single_order(
            detections[place as int].score,
        ) by {
        assert(order.contains(place));
        let k = choose|k: int| 0 <= k < order.len() && order[k] == place;
        if !kept.contains(order[k]) {
            let i = choose|i: int|
                0 <= i < kept.len() && overlaps.suppresses(
                    detections,
                    #[trigger] kept[i],
                    order[k],
                ) && related(kept[i], order[k]);
            law_keys_order_detections(detections, kept[i], place);
        }
    }
}

/// The detections at some places.
pub open spec fn at_places(
    detections: Seq<LayoutDetection>,
    kept: Seq<usize>,
) -> Seq<LayoutDetection> {
    kept.map_values(|place: usize| detections[place as int])
}

/// Detections that were kept are all kept, in their order, when they are considered again.
/// `again` makes of the kept detections the measurements that `overlaps` makes of them in their
/// old places.
pub proof fn law_suppressing_again_changes_nothing<
    A: Fn(usize, usize) -> bool,
    O: Fn(usize, usize, bool) -> bool,
    B: Fn(usize, usize) -> bool,
    Q: Fn(usize, usize, bool) -> bool,
>(overlaps: &Overlaps<A, O>, again: &Overlaps<B, Q>, detections: Seq<LayoutDetection>)
    requires
        detections.len() <= usize::MAX,
        ({
            let kept = overlaps.survivors(
                detections,
                sorted(places(detections.len()), score_keys(detections)),
            );
            &&& forall|i: usize, j: usize|
                i < kept.len() && j < kept.len() ==> #[trigger] call_ensures(
                    again.comparable,
                    (i, j),
                    true,
                ) == call_ensures(
                    overlaps.comparable,
                    (kept[i as int], kept[j as int]),
                    true,
                )
            &&& forall|i: usize, j: usize, strict: bool|
                i < kept.len() && j < kept.len() ==> #[trigger] call_ensures(
                    again.overlapping,
                    (i, j, strict),
                    true,
                ) == call_ensures(
                    overlaps.overlapping,
                    (kept[i as int], kept[j as int], strict),
                    true,
                )
        }),
    ensures
        ({
            let kept = overlaps.survivors(
                detections,
                sorted(places(detections.len()), score_keys(detections)),
            );
            let left = at_places(detections, kept);
            again.survivors(left, sorted(places(left.len()), score_keys(left))) == places(left.len())
        }),
{
    let keys = score_keys(detections);
    let order = sorted(places(detections.len()), keys);
    let related = |i: usize, j: usize| i != j && by_keys(keys)(i, j);
    let kept = overlaps.survivors(detections, order);
    let left = at_places(detections, kept);
    lemma_considered(detections);
    assert forall|i: int, j: int| 0 <= i < j < order.len() implies #[trigger] related(
        order[i],
        order[j],
    ) by {
        assert(by_keys(keys)(order[i], order[j]));
    }
    lemma_survivors_related(overlaps, detections, order, related);
    law_survivors(overlaps, detections, order);
    law_survivors_come_by_score(overlaps, detections);
    let all = places(left.len());
    let leq = by_keys(score_keys(left));
    assert forall|i: int, j: int| 0 <= i < j < all.len() implies #[trigger] leq(
        all[i],
        all[j],
    ) by {
        assert(related(kept[i], kept[j]));
        law_keys_order_detections(detections, kept[i], kept[j]);
        law_keys_order_detections(left, i as usize, j as usize);
    }
    lemma_sorted(all, score_keys(left));
    lemma_by_keys(score_keys(left));
    lemma_sorted_unique(sorted(all, score_keys(left)), all, leq);
    assert forall|i: int, j: int| 0 <= i < j < all.len() implies !again.suppresses(
        left,
        #[trigger] all[i],
        #[trigger] all[j],
    ) by {
        assert(!overlaps.suppresses(detections, kept[i], kept[j]));
    }
    lemma_all_survive(again, left, all);
}

proof fn lemma_all_survive<
    A: Fn(usize, usize) -> bool,
    O: Fn(usize, usize, bool) -> bool,
>(overlaps: &Overlaps<A, O>, detections: Seq<LayoutDetection>, order: Seq<usize>)
    requires
        forall|i: int, j: int|
            0 <= i < j < order.len() ==> !overlaps.suppresses(
                detections,
                #[trigger] order[i],
                #[trigger] order[j],
            ),
    ensures
        overlaps.survivors(detections, order) == order,
    decreases order.len(),
{
    if order.len() > 0 {
        let rest = order.drop_last();
        assert forall|i: int, j: int| 0 <= i < j < rest.len() implies !overlaps.suppresses(
            detections,
            #[trigger] rest[i],
            #[trigger] rest[j],
        ) by {
            assert(!overlaps.suppresses(detections, order[i], order[j]));
        }
        lemma_all_survive(overlaps, detections, rest);
        assert forall|k: int| 0 <= k < rest.len() implies !overlaps.suppresses(
            detections,
            #[trigger] rest[k],
            order.last(),
        ) by {
            assert(!overlaps.suppresses(detections, order[k], order[order.len() - 1]));
        }
        assert(rest.push(order.last()) =~= order);
    } else {
        assert(order =~= Seq::empty());
    }
}

/// Measurements of detections: whether one has an area at all, and whether one is larger than
/// another and holds most of it.
pub struct Nesting<P, N> {
    pub extended: P,
    pub nests: N,
}

impl<P: Fn(usize) -> bool, N: Fn(usize, usize) -> bool> Nesting<P, N> {
    pub open spec fn steady(&self) -> bool {
        &&& forall|child: usize| #[trigger] call_requires(self.extended, (child,))
        &&& forall|parent: usize, child: usize| #[trigger]
            call_requires(self.nests, (parent, child))
        &&& forall|child: usize|
            !(#[trigger] call_ensures(self.extended, (child,), true) && call_ensures(
                self.extended,
                (child,),
                false,
            ))
        &&& forall|parent: usize, child: usize|
            !(#[trigger] call_ensures(self.nests, (parent, child), true) && call_ensures(
                self.nests,
                (parent, child),
                false,
            ))
    }

    /// A text detection lies in another, larger one.
    pub open spec fn nested(&self, detections: Seq<LayoutDetection>) -> spec_fn(usize) -> bool {
        |child: usize|
            detections[child as int].is_text() && call_ensures(self.extended, (child,), true)
                && exists|parent: usize|
                parent < detections.len() && parent != child && detections[parent as int].is_text()
                    && #[trigger] call_ensures(self.nests, (parent, child), true)
    }

    fn is_nested(&self, detections: &Vec<LayoutDetection>, child: usize) -> (result: bool)
        requires
            self.steady(),
            child < detections.len(),
        ensures
            result == self.nested(detections@)(child),
    {
        let extended = &self.extended;
        let nests = &self.nests;
        if !is_text_detection(&detections[child]) {
            return false;
        }
        if !extended(child) {
            return false;
        }
        let mut parent: usize = 0;
        while parent < detections.len()
            invariant
                parent <= detections.len(),
                child < detections.len(),
                self.steady(),
                *nests == self.nests,
                detections@[child as int].is_text(),
                call_ensures(self.extended, (child,), true),
                forall|p: usize|
                    p < parent && p != child && detections@[p as int].is_text() ==> !#[trigger] call_ensures(
                        self.nests,
                        (p, child),
                        true,
                    ),
            decreases detections.len() - parent,
        {
            if parent != child && is_text_detection(&detections[parent]) {
                if nests(parent, child) {
                    return true;
                }
            }
            parent += 1;
        }
        false
    }
}

/// The detections that do not lie in larger text, in their order.
pub fn remove_nested_text_detections<P: Fn(usize) -> bool, N: Fn(usize, usize) -> bool>(
    detections: &Vec<LayoutDetection>,
    nesting: &Nesting<P, N>,
) -> (result: Vec<usize>)
    requires
        nesting.steady(),
    ensures
        result@ == places(detections@.len()).filter(
            |child: usize| !nesting.nested(detections@)(child),
        ),
        forall|k: int| 0 <= k < result.len() ==> (#[trigger] result@[k]) < detections.len(),
{
    let ghost all = places(detections@.len());
    let ghost keep = |child: usize| !nesting.nested(detections@)(child);
    let mut result: Vec<usize> = Vec::new();
    let mut index: usize = 0;
    while index < detections.len()
        invariant
            index <= detections.len(),
            nesting.steady(),
            all == places(detections@.len()),
            keep == (|child: usize| !nesting.nested(detections@)(child)),
            result@ == all.take(index as int).filter(keep),
            forall|k: int| 0 <= k < result.len() ==> (#[trigger] result@[k]) < detections.len(),
        decreases detections.len() - index,
    {
        proof {
            let next = all.take(index as int + 1);
            assert(next.drop_last() =~= all.take(index as int));
            assert(next.last() == index);
            reveal(Seq::filter);
        }
        if !nesting.is_nested(detections, index) {
            result.push(index);
        }
        index += 1;
    }
    proof {
        assert(all.take(index as int) =~= all);
    }
    result
}

/// Picks some of the values, each at most once, in a given order.
pub fn pick<T>(values: Vec<T>, order: &Vec<usize>) -> (result: Vec<T>)
    requires
        order@.no_duplicates(),
        forall|k: int| 0 <= k < order.len() ==> (#[trigger] order@[k]) < values.len(),
    ensures
        result.len() == order.len(),
        forall|k: int| 0 <= k < order.len() ==> #[trigger] result@[k] == values@[order@[k] as int],
{
    let ghost given = values@;
    let mut slots: Vec<Option<T>> = Vec::new();
    let mut rest = values;
    while rest.len() > 0
        invariant
            slots.len() + rest.len() == given.len(),
            rest@ == given.take(rest.len() as int),
            forall|i: int|
                0 <= i < slots.len() ==> #[trigger] slots@[i] == Some(given[given.len() - 1 - i]),
        decreases rest.len(),
    {
        let ghost before = rest@;
        match rest.pop() {
            Some(value) => {
                proof {
                    assert(value == given[before.len() - 1]);
                    assert(rest@ =~= given.take(rest.len() as int));
                }
                slots.push(Some(value));
            },
            None => {},
        }
    }
    let mut result: Vec<T> = Vec::new();
    let mut next: usize = 0;
    while next < order.len()
        invariant
            next <= order.len(),
            slots.len() == given.len(),
            order@.no_duplicates(),
            forall|k: int| 0 <= k < order.len() ==> (#[trigger] order@[k]) < given.len(),
            result.len() == next,
            forall|k: int|
                0 <= k < next ==> #[trigger] result@[k] == given[order@[k] as int],
            forall|k: int|
                next <= k < order.len() ==> slots@[given.len() - 1 - #[trigger] order@[k]] == Some(
                    given[order@[k] as int],
                ),
        decreases order.len() - next,
    {
        assert(order@[next as int] < given.len());
        let place: usize = slots.len() - 1 - order[next];
        let mut slot: Option<T> = None;
        slots.set_and_swap(place, &mut slot);
        if let Some(value) = slot {
            result.push(value);
        }
        next += 1;
    }
    result
}

/// Detections that do not lie in larger text are all left when they are looked at again.
/// `again` makes of them the measurements that `nesting` makes of them in their old places.
pub proof fn law_removing_nested_text_again_changes_nothing<
    P: Fn(usize) -> bool,
    N: Fn(usize, usize) -> bool,
    R: Fn(usize) -> bool,
    M: Fn(usize, usize) -> bool,
>(nesting: &Nesting<P, N>, again: &Nesting<R, M>, detections: Seq<LayoutDetection>)
    requires
        detections.len() <= usize::MAX,
        ({
            let kept = places(detections.len()).filter(
                |child: usize| !nesting.nested(detections)(child),
            );
            &&& forall|i: usize|
                i < kept.len() ==> #[trigger] call_ensures(again.extended, (i,), true)
                    == call_ensures(nesting.extended, (kept[i as int],), true)
            &&& forall|i: usize, j: usize|
                i < kept.len() && j < kept.len() ==> #[trigger] call_ensures(
                    again.nests,
                    (i, j),
                    true,
                ) == call_ensures(nesting.nests, (kept[i as int], kept[j as int]), true)
        }),
    ensures
        ({
            let kept = places(detections.len()).filter(
                |child: usize| !nesting.nested(detections)(child),
            );
            let left = at_places(detections, kept);
            places(left.len()).filter(|child: usize| !again.nested(left)(child)) == places(left.len())
        }),
{
    let keep = |child: usize| !nesting.nested(detections)(child);
    let kept = places(detections.len()).filter(keep);
    let left = at_places(detections, kept);
    let still = |child: usize| !again.nested(left)(child);
    lemma_selected(detections.len(), keep);
    assert(kept == selected(detections.len(), keep));
    lemma_kept_len(places(detections.len()), keep);
    assert forall|i: int| 0 <= i < left.len() implies still(#[trigger] places(left.len())[i]) by {
        let child = i as usize;
        assert(keep(kept[i]));
        if again.nested(left)(child) {
            let parent = choose|parent: usize|
                parent < left.len() && parent != child && left[parent as int].is_text()
                    && #[trigger] call_ensures(again.nests, (parent, child), true);
            assert(kept[parent as int] != kept[i]);
            assert(call_ensures(nesting.nests, (kept[parent as int], kept[i]), true));
            assert(call_ensures(again.extended, (child,), true));
            assert(nesting.nested(detections)(kept[i]));
        }
    }
    lemma_all_kept(places(left.len()), still);
}

proof fn lemma_kept_len(list: Seq<usize>, keep: spec_fn(usize) -> bool)
    ensures
        list.filter(keep).len() <= list.len(),
    decreases list.len(),
{
    reveal(Seq::filter);
    if list.len() > 0 {
        lemma_kept_len(list.drop_last(), keep);
    }
}

proof fn lemma_all_kept(list: Seq<usize>, keep: spec_fn(usize) -> bool)
    requires
        forall|i: int| 0 <= i < list.len() ==> keep(#[trigger] list[i]),
    ensures
        list.filter(keep) == list,
    decreases list.len(),
{
    reveal(Seq::filter);
    if list.len() > 0 {
        assert forall|i: int| 0 <= i < list.drop_last().len() implies keep(
            #[trigger] list.drop_last()[i],
        ) by {
            assert(keep(list[i]));
        }
        lemma_all_kept(list.drop_last(), keep);
        assert(keep(list[list.len() - 1]));
        assert(list.drop_last().push(list.last()) =~= list);
    } else {
        assert(list.filter(keep) =~= list);
    }
}

/// A detection only makes one of another label superfluous where both are text or sound effects, of
/// nearly the same area, and overlap strictly.
pub proof fn law_other_kinds_are_not_superfluous<
    A: Fn(usize, usize) -> bool,
    O: Fn(usize, usize, bool) -> bool,
>(overlaps: &Overlaps<A, O>, detections: Seq<LayoutDetection>, kept: usize, other: usize)
    requires
        overlaps.suppresses(detections, kept, other),
        detections[kept as int].label@ != detections[other as int].label@,
    ensures
        detections[kept as int].label@ == "text"@ || detections[kept as int].label@
            == "onomatopoeia"@,
        detections[other as int].label@ == "text"@ || detections[other as int].label@
            == "onomatopoeia"@,
        call_ensures(overlaps.comparable, (kept, other), true),
        call_ensures(overlaps.overlapping, (kept, other, true), true),
{
}

/// Detections come from top to bottom, those at one height from right to left, and those that begin
/// at one place by their labels. A higher score counts before that.
pub proof fn law_detections_come_from_the_top_right(
    left: &LayoutDetection,
    right: &LayoutDetection,
)
    ensures
        single_order(left.bbox@[1]) < single_order(right.bbox@[1]) ==> detection_before(left, right)
            && !detection_before(right, left),
        left.bbox@[1] == right.bbox@[1] && single_order(left.bbox@[0]) > single_order(
            right.bbox@[0],
        ) ==> detection_before(left, right) && !detection_before(right, left),
        single_order(left.score) > single_order(right.score) ==> considered_before(left, right)
            && !considered_before(right, left),
        left.score == right.score ==> considered_before(left, right) == detection_before(
            left,
            right,
        ),
{
}

} // verus!
