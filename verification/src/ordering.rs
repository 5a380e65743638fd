//! Puts the places of a list into an order.

use vstd::prelude::*;
use vstd::relations::{sorted_by, total_ordering};

use crate::sorting::lemma_sorted_unique;

verus! {

/// The places of a list, from the first to the last.
pub open spec fn places(count: nat) -> Seq<usize> {
    Seq::new(count, |i: int| i as usize)
}

/// The places of a list in an order.
pub open spec fn ordered(count: nat, leq: spec_fn(usize, usize) -> bool) -> Seq<usize> {
    places(count).sort_by(leq)
}

/// The places in an order are those of the list, each once, none before one that it comes after.
pub proof fn lemma_ordered(count: nat, leq: spec_fn(usize, usize) -> bool)
    requires
        total_ordering(leq),
        count <= usize::MAX,
    ensures
        ordered(count, leq).len() == count,
        ordered(count, leq).to_multiset() == places(count).to_multiset(),
        sorted_by(ordered(count, leq), leq),
        forall|i: int| 0 <= i < count ==> (#[trigger] ordered(count, leq)[i]) < count,
{
    places(count).lemma_sort_by_ensures(leq);
    vstd::seq_lib::to_multiset_len(places(count));
    vstd::seq_lib::to_multiset_len(ordered(count, leq));
    assert forall|i: int| 0 <= i < count implies (#[trigger] ordered(count, leq)[i]) < count by {
        let place = ordered(count, leq)[i];
        assert(ordered(count, leq).contains(place));
        vstd::seq_lib::to_multiset_contains(ordered(count, leq), place);
        vstd::seq_lib::to_multiset_contains(places(count), place);
        assert(places(count).contains(place));
    }
}

/// Puts the places of a list into the order that a test gives.
pub fn order_places<F: Fn(usize, usize) -> bool>(
    count: usize,
    before: &F,
    Ghost(leq): Ghost<spec_fn(usize, usize) -> bool>,
) -> (result: Vec<usize>)
    requires
        total_ordering(leq),
        forall|l: usize, r: usize|
            l < count && r < count ==> #[trigger] call_requires(*before, (l, r)),
        forall|l: usize, r: usize, flag: bool|
            l < count && r < count && #[trigger] call_ensures(*before, (l, r), flag) ==> flag
                == leq(l, r),
    ensures
        result@ == ordered(count as nat, leq),
        result.len() == count,
        forall|i: int| 0 <= i < count ==> (#[trigger] result@[i]) < count,
{
    let mut result: Vec<usize> = Vec::new();
    let mut taken: usize = 0;
    proof {
        assert(result@ =~= places(0));
    }
    while taken < count
        invariant
            taken <= count,
            total_ordering(leq),
            forall|l: usize, r: usize|
                l < count && r < count ==> #[trigger] call_requires(*before, (l, r)),
            forall|l: usize, r: usize, flag: bool|
                l < count && r < count && #[trigger] call_ensures(*before, (l, r), flag) ==> flag
                    == leq(l, r),
            result.len() == taken,
            result@.to_multiset() == places(taken as nat).to_multiset(),
            sorted_by(result@, leq),
            forall|i: int| 0 <= i < result.len() ==> (#[trigger] result@[i]) < count,
        decreases count - taken,
    {
        let mut place: usize = 0;
        while place < result.len() && before(result[place], taken)
            invariant
                place <= result.len(),
                taken < count,
                forall|l: usize, r: usize|
                    l < count && r < count ==> #[trigger] call_requires(*before, (l, r)),
                forall|l: usize, r: usize, flag: bool|
                    l < count && r < count && #[trigger] call_ensures(*before, (l, r), flag)
                        ==> flag == leq(l, r),
                forall|i: int| 0 <= i < result.len() ==> (#[trigger] result@[i]) < count,
                forall|i: int| 0 <= i < place ==> #[trigger] leq(result@[i], taken),
            decreases result.len() - place,
        {
            place += 1;
        }
        let ghost shorter = result@;
        result.insert(place, taken);
        proof {
            assert(result@ == shorter.insert(place as int, taken));
            assert(places(taken as nat + 1) =~= places(taken as nat).push(taken));
            vstd::seq_lib::to_multiset_insert(shorter, place as int, taken);
            vstd::seq_lib::to_multiset_build(places(taken as nat), taken);
            assert forall|i: int, j: int| 0 <= i < j < result.len() implies #[trigger] leq(
                result@[i],
                result@[j],
            ) by {
                if j < place {
                    assert(leq(shorter[i], shorter[j]));
                } else if i >= place + 1 {
                    assert(leq(shorter[i - 1], shorter[j - 1]));
                } else if i < place && j == place {
                    assert(leq(shorter[i], taken));
                } else if i == place {
                    assert(leq(taken, shorter[place as int]));
                    if place < j - 1 {
                        assert(leq(shorter[place as int], shorter[j - 1]));
                    }
                } else {
                    assert(leq(shorter[i], shorter[j - 1]));
                }
            }
        }
        taken += 1;
    }
    proof {
        lemma_ordered(count as nat, leq);
        lemma_sorted_unique(result@, ordered(count as nat, leq), leq);
    }
    result
}

/// The places of a list at which a condition holds, in order.
pub open spec fn selected(count: nat, condition: spec_fn(usize) -> bool) -> Seq<usize> {
    places(count).filter(condition)
}

/// The places at which a condition holds are those of the list, in order.
pub proof fn lemma_selected(count: nat, condition: spec_fn(usize) -> bool)
    requires
        count <= usize::MAX,
    ensures
        forall|i: int|
            0 <= i < selected(count, condition).len() ==> (#[trigger] selected(count, condition)[i])
                < count && condition(selected(count, condition)[i]),
        forall|i: int, j: int|
            0 <= i < j < selected(count, condition).len() ==> (#[trigger] selected(
                count,
                condition,
            )[i]) < (#[trigger] selected(count, condition)[j]),
        forall|place: usize|
            place < count && condition(place) ==> #[trigger] selected(count, condition).contains(
                place,
            ),
    decreases count,
{
    reveal(Seq::filter);
    if count > 0 {
        let less = (count - 1) as nat;
        let last = less as usize;
        lemma_selected(less, condition);
        assert(places(count).drop_last() =~= places(less));
        assert(places(count).last() == last);
        let before = selected(less, condition);
        let all = selected(count, condition);
        assert(all == (if condition(last) {
            before.push(last)
        } else {
            before
        }));
        assert forall|place: usize| place < count && condition(place) implies #[trigger] all.contains(
            place,
        ) by {
            if place == last {
                assert(all[all.len() - 1] == place);
            } else {
                assert(before.contains(place));
                let i = choose|i: int| 0 <= i < before.len() && before[i] == place;
                assert(all[i] == place);
            }
        }
    }
}

/// Selects the places of a list at which a test succeeds.
pub fn select_places<F: Fn(usize) -> bool>(
    count: usize,
    test: &F,
    Ghost(condition): Ghost<spec_fn(usize) -> bool>,
) -> (result: Vec<usize>)
    requires
        forall|i: usize| i < count ==> #[trigger] call_requires(*test, (i,)),
        forall|i: usize, flag: bool|
            i < count && #[trigger] call_ensures(*test, (i,), flag) ==> flag == condition(i),
    ensures
        result@ == selected(count as nat, condition),
        forall|i: int| 0 <= i < result.len() ==> (#[trigger] result@[i]) < count,
{
    let mut result: Vec<usize> = Vec::new();
    let mut index: usize = 0;
    proof {
        reveal(Seq::filter);
        assert(places(0) =~= Seq::empty());
    }
    while index < count
        invariant
            index <= count,
            forall|i: usize| i < count ==> #[trigger] call_requires(*test, (i,)),
            forall|i: usize, flag: bool|
                i < count && #[trigger] call_ensures(*test, (i,), flag) ==> flag == condition(i),
            result@ == selected(index as nat, condition),
            forall|i: int| 0 <= i < result.len() ==> (#[trigger] result@[i]) < count,
        decreases count - index,
    {
        if test(index) {
            result.push(index);
        }
        proof {
            reveal(Seq::filter);
            let longer = places(index as nat + 1);
            assert(longer.drop_last() =~= places(index as nat));
            assert(longer.last() == index);
        }
        index += 1;
    }
    result
}

/// All places of a list.
pub fn all_places(count: usize) -> (result: Vec<usize>)
    ensures
        result@ == places(count as nat),
{
    let mut result: Vec<usize> = Vec::new();
    let mut index: usize = 0;
    while index < count
        invariant
            index <= count,
            result@ =~= places(index as nat),
        decreases count - index,
    {
        result.push(index);
        index += 1;
    }
    result
}

} // verus!
