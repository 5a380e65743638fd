//! Sorts numbers by keys.

use vstd::prelude::*;
use vstd::relations::{sorted_by, total_ordering};

verus! {

/// The order of numbers by their keys; numbers with equal keys keep their own order.
pub open spec fn by_keys(keys: Seq<(i64, i128)>) -> spec_fn(usize, usize) -> bool {
    |left: usize, right: usize|
        {
            let l = keys[left as int];
            let r = keys[right as int];
            l.0 < r.0 || (l.0 == r.0 && (l.1 < r.1 || (l.1 == r.1 && left <= right)))
        }
}

/// Some numbers in the order of their keys.
pub open spec fn sorted(indices: Seq<usize>, keys: Seq<(i64, i128)>) -> Seq<usize> {
    indices.sort_by(by_keys(keys))
}

/// The order by keys is a total order.
pub proof fn lemma_by_keys(keys: Seq<(i64, i128)>)
    ensures
        total_ordering(by_keys(keys)),
{
}

/// What is sorted has the same elements.
pub proof fn lemma_sorted(indices: Seq<usize>, keys: Seq<(i64, i128)>)
    ensures
        sorted(indices, keys).to_multiset() == indices.to_multiset(),
        sorted(indices, keys).len() == indices.len(),
        sorted_by(sorted(indices, keys), by_keys(keys)),
{
    lemma_by_keys(keys);
    indices.lemma_sort_by_ensures(by_keys(keys));
    vstd::seq_lib::to_multiset_len(indices);
    vstd::seq_lib::to_multiset_len(sorted(indices, keys));
}

/// Two sorted sequences with the same elements are equal.
pub proof fn lemma_sorted_unique(
    left: Seq<usize>,
    right: Seq<usize>,
    leq: spec_fn(usize, usize) -> bool,
)
    requires
        total_ordering(leq),
        sorted_by(left, leq),
        sorted_by(right, leq),
        left.to_multiset() == right.to_multiset(),
    ensures
        left == right,
    decreases left.len(),
{
    vstd::seq_lib::to_multiset_len(left);
    vstd::seq_lib::to_multiset_len(right);
    assert(left.len() == right.len());
    if left.len() > 0 {
        let a = left.last();
        let b = right.last();
        assert(left.contains(a)) by {
            assert(left[left.len() - 1] == a);
        }
        assert(right.contains(b)) by {
            assert(right[right.len() - 1] == b);
        }
        vstd::seq_lib::to_multiset_contains(left, a);
        vstd::seq_lib::to_multiset_contains(left, b);
        vstd::seq_lib::to_multiset_contains(right, a);
        vstd::seq_lib::to_multiset_contains(right, b);
        assert(right.contains(a));
        assert(left.contains(b));
        let i = choose|i: int| 0 <= i < right.len() && right[i] == a;
        let j = choose|j: int| 0 <= j < left.len() && left[j] == b;
        assert(leq(a, b)) by {
            if i < right.len() - 1 {
                assert(leq(right[i], right[right.len() - 1]));
            }
        }
        assert(leq(b, a)) by {
            if j < left.len() - 1 {
                assert(leq(left[j], left[left.len() - 1]));
            }
        }
        assert(a == b);
        let shorter_left = left.drop_last();
        let shorter_right = right.drop_last();
        assert(left.remove(left.len() - 1) =~= shorter_left);
        assert(right.remove(right.len() - 1) =~= shorter_right);
        vstd::seq_lib::to_multiset_remove(left, left.len() - 1);
        vstd::seq_lib::to_multiset_remove(right, right.len() - 1);
        assert forall|x: int, y: int| 0 <= x < y < shorter_left.len() implies #[trigger] leq(
            shorter_left[x],
            shorter_left[y],
        ) by {
            assert(leq(left[x], left[y]));
        }
        assert forall|x: int, y: int| 0 <= x < y < shorter_right.len() implies #[trigger] leq(
            shorter_right[x],
            shorter_right[y],
        ) by {
            assert(leq(right[x], right[y]));
        }
        lemma_sorted_unique(shorter_left, shorter_right, leq);
        assert(left =~= shorter_left.push(a));
        assert(right =~= shorter_right.push(b));
    }
}

fn comes_before(keys: &Vec<(i64, i128)>, left: usize, right: usize) -> (result: bool)
    requires
        left < keys.len(),
        right < keys.len(),
    ensures
        result == by_keys(keys@)(left, right),
{
    let l = keys[left];
    let r = keys[right];
    l.0 < r.0 || (l.0 == r.0 && (l.1 < r.1 || (l.1 == r.1 && left <= right)))
}

/// Sorts numbers by their keys.
pub fn sort_by_keys(indices: &Vec<usize>, keys: &Vec<(i64, i128)>) -> (result: Vec<usize>)
    requires
        forall|i: int| 0 <= i < indices.len() ==> (#[trigger] indices@[i]) < keys.len(),
    ensures
        result@ == sorted(indices@, keys@),
        result.len() == indices.len(),
        forall|i: int| 0 <= i < result.len() ==> (#[trigger] result@[i]) < keys.len(),
{
    let ghost leq = by_keys(keys@);
    let mut result: Vec<usize> = Vec::new();
    let mut taken: usize = 0;
    proof {
        assert(result@ =~= indices@.take(0));
    }
    while taken < indices.len()
        invariant
            taken <= indices.len(),
            forall|i: int| 0 <= i < indices.len() ==> (#[trigger] indices@[i]) < keys.len(),
            leq == by_keys(keys@),
            result.len() == taken,
            result@.to_multiset() == indices@.take(taken as int).to_multiset(),
            sorted_by(result@, leq),
            forall|i: int| 0 <= i < result.len() ==> (#[trigger] result@[i]) < keys.len(),
        decreases indices.len() - taken,
    {
        let index: usize = indices[taken];
        let mut place: usize = 0;
        while place < result.len() && comes_before(keys, result[place], index)
            invariant
                place <= result.len(),
                index < keys.len(),
                leq == by_keys(keys@),
                forall|i: int| 0 <= i < result.len() ==> (#[trigger] result@[i]) < keys.len(),
                forall|i: int| 0 <= i < place ==> #[trigger] leq(result@[i], index),
            decreases result.len() - place,
        {
            place += 1;
        }
        let ghost before = result@;
        result.insert(place, index);
        proof {
            lemma_by_keys(keys@);
            assert(result@ == before.insert(place as int, index));
            assert(indices@.take(taken as int + 1) =~= indices@.take(taken as int).push(index));
            vstd::seq_lib::to_multiset_insert(before, place as int, index);
            vstd::seq_lib::to_multiset_build(indices@.take(taken as int), index);
            assert forall|i: int, j: int| 0 <= i < j < result.len() implies #[trigger] leq(
                result@[i],
                result@[j],
            ) by {
                if j < place {
                    assert(leq(before[i], before[j]));
                } else if i >= place + 1 {
                    assert(leq(before[i - 1], before[j - 1]));
                } else if i < place && j == place {
                    assert(leq(before[i], index));
                } else if i == place {
                    assert(leq(index, before[place as int]));
                    if place < j - 1 {
                        assert(leq(before[place as int], before[j - 1]));
                    }
                } else {
                    assert(leq(before[i], before[j - 1]));
                }
            }
        }
        taken += 1;
    }
    proof {
        assert(indices@.take(taken as int) =~= indices@);
        lemma_by_keys(keys@);
        lemma_sorted(indices@, keys@);
        lemma_sorted_unique(result@, sorted(indices@, keys@), leq);
    }
    result
}

} // verus!
