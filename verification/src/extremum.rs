//! Which element of a sequence has the least or the greatest key.

use vstd::prelude::*;

verus! {

/// The place of the least key, the first of several.
pub open spec fn first_min(keys: Seq<int>) -> int
    decreases keys.len(),
{
    if keys.len() <= 1 {
        0
    } else {
        let best = first_min(keys.drop_last());
        if keys.last() < keys[best] {
            keys.len() - 1
        } else {
            best
        }
    }
}

/// The place of the greatest key, the last of several.
pub open spec fn last_max(keys: Seq<int>) -> int
    decreases keys.len(),
{
    if keys.len() <= 1 {
        0
    } else {
        let best = last_max(keys.drop_last());
        if keys.last() >= keys[best] {
            keys.len() - 1
        } else {
            best
        }
    }
}

/// The least key stands at `first_min`, and every earlier key is greater.
pub proof fn lemma_first_min(keys: Seq<int>)
    requires
        keys.len() > 0,
    ensures
        0 <= first_min(keys) < keys.len(),
        forall|i: int| 0 <= i < keys.len() ==> keys[first_min(keys)] <= #[trigger] keys[i],
        forall|i: int| 0 <= i < first_min(keys) ==> keys[first_min(keys)] < #[trigger] keys[i],
    decreases keys.len(),
{
    if keys.len() > 1 {
        let rest = keys.drop_last();
        lemma_first_min(rest);
        assert forall|i: int| 0 <= i < keys.len() implies keys[first_min(keys)] <= #[trigger] keys[i] by {
            if i < rest.len() {
                assert(rest[i] == keys[i]);
            }
        }
        assert forall|i: int| 0 <= i < first_min(keys) implies keys[first_min(keys)] < #[trigger] keys[i] by {
            assert(rest[i] == keys[i]);
        }
    }
}

/// The last greatest key is not less than any, and greater than those behind it.
pub proof fn lemma_last_max(keys: Seq<int>)
    requires
        keys.len() > 0,
    ensures
        0 <= last_max(keys) < keys.len(),
        forall|i: int| 0 <= i < keys.len() ==> #[trigger] keys[i] <= keys[last_max(keys)],
        forall|i: int| last_max(keys) < i < keys.len() ==> #[trigger] keys[i] < keys[last_max(keys)],
    decreases keys.len(),
{
    if keys.len() > 1 {
        let rest = keys.drop_last();
        lemma_last_max(rest);
        assert forall|i: int| 0 <= i < keys.len() implies #[trigger] keys[i] <= keys[last_max(keys)] by {
            if i < rest.len() {
                assert(rest[i] == keys[i]);
            }
        }
        assert forall|i: int| last_max(keys) < i < keys.len() implies #[trigger] keys[i]
            < keys[last_max(keys)] by {
            if i < rest.len() {
                assert(rest[i] == keys[i]);
            }
        }
    }
}

/// Keys as mathematical numbers.
pub open spec fn numbers(keys: Seq<u64>) -> Seq<int> {
    keys.map_values(|key: u64| key as int)
}

pub fn place_of_first_min(keys: &Vec<u64>) -> (result: usize)
    requires
        keys.len() > 0,
    ensures
        result == first_min(numbers(keys@)),
        result < keys.len(),
{
    let mut best: usize = 0;
    let mut index: usize = 1;
    while index < keys.len()
        invariant
            1 <= index <= keys.len(),
            best < index,
            best == first_min(numbers(keys@).take(index as int)),
        decreases keys.len() - index,
    {
        proof {
            let next = numbers(keys@).take(index as int + 1);
            assert(next.drop_last() =~= numbers(keys@).take(index as int));
        }
        if keys[index] < keys[best] {
            best = index;
        }
        index += 1;
    }
    proof {
        assert(numbers(keys@).take(index as int) =~= numbers(keys@));
    }
    best
}

pub fn place_of_last_max(keys: &Vec<u64>) -> (result: usize)
    requires
        keys.len() > 0,
    ensures
        result == last_max(numbers(keys@)),
        result < keys.len(),
{
    let mut best: usize = 0;
    let mut index: usize = 1;
    while index < keys.len()
        invariant
            1 <= index <= keys.len(),
            best < index,
            best == last_max(numbers(keys@).take(index as int)),
        decreases keys.len() - index,
    {
        proof {
            let next = numbers(keys@).take(index as int + 1);
            assert(next.drop_last() =~= numbers(keys@).take(index as int));
        }
        if keys[index] >= keys[best] {
            best = index;
        }
        index += 1;
    }
    proof {
        assert(numbers(keys@).take(index as int) =~= numbers(keys@));
    }
    best
}

} // verus!
