//! Lists of numbers: joined, divided, and counted.

use vstd::prelude::*;

verus! {

/// The lists one after the other.
pub open spec fn flat(lists: Seq<Seq<usize>>) -> Seq<usize>
    decreases lists.len(),
{
    if lists.len() == 0 {
        Seq::empty()
    } else {
        flat(lists.drop_last()) + lists.last()
    }
}

/// The contents of vectors.
pub open spec fn contents(lists: Seq<Vec<usize>>) -> Seq<Seq<usize>> {
    lists.map_values(|list: Vec<usize>| list@)
}

/// Two lists have the same elements, each as often.
pub open spec fn same_elements(left: Seq<usize>, right: Seq<usize>) -> bool {
    left.to_multiset() == right.to_multiset()
}

pub proof fn lemma_same_elements_len(left: Seq<usize>, right: Seq<usize>)
    requires
        same_elements(left, right),
    ensures
        left.len() == right.len(),
        forall|value: usize| left.contains(value) == right.contains(value),
{
    vstd::seq_lib::to_multiset_len(left);
    vstd::seq_lib::to_multiset_len(right);
    assert forall|value: usize| left.contains(value) == right.contains(value) by {
        vstd::seq_lib::to_multiset_contains(left, value);
        vstd::seq_lib::to_multiset_contains(right, value);
    }
}

/// A sum of lists has the elements of both.
pub proof fn lemma_sum_elements(left: Seq<usize>, right: Seq<usize>)
    ensures
        (left + right).to_multiset() == left.to_multiset().add(right.to_multiset()),
{
    vstd::seq_lib::lemma_multiset_commutative(left, right);
}

/// One list more at the end.
pub proof fn lemma_flat_push(lists: Seq<Seq<usize>>, list: Seq<usize>)
    ensures
        flat(lists.push(list)) == flat(lists) + list,
{
    assert(lists.push(list).drop_last() =~= lists);
}

/// Appending an element to one of the lists adds it to the elements of all.
pub proof fn lemma_flat_extended(lists: Seq<Seq<usize>>, index: int, value: usize)
    requires
        0 <= index < lists.len(),
    ensures
        flat(lists.update(index, lists[index].push(value))).to_multiset() == flat(
            lists,
        ).to_multiset().insert(value),
    decreases lists.len(),
{
    let changed = lists.update(index, lists[index].push(value));
    let rest = flat(lists.drop_last());
    if index == lists.len() - 1 {
        assert(changed.drop_last() =~= lists.drop_last());
        lemma_sum_elements(rest, lists.last());
        lemma_sum_elements(rest, lists.last().push(value));
        vstd::seq_lib::to_multiset_build(lists.last(), value);
        assert(rest.to_multiset().add(lists.last().to_multiset().insert(value))
            =~= rest.to_multiset().add(lists.last().to_multiset()).insert(value));
    } else {
        assert(changed.drop_last() =~= lists.drop_last().update(
            index,
            lists.drop_last()[index].push(value),
        ));
        lemma_flat_extended(lists.drop_last(), index, value);
        lemma_sum_elements(rest, lists.last());
        lemma_sum_elements(flat(changed.drop_last()), lists.last());
        assert(rest.to_multiset().insert(value).add(lists.last().to_multiset())
            =~= rest.to_multiset().add(lists.last().to_multiset()).insert(value));
    }
}

/// Lists whose members have the same elements have the same elements together.
pub proof fn lemma_flat_same(left: Seq<Seq<usize>>, right: Seq<Seq<usize>>)
    requires
        left.len() == right.len(),
        forall|i: int| 0 <= i < left.len() ==> same_elements(#[trigger] left[i], right[i]),
    ensures
        same_elements(flat(left), flat(right)),
    decreases left.len(),
{
    if left.len() > 0 {
        assert forall|i: int| 0 <= i < left.drop_last().len() implies same_elements(
            #[trigger] left.drop_last()[i],
            right.drop_last()[i],
        ) by {
            assert(same_elements(left[i], right[i]));
        }
        lemma_flat_same(left.drop_last(), right.drop_last());
        lemma_sum_elements(flat(left.drop_last()), left.last());
        lemma_sum_elements(flat(right.drop_last()), right.last());
        assert(same_elements(left[left.len() - 1], right[left.len() - 1]));
    }
}

/// An element of one of the lists is an element of all together.
pub proof fn lemma_flat_contains(lists: Seq<Seq<usize>>, index: int, value: usize)
    requires
        0 <= index < lists.len(),
        lists[index].contains(value),
    ensures
        flat(lists).contains(value),
    decreases lists.len(),
{
    let rest = flat(lists.drop_last());
    if index == lists.len() - 1 {
        let i = choose|i: int| 0 <= i < lists.last().len() && lists.last()[i] == value;
        assert(flat(lists)[rest.len() + i] == value);
    } else {
        lemma_flat_contains(lists.drop_last(), index, value);
        let i = choose|i: int| 0 <= i < rest.len() && rest[i] == value;
        assert(flat(lists)[i] == value);
    }
}

/// What of a list passes a test and what does not are together the list's elements.
pub proof fn lemma_filter_split(list: Seq<usize>, keep: spec_fn(usize) -> bool)
    ensures
        list.to_multiset() == list.filter(keep).to_multiset().add(
            list.filter(|value: usize| !keep(value)).to_multiset(),
        ),
    decreases list.len(),
{
    let drop = |value: usize| !keep(value);
    reveal(Seq::filter);
    if list.len() == 0 {
        assert(list.filter(keep) =~= Seq::empty());
        assert(list.filter(drop) =~= Seq::empty());
        assert(list =~= Seq::empty());
        assert(list.to_multiset() =~= list.to_multiset().add(list.to_multiset())) by {
            list.to_multiset_ensures();
            vstd::seq_lib::to_multiset_len(list);
            assert forall|value: usize| list.to_multiset().count(value) == 0 by {
                vstd::seq_lib::to_multiset_contains(list, value);
            }
        }
    } else {
        let rest = list.drop_last();
        let value = list.last();
        lemma_filter_split(rest, keep);
        assert(list =~= rest.push(value));
        vstd::seq_lib::to_multiset_build(rest, value);
        if keep(value) {
            vstd::seq_lib::to_multiset_build(rest.filter(keep), value);
            assert(rest.filter(keep).to_multiset().insert(value).add(
                rest.filter(drop).to_multiset(),
            ) =~= rest.filter(keep).to_multiset().add(rest.filter(drop).to_multiset()).insert(
                value,
            ));
        } else {
            vstd::seq_lib::to_multiset_build(rest.filter(drop), value);
            assert(rest.filter(keep).to_multiset().add(
                rest.filter(drop).to_multiset().insert(value),
            ) =~= rest.filter(keep).to_multiset().add(rest.filter(drop).to_multiset()).insert(
                value,
            ));
        }
    }
}

/// What passes a test has the same elements in lists with the same elements.
pub proof fn lemma_filter_same(left: Seq<usize>, right: Seq<usize>, keep: spec_fn(usize) -> bool)
    requires
        same_elements(left, right),
    ensures
        same_elements(left.filter(keep), right.filter(keep)),
{
    assert forall|value: usize|
        left.filter(keep).to_multiset().count(value) == right.filter(keep).to_multiset().count(
            value,
        ) by {
        lemma_filter_count(left, keep, value);
        lemma_filter_count(right, keep, value);
    }
    assert(left.filter(keep).to_multiset() =~= right.filter(keep).to_multiset());
}

proof fn lemma_filter_count(list: Seq<usize>, keep: spec_fn(usize) -> bool, value: usize)
    ensures
        list.filter(keep).to_multiset().count(value) == (if keep(value) {
            list.to_multiset().count(value)
        } else {
            0
        }),
    decreases list.len(),
{
    reveal(Seq::filter);
    if list.len() == 0 {
        assert(list.filter(keep) =~= list);
        vstd::seq_lib::to_multiset_contains(list, value);
    } else {
        let rest = list.drop_last();
        lemma_filter_count(rest, keep, value);
        assert(list =~= rest.push(list.last()));
        vstd::seq_lib::to_multiset_build(rest, list.last());
        vstd::seq_lib::to_multiset_build(rest.filter(keep), list.last());
    }
}

/// The least element of a list.
pub open spec fn least_element(list: Seq<usize>) -> usize
    decreases list.len(),
{
    if list.len() <= 1 {
        list[0]
    } else {
        let least = least_element(list.drop_last());
        if list.last() < least {
            list.last()
        } else {
            least
        }
    }
}

pub fn find_least(list: &Vec<usize>) -> (result: usize)
    requires
        list.len() > 0,
    ensures
        result == least_element(list@),
        list@.contains(result),
{
    let mut least: usize = list[0];
    let mut index: usize = 1;
    assert(list@[0] == least);
    while index < list.len()
        invariant
            1 <= index <= list.len(),
            least == least_element(list@.take(index as int)),
            list@.contains(least),
        decreases list.len() - index,
    {
        proof {
            assert(list@.take(index as int + 1).drop_last() =~= list@.take(index as int));
            assert(list@[index as int] == list@.take(index as int + 1).last());
        }
        if list[index] < least {
            least = list[index];
        }
        index += 1;
    }
    proof {
        assert(list@.take(index as int) =~= list@);
    }
    least
}

/// Appends all elements of a list.
pub fn append_all(target: &mut Vec<usize>, list: &Vec<usize>)
    ensures
        final(target)@ == old(target)@ + list@,
{
    let mut index: usize = 0;
    while index < list.len()
        invariant
            index <= list.len(),
            target@ == old(target)@ + list@.take(index as int),
        decreases list.len() - index,
    {
        target.push(list[index]);
        index += 1;
        proof {
            assert(old(target)@ + list@.take(index as int) =~= (old(target)@ + list@.take(
                index - 1,
            )).push(list@[index - 1]));
        }
    }
    proof {
        assert(list@.take(index as int) =~= list@);
    }
}

} // verus!
