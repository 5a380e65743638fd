//! Sums and counts over sequences, and how one changed element changes them.

use vstd::prelude::*;

verus! {

/// The sum of the numbers of a sequence.
pub open spec fn sum(values: Seq<nat>) -> nat
    decreases values.len(),
{
    if values.len() == 0 {
        0
    } else {
        sum(values.drop_last()) + values.last()
    }
}

/// How many elements of a sequence are true.
pub open spec fn count(flags: Seq<bool>) -> nat {
    sum(flags.map_values(|flag: bool| if flag { 1nat } else { 0nat }))
}

/// Replacing one number changes the sum by the difference.
pub proof fn lemma_sum_update(values: Seq<nat>, index: int, value: nat)
    requires
        0 <= index < values.len(),
    ensures
        sum(values.update(index, value)) == sum(values) - values[index] + value,
    decreases values.len(),
{
    let changed = values.update(index, value);
    if index == values.len() - 1 {
        assert(changed.drop_last() =~= values.drop_last());
    } else {
        assert(changed.drop_last() =~= values.drop_last().update(index, value));
        lemma_sum_update(values.drop_last(), index, value);
    }
}

/// Every number is at most the sum.
pub proof fn lemma_sum_bounds(values: Seq<nat>, index: int)
    requires
        0 <= index < values.len(),
    ensures
        values[index] <= sum(values),
    decreases values.len(),
{
    if index < values.len() - 1 {
        lemma_sum_bounds(values.drop_last(), index);
    }
}

/// The sum of equal numbers is their product with the length.
pub proof fn lemma_sum_constant(values: Seq<nat>, value: nat)
    requires
        forall|i: int| 0 <= i < values.len() ==> values[i] == value,
    ensures
        sum(values) == values.len() * value,
    decreases values.len(),
{
    if values.len() > 0 {
        lemma_sum_constant(values.drop_last(), value);
        assert(values.len() * value == (values.len() - 1) * value + value) by (nonlinear_arith);
    } else {
        assert(0 * value == 0) by (nonlinear_arith);
    }
}

/// Numbers bounded by `value` sum to at most the product with the length,
/// and to exactly that only where each of them is `value`.
pub proof fn lemma_sum_at_most(values: Seq<nat>, value: nat)
    requires
        forall|i: int| 0 <= i < values.len() ==> values[i] <= value,
    ensures
        sum(values) <= values.len() * value,
        sum(values) == values.len() * value ==> forall|i: int|
            0 <= i < values.len() ==> values[i] == value,
    decreases values.len(),
{
    if values.len() > 0 {
        lemma_sum_at_most(values.drop_last(), value);
        assert(values.len() * value == (values.len() - 1) * value + value) by (nonlinear_arith);
        if sum(values) == values.len() * value {
            assert forall|i: int| 0 <= i < values.len() implies values[i] == value by {
                if i < values.len() - 1 {
                    assert(values.drop_last()[i] == values[i]);
                }
            }
        }
    } else {
        assert(0 * value == 0) by (nonlinear_arith);
    }
}

/// Setting one flag changes the count by one where it was not set yet.
pub proof fn lemma_count_update(flags: Seq<bool>, index: int, flag: bool)
    requires
        0 <= index < flags.len(),
    ensures
        count(flags.update(index, flag)) == count(flags) - (if flags[index] {
            1int
        } else {
            0
        }) + (if flag {
            1int
        } else {
            0
        }),
{
    let number = |flag: bool| if flag { 1nat } else { 0nat };
    assert(flags.update(index, flag).map_values(number) =~= flags.map_values(number).update(
        index,
        number(flag),
    ));
    lemma_sum_update(flags.map_values(number), index, number(flag));
}

/// A count is at most the length, and is the length only where every flag is set.
pub proof fn lemma_count_at_most(flags: Seq<bool>)
    ensures
        count(flags) <= flags.len(),
        count(flags) == flags.len() <==> forall|i: int| 0 <= i < flags.len() ==> flags[i],
{
    let number = |flag: bool| if flag { 1nat } else { 0nat };
    let numbers = flags.map_values(number);
    lemma_sum_at_most(numbers, 1);
    if count(flags) == flags.len() {
        assert forall|i: int| 0 <= i < flags.len() implies flags[i] by {
            assert(numbers[i] == 1);
        }
    }
    if forall|i: int| 0 <= i < flags.len() ==> flags[i] {
        lemma_sum_constant(numbers, 1);
    }
}

/// A count is zero exactly where no flag is set.
pub proof fn lemma_count_zero(flags: Seq<bool>)
    ensures
        count(flags) == 0 <==> forall|i: int| 0 <= i < flags.len() ==> !flags[i],
{
    let number = |flag: bool| if flag { 1nat } else { 0nat };
    let numbers = flags.map_values(number);
    if count(flags) == 0 {
        assert forall|i: int| 0 <= i < flags.len() implies !flags[i] by {
            lemma_sum_bounds(numbers, i);
        }
    }
    if forall|i: int| 0 <= i < flags.len() ==> !flags[i] {
        lemma_sum_constant(numbers, 0);
    }
}

} // verus!
