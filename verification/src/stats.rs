//! A summary of a sample of numbers.

use crate::rounding::{
    law_p99_rank_behind_median, law_p99_rank_in_sample, law_p99_rank_of_small_samples, p99_rank,
    rank_of_p99,
};
use vstd::laws_cmp::obeys_cmp;
use vstd::prelude::*;
use vstd::relations::{sorted_by, total_ordering};
use vstd::seq_lib::lemma_sorted_unique;
use vstd::std_specs::cmp::PartialOrdIs;

verus! {

/// What is told of a sample.
#[derive(Clone, Copy, Debug, PartialEq, Eq)]
pub struct Stats {
    pub sum: u64,
    pub average: u64,
    pub median: u64,
    pub p99: u64,
    pub max: u64,
}

/// The sum of some numbers.
pub open spec fn total(values: Seq<u64>) -> nat
    decreases values.len(),
{
    if values.len() == 0 {
        0
    } else {
        total(values.drop_last()) + values.last() as nat
    }
}

/// The order of numbers.
pub open spec fn at_most() -> spec_fn(u64, u64) -> bool {
    |a: u64, b: u64| a <= b
}

/// The summary of a sample whose values stand in ascending order: the mean without its fraction,
/// the value in the middle (the upper one of two), the value behind 99 of 100 values, and the
/// largest value.
pub open spec fn stats_of(sorted: Seq<u64>) -> Stats {
    Stats {
        sum: total(sorted) as u64,
        average: (total(sorted) / sorted.len()) as u64,
        median: sorted[(sorted.len() / 2) as int],
        p99: sorted[p99_rank(sorted.len()) as int],
        max: sorted.last(),
    }
}

/// The summary of a sample, in whatever order its values stand.
pub open spec fn summary_of(sample: Seq<u64>) -> Stats {
    stats_of(sample.sort_by(at_most()))
}

/// The values have a total order.
pub open spec fn totally_ordered<T: Ord>() -> bool {
    obeys_cmp::<T>()
}

/// The order of values.
pub open spec fn in_order<T: Ord>() -> spec_fn(T, T) -> bool {
    |a: T, b: T| a.is_le(&b)
}

/// The numbers that values are converted into, one for each.
pub open spec fn converted<T: Into<u64>>(values: Seq<T>, numbers: Seq<u64>) -> bool {
    &&& numbers.len() == values.len()
    &&& forall|i: int|
        0 <= i < values.len() ==> call_ensures(
            <T as Into<u64>>::into,
            (values[i],),
            #[trigger] numbers[i],
        )
}

/// The conversion of a value into its own type.
///
/// Speaks of the standard library's `From` of every type for itself. What is claimed of it: the
/// value comes back unchanged.
pub assume_specification<Value>[ <Value as std::convert::From<Value>>::from ](value: Value) -> (same:
    Value)
    ensures
        same == value,
;

/// Sorts values.
///
/// Calls the standard library's `sort` of slices. What is claimed of it: where the order of the
/// values is total, the slice holds the same values afterwards, as often as before, in ascending
/// order.
#[verifier::external_body]
fn sort_values<T: Ord>(data: &mut [T])
    requires
        totally_ordered::<T>(),
    ensures
        final(data)@.to_multiset() == old(data)@.to_multiset(),
        sorted_by(final(data)@, in_order::<T>()),
{
    data.sort();
}

/// Values in another order are converted into the numbers in another order.
proof fn lemma_converted_permuted<T: Into<u64>>(a: Seq<T>, b: Seq<T>, numbers: Seq<u64>) -> (other:
    Seq<u64>)
    requires
        a.to_multiset() == b.to_multiset(),
        converted(b, numbers),
    ensures
        converted(a, other),
        other.to_multiset() == numbers.to_multiset(),
    decreases a.len(),
{
    broadcast use vstd::multiset::group_multiset_axioms;
    broadcast use vstd::seq_lib::group_to_multiset_ensures;

    assert(a.len() == b.len()) by {
        a.to_multiset_ensures();
        b.to_multiset_ensures();
    }
    if a.len() == 0 {
        assert(numbers =~= Seq::empty());
        numbers
    } else {
        let last = a.last();
        assert(a.contains(last));
        assert(a.to_multiset().count(last) > 0);
        assert(b.contains(last));
        let i = choose|i: int| 0 <= i < b.len() && b[i] == last;
        assert(a.drop_last() =~= a.remove(a.len() - 1));
        assert(a.drop_last().to_multiset() =~= b.remove(i).to_multiset());
        assert forall|k: int| 0 <= k < b.remove(i).len() implies call_ensures(
            <T as Into<u64>>::into,
            (b.remove(i)[k],),
            #[trigger] numbers.remove(i)[k],
        ) by {
            if k < i {
                assert(numbers.remove(i)[k] == numbers[k]);
            } else {
                assert(numbers.remove(i)[k] == numbers[k + 1]);
            }
        }
        let front = lemma_converted_permuted(a.drop_last(), b.remove(i), numbers.remove(i));
        let other = front.push(numbers[i]);
        assert forall|k: int| 0 <= k < a.len() implies call_ensures(
            <T as Into<u64>>::into,
            (a[k],),
            #[trigger] other[k],
        ) by {
            if k < front.len() {
                assert(other[k] == front[k]);
                assert(a.drop_last()[k] == a[k]);
            } else {
                assert(other[k] == numbers[i]);
            }
        }
        assert(numbers.contains(numbers[i]));
        assert(other.to_multiset() =~= numbers.to_multiset());
        other
    }
}

/// Numbers are converted into themselves, and stand in the order of numbers.
pub proof fn law_numbers_stand_for_themselves(values: Seq<u64>)
    ensures
        totally_ordered::<u64>(),
        forall|numbers: Seq<u64>| #[trigger] converted(values, numbers) ==> numbers == values,
        sorted_by(values, in_order::<u64>()) == sorted_by(values, at_most()),
{
    broadcast use vstd::laws_cmp::group_laws_cmp;

    assert forall|numbers: Seq<u64>| #[trigger] converted(values, numbers) implies numbers
        == values by {
        assert(numbers =~= values);
    }
    assert(in_order::<u64>() =~= at_most());
}

/// The sum does not depend on the order of the numbers.
pub proof fn law_total_ignores_order(a: Seq<u64>, b: Seq<u64>)
    requires
        a.to_multiset() == b.to_multiset(),
    ensures
        total(a) == total(b),
    decreases a.len(),
{
    broadcast use vstd::multiset::group_multiset_axioms;
    broadcast use vstd::seq_lib::group_to_multiset_ensures;

    assert(a.len() == b.len()) by {
        a.to_multiset_ensures();
        b.to_multiset_ensures();
    }
    if a.len() > 0 {
        let last = a.last();
        assert(a.to_multiset().count(last) > 0) by {
            assert(a.contains(last));
        }
        assert(b.contains(last));
        let i = choose|i: int| 0 <= i < b.len() && b[i] == last;
        assert(a.drop_last() =~= a.remove(a.len() - 1));
        assert(a.drop_last().to_multiset() =~= b.remove(i).to_multiset());
        law_total_ignores_order(a.drop_last(), b.remove(i));
        lemma_total_remove(b, i);
    }
}

proof fn lemma_total_remove(values: Seq<u64>, i: int)
    requires
        0 <= i < values.len(),
    ensures
        total(values) == total(values.remove(i)) + values[i],
    decreases values.len(),
{
    if i == values.len() - 1 {
        assert(values.remove(i) =~= values.drop_last());
    } else {
        lemma_total_remove(values.drop_last(), i);
        assert(values.remove(i).drop_last() =~= values.drop_last().remove(i));
        assert(values.remove(i).last() == values.last());
    }
}

proof fn lemma_total_take(values: Seq<u64>, count: int)
    requires
        0 <= count < values.len(),
    ensures
        total(values.take(count + 1)) == total(values.take(count)) + values[count],
        total(values.take(count + 1)) <= total(values),
    decreases values.len() - count,
{
    assert(values.take(count + 1).drop_last() =~= values.take(count));
    if count + 1 < values.len() {
        lemma_total_take(values, count + 1);
    } else {
        assert(values.take(count + 1) =~= values);
    }
}

/// Sorts a sample and summarises the numbers that its values are converted into.
pub fn calculate_stats<T: Copy + Into<u64> + Ord>(data: &mut [T]) -> (stats: Stats)
    requires
        old(data)@.len() > 0,
        totally_ordered::<T>(),
        forall|numbers: Seq<u64>| #[trigger]
            converted(old(data)@, numbers) ==> total(numbers) <= u64::MAX,
    ensures
        final(data)@.to_multiset() == old(data)@.to_multiset(),
        sorted_by(final(data)@, in_order::<T>()),
        exists|numbers: Seq<u64>| #[trigger]
            converted(final(data)@, numbers) && stats == stats_of(numbers) && stats.sum == total(
                numbers,
            ) && stats.average == total(numbers) / numbers.len() && stats.median == numbers[(
            numbers.len() / 2) as int] && stats.max == numbers[numbers.len() - 1] && (numbers.len()
                <= 70368744177664 ==> stats.p99 == numbers[(99 * numbers.len() / 100) as int]),
{
    sort_values(data);
    let count: usize = data.len();
    let mut numbers: Vec<u64> = Vec::new();
    let mut i: usize = 0;
    while i < count
        invariant
            i <= count == data@.len(),
            converted(data@.take(i as int), numbers@),
        decreases count - i,
    {
        let ghost before = numbers@;
        let number: u64 = data[i].into();
        numbers.push(number);
        i += 1;
        assert forall|k: int| 0 <= k < i implies call_ensures(
            <T as Into<u64>>::into,
            (data@.take(i as int)[k],),
            #[trigger] numbers@[k],
        ) by {
            if k < i - 1 {
                assert(numbers@[k] == before[k]);
                assert(data@.take(i - 1)[k] == data@.take(i as int)[k]);
            }
        }
    }
    proof {
        assert(data@.take(count as int) =~= data@);
        let other = lemma_converted_permuted(old(data)@, data@, numbers@);
        law_total_ignores_order(other, numbers@);
        old(data)@.to_multiset_ensures();
        data@.to_multiset_ensures();
        law_p99_rank_in_sample(count as nat);
        if count <= 70368744177664 {
            law_p99_rank_of_small_samples(count as nat);
        }
    }
    let sum: u64 = sum_of(&numbers);
    let average: u64 = sum / count as u64;
    let median: u64 = numbers[count / 2];
    let p99: u64 = numbers[rank_of_p99(count as u64) as usize];
    let max: u64 = numbers[count - 1];
    proof {
        let mean = total(numbers@) / numbers@.len();
        assert(average == mean);
        assert(converted(data@, numbers@));
    }
    Stats { sum, average, median, p99, max }
}

/// Adds numbers up.
fn sum_of(numbers: &Vec<u64>) -> (sum: u64)
    requires
        total(numbers@) <= u64::MAX,
    ensures
        sum == total(numbers@),
{
    let mut sum: u64 = 0;
    let mut i: usize = 0;
    while i < numbers.len()
        invariant
            i <= numbers@.len(),
            sum == total(numbers@.take(i as int)),
            total(numbers@) <= u64::MAX,
        decreases numbers@.len() - i,
    {
        proof {
            lemma_total_take(numbers@, i as int);
        }
        sum += numbers[i];
        i += 1;
    }
    assert(numbers@.take(i as int) =~= numbers@);
    sum
}

/// Sorts a sample of numbers and summarises it.
pub(crate) fn summarise(data: &mut [u64]) -> (stats: Stats)
    requires
        old(data)@.len() > 0,
        total(old(data)@) <= u64::MAX,
    ensures
        final(data)@.to_multiset() == old(data)@.to_multiset(),
        sorted_by(final(data)@, at_most()),
        stats == stats_of(final(data)@),
        stats == summary_of(old(data)@),
        stats.sum == total(old(data)@),
        stats.average == total(old(data)@) / old(data)@.len(),
{
    proof {
        law_numbers_stand_for_themselves(old(data)@);
    }
    let stats = calculate_stats(data);
    proof {
        law_numbers_stand_for_themselves(data@);
        law_total_ignores_order(old(data)@, data@);
        old(data)@.to_multiset_ensures();
        data@.to_multiset_ensures();
        old(data)@.lemma_sort_by_ensures(at_most());
        law_stats_ignore_order(data@, old(data)@.sort_by(at_most()));
    }
    stats
}

/// The summary does not depend on the order in which the sample was collected.
pub proof fn law_stats_ignore_order(a: Seq<u64>, b: Seq<u64>)
    requires
        a.to_multiset() == b.to_multiset(),
        sorted_by(a, at_most()),
        sorted_by(b, at_most()),
    ensures
        stats_of(a) == stats_of(b),
{
    assert(total_ordering(at_most()));
    lemma_sorted_unique(a, b, at_most());
}

/// The median is at most the 99th percentile, and that at most the largest value; no value of the
/// sample is larger.
pub proof fn law_stats_are_ordered(sorted: Seq<u64>)
    requires
        sorted.len() > 0,
        sorted_by(sorted, at_most()),
    ensures
        stats_of(sorted).median <= stats_of(sorted).p99 <= stats_of(sorted).max,
        forall|i: int| 0 <= i < sorted.len() ==> #[trigger] sorted[i] <= stats_of(sorted).max,
{
    let count = sorted.len();
    law_p99_rank_in_sample(count);
    law_p99_rank_behind_median(count);
    assert forall|i: int, j: int|
        #![trigger sorted[i], sorted[j]]
        0 <= i <= j < count implies sorted[i] <= sorted[j] by {
        if i < j {
            assert(at_most()(sorted[i], sorted[j]));
        }
    }
}

/// A sample that is sorted already is left as it is.
pub proof fn law_sorted_sample_is_kept(before: Seq<u64>, after: Seq<u64>)
    requires
        sorted_by(before, at_most()),
        after.to_multiset() == before.to_multiset(),
        sorted_by(after, at_most()),
    ensures
        after == before,
{
    assert(total_ordering(at_most()));
    lemma_sorted_unique(after, before, at_most());
}

/// The average lies between the smallest and the largest value.
pub proof fn law_average_in_range(sorted: Seq<u64>)
    requires
        sorted.len() > 0,
        sorted_by(sorted, at_most()),
    ensures
        sorted[0] <= stats_of(sorted).average <= stats_of(sorted).max,
{
    let count = sorted.len();
    let (least, most) = (sorted[0] as int, sorted.last() as int);
    law_stats_are_ordered(sorted);
    assert forall|i: int| 0 <= i < count implies least <= #[trigger] sorted[i] <= most by {
        if i > 0 {
            assert(at_most()(sorted[0], sorted[i]));
        }
    }
    lemma_total_in_range(sorted, least, most);
    let sum = total(sorted) as int;
    assert(least <= sum / count as int <= most) by (nonlinear_arith)
        requires
            count > 0,
            least * count <= sum,
            sum <= most * count,
    ;
}

proof fn lemma_total_in_range(values: Seq<u64>, least: int, most: int)
    requires
        forall|i: int| 0 <= i < values.len() ==> least <= #[trigger] values[i] <= most,
    ensures
        least * values.len() <= total(values) <= most * values.len(),
    decreases values.len(),
{
    if values.len() > 0 {
        let front = values.drop_last();
        lemma_total_in_range(front, least, most);
        assert(values[values.len() - 1] == values.last());
        assert(least * values.len() == least * front.len() + least) by (nonlinear_arith)
            requires
                values.len() == front.len() + 1,
        ;
        assert(most * values.len() == most * front.len() + most) by (nonlinear_arith)
            requires
                values.len() == front.len() + 1,
        ;
    }
}

} // verus!
