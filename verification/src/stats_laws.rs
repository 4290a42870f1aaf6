//! What the figures of a summary say of the sample, whatever its size and order.

use crate::rounding::{law_p99_rank_in_sample, law_p99_rank_of_small_samples, p99_rank};
use crate::stats::{at_most, law_total_ignores_order, stats_of, summary_of, total};
use vstd::arithmetic::div_mod::lemma_fundamental_div_mod;
use vstd::prelude::*;
use vstd::relations::total_ordering;

verus! {

/// The sum adds the numbers up from the first one on.
pub proof fn law_sum_adds_up(values: Seq<u64>, sums: Seq<int>)
    requires
        sums.len() == values.len() + 1,
        sums[0] == 0,
        forall|i: int| 0 <= i < values.len() ==> sums[i + 1] == sums[i] + #[trigger] values[i],
    ensures
        total(values) == sums.last(),
    decreases values.len(),
{
    if values.len() > 0 {
        let front = values.drop_last();
        assert forall|i: int| 0 <= i < front.len() implies sums.drop_last()[i + 1]
            == sums.drop_last()[i] + #[trigger] front[i] by {
            assert(front[i] == values[i]);
        }
        law_sum_adds_up(front, sums.drop_last());
        assert(values[values.len() - 1] == values.last());
    }
}

/// The sum that is told is that of the numbers, and the average is the largest whole number that,
/// taken once for each number, does not exceed it.
pub proof fn law_average_shares_the_sum(values: Seq<u64>)
    requires
        values.len() > 0,
        total(values) <= u64::MAX,
    ensures
        stats_of(values).sum == total(values),
        stats_of(values).average * values.len() <= total(values),
        total(values) < (stats_of(values).average + 1) * values.len(),
{
    let (sum, count) = (total(values) as int, values.len() as int);
    lemma_fundamental_div_mod(sum, count);
    let average = sum / count;
    assert(0 <= average <= sum) by (nonlinear_arith)
        requires
            count > 0,
            sum >= 0,
            average == sum / count,
    ;
    assert(count * average == average * count) by (nonlinear_arith);
    assert((average + 1) * count == average * count + count) by (nonlinear_arith);
    assert(stats_of(values).average == average);
}

/// Of numbers from some place on of which none is picked, at most those before it are picked.
proof fn lemma_picked_before(values: Seq<u64>, pick: spec_fn(u64) -> bool, place: int)
    requires
        0 <= place <= values.len(),
        forall|i: int| place <= i < values.len() ==> !pick(#[trigger] values[i]),
    ensures
        values.filter(pick).len() <= place,
    decreases values.len(),
{
    reveal(Seq::filter);
    if values.len() > 0 {
        let front = values.drop_last();
        let last = values.len() - 1;
        if place <= last {
            assert(!pick(values[last]));
            lemma_picked_before(front, pick, place);
        } else {
            lemma_picked_before(front, pick, last);
        }
    }
}

/// Of numbers before some place of which none is picked, at most those from it on are picked.
proof fn lemma_picked_from(values: Seq<u64>, pick: spec_fn(u64) -> bool, place: int)
    requires
        0 <= place <= values.len(),
        forall|i: int| 0 <= i < place ==> !pick(#[trigger] values[i]),
    ensures
        values.filter(pick).len() <= values.len() - place,
    decreases values.len(),
{
    reveal(Seq::filter);
    if values.len() > 0 {
        let front = values.drop_last();
        let last = values.len() - 1;
        if place <= last {
            lemma_picked_from(front, pick, place);
        } else {
            assert(!pick(values[last]));
            lemma_picked_from(front, pick, last);
        }
    }
}

/// As many numbers are picked in any order.
proof fn lemma_picked_in_any_order(a: Seq<u64>, b: Seq<u64>, pick: spec_fn(u64) -> bool)
    requires
        a.to_multiset() == b.to_multiset(),
    ensures
        a.filter(pick).len() == b.filter(pick).len(),
    decreases a.len(),
{
    broadcast use vstd::multiset::group_multiset_axioms;
    broadcast use vstd::seq_lib::group_to_multiset_ensures;

    assert(a.len() == b.len()) by {
        a.to_multiset_ensures();
        b.to_multiset_ensures();
    }
    if a.len() == 0 {
        assert(a =~= b);
    } else {
        let last = a.last();
        assert(a.contains(last));
        assert(a.to_multiset().count(last) > 0);
        assert(b.contains(last));
        let i = choose|i: int| 0 <= i < b.len() && b[i] == last;
        assert(a.drop_last() =~= a.remove(a.len() - 1));
        assert(a.drop_last().to_multiset() =~= b.remove(i).to_multiset());
        lemma_picked_in_any_order(a.drop_last(), b.remove(i), pick);
        let (before, behind) = (b.take(i), b.skip(i + 1));
        assert(b =~= before + (seq![last] + behind));
        assert(b.remove(i) =~= before + behind);
        assert(a =~= a.drop_last() + seq![last]);
        Seq::filter_distributes_over_add(a.drop_last(), seq![last], pick);
        Seq::filter_distributes_over_add(before, seq![last] + behind, pick);
        Seq::filter_distributes_over_add(seq![last], behind, pick);
        Seq::filter_distributes_over_add(before, behind, pick);
    }
}

/// The number at a place of a sorted sample: it is one of the sample, at most as many are smaller
/// as stand before it, and at most as many are larger as stand behind it.
proof fn lemma_place_in_sample(
    sample: Seq<u64>,
    place: int,
    smaller: spec_fn(u64) -> bool,
    larger: spec_fn(u64) -> bool,
)
    requires
        0 <= place < sample.len(),
        forall|v: u64| #[trigger] smaller(v) == (v < sample.sort_by(at_most())[place]),
        forall|v: u64| #[trigger] larger(v) == (v > sample.sort_by(at_most())[place]),
    ensures
        sample.contains(sample.sort_by(at_most())[place]),
        sample.filter(smaller).len() <= place,
        sample.filter(larger).len() <= sample.len() - place - 1,
{
    let sorted = sample.sort_by(at_most());
    lemma_sorted_sample(sample);
    assert(sorted.contains(sorted[place]));
    sample.to_multiset_ensures();
    sorted.to_multiset_ensures();
    assert(sorted.to_multiset().count(sorted[place]) > 0);
    lemma_picked_in_any_order(sample, sorted, smaller);
    lemma_picked_in_any_order(sample, sorted, larger);
    assert forall|i: int| place <= i < sorted.len() implies !smaller(#[trigger] sorted[i]) by {
        assert(sorted[place] <= sorted[i]);
    }
    assert forall|i: int| 0 <= i < place + 1 implies !larger(#[trigger] sorted[i]) by {
        assert(sorted[i] <= sorted[place]);
    }
    lemma_picked_before(sorted, smaller, place);
    lemma_picked_from(sorted, larger, place + 1);
}

proof fn lemma_sorted_sample(sample: Seq<u64>)
    ensures
        ({
            let sorted = sample.sort_by(at_most());
            &&& sorted.to_multiset() == sample.to_multiset()
            &&& sorted.len() == sample.len()
            &&& forall|i: int, j: int|
                #![trigger sorted[i], sorted[j]]
                0 <= i <= j < sorted.len() ==> sorted[i] <= sorted[j]
        }),
{
    let sorted = sample.sort_by(at_most());
    assert(total_ordering(at_most()));
    sample.lemma_sort_by_ensures(at_most());
    sample.to_multiset_ensures();
    sorted.to_multiset_ensures();
    assert forall|i: int, j: int|
        #![trigger sorted[i], sorted[j]]
        0 <= i <= j < sorted.len() implies sorted[i] <= sorted[j] by {
        if i < j {
            assert(at_most()(sorted[i], sorted[j]));
        }
    }
}

/// The median is a number of the sample. At most half of the numbers, rounded down, are smaller,
/// and at most the others but one are larger.
pub proof fn law_median_stands_in_the_middle(
    sample: Seq<u64>,
    smaller: spec_fn(u64) -> bool,
    larger: spec_fn(u64) -> bool,
)
    requires
        sample.len() > 0,
        forall|v: u64| #[trigger] smaller(v) == (v < summary_of(sample).median),
        forall|v: u64| #[trigger] larger(v) == (v > summary_of(sample).median),
    ensures
        sample.contains(summary_of(sample).median),
        sample.filter(smaller).len() <= sample.len() / 2,
        sample.filter(larger).len() <= sample.len() - sample.len() / 2 - 1,
{
    lemma_sorted_sample(sample);
    lemma_place_in_sample(sample, (sample.len() / 2) as int, smaller, larger);
}

/// The 99th percentile is a number of the sample. Of a sample of up to 2^46 numbers, at most 99
/// hundredths, rounded down, are smaller, and at most the others but one are larger.
pub proof fn law_p99_stands_behind_99_of_100(
    sample: Seq<u64>,
    smaller: spec_fn(u64) -> bool,
    larger: spec_fn(u64) -> bool,
)
    requires
        0 < sample.len() <= 70368744177664,
        forall|v: u64| #[trigger] smaller(v) == (v < summary_of(sample).p99),
        forall|v: u64| #[trigger] larger(v) == (v > summary_of(sample).p99),
    ensures
        sample.contains(summary_of(sample).p99),
        sample.filter(smaller).len() <= 99 * sample.len() / 100,
        sample.filter(larger).len() <= sample.len() - 99 * sample.len() / 100 - 1,
{
    lemma_sorted_sample(sample);
    law_p99_rank_in_sample(sample.len());
    law_p99_rank_of_small_samples(sample.len());
    lemma_place_in_sample(sample, p99_rank(sample.len()) as int, smaller, larger);
}

/// Of a sample of any size, at most as many numbers are smaller than the 99th percentile as its
/// rank says, and at most the others but one are larger.
pub proof fn law_p99_stands_at_its_rank(
    sample: Seq<u64>,
    smaller: spec_fn(u64) -> bool,
    larger: spec_fn(u64) -> bool,
)
    requires
        sample.len() > 0,
        forall|v: u64| #[trigger] smaller(v) == (v < summary_of(sample).p99),
        forall|v: u64| #[trigger] larger(v) == (v > summary_of(sample).p99),
    ensures
        sample.contains(summary_of(sample).p99),
        sample.filter(smaller).len() <= p99_rank(sample.len()),
        sample.filter(larger).len() <= sample.len() - p99_rank(sample.len()) - 1,
{
    lemma_sorted_sample(sample);
    law_p99_rank_in_sample(sample.len());
    lemma_place_in_sample(sample, p99_rank(sample.len()) as int, smaller, larger);
}

/// The largest number is one of the sample, and none is larger.
pub proof fn law_max_is_the_largest(sample: Seq<u64>)
    requires
        sample.len() > 0,
    ensures
        sample.contains(summary_of(sample).max),
        forall|i: int| 0 <= i < sample.len() ==> #[trigger] sample[i] <= summary_of(sample).max,
{
    let sorted = sample.sort_by(at_most());
    lemma_sorted_sample(sample);
    sample.to_multiset_ensures();
    sorted.to_multiset_ensures();
    assert(sorted[sorted.len() - 1] == sorted.last());
    assert(sorted.contains(sorted.last()));
    assert(sorted.to_multiset().count(sorted.last()) > 0);
    assert forall|i: int| 0 <= i < sample.len() implies #[trigger] sample[i] <= summary_of(
        sample,
    ).max by {
        assert(sample.contains(sample[i]));
        assert(sample.to_multiset().count(sample[i]) > 0);
        assert(sorted.contains(sample[i]));
        let j = choose|j: int| 0 <= j < sorted.len() && sorted[j] == sample[i];
        assert(sorted[j] <= sorted[sorted.len() - 1]);
    }
}

/// The sum and the average of a sample, in whatever order it stands.
pub proof fn law_summary_of_any_order(sample: Seq<u64>, sums: Seq<int>)
    requires
        sample.len() > 0,
        sums.len() == sample.len() + 1,
        sums[0] == 0,
        forall|i: int| 0 <= i < sample.len() ==> sums[i + 1] == sums[i] + #[trigger] sample[i],
        sums.last() <= u64::MAX,
    ensures
        summary_of(sample).sum == sums.last(),
        summary_of(sample).average * sample.len() <= sums.last(),
        sums.last() < (summary_of(sample).average + 1) * sample.len(),
{
    let sorted = sample.sort_by(at_most());
    lemma_sorted_sample(sample);
    law_sum_adds_up(sample, sums);
    law_total_ignores_order(sample, sorted);
    law_average_shares_the_sum(sorted);
}

} // verus!
