//! What the operations behind the reports and commands return, said of their arguments and results
//! directly.

use crate::account_laws::{
    law_accounts_are_of_two_sorts, law_contracts_have_code, law_report_figures,
    law_slot_values_stand_account_by_account, law_stems_add_up_by_account, lemma_same_slot_values,
};
use crate::account_stats::{
    account_counts, account_stats, collect_code_lengths, collect_header_values,
    collect_slot_counts, collect_slot_values, is_contract, is_single, law_stems_add_up, reportable,
    single_slot_stems, stem_counts, stem_sum, AccountCounts, AccountReport, AccountStats,
    StemCounts,
};
use crate::commands::{generate_cmd, verify_cmd, Action, Order, OrderArgs};
use crate::rounding::{law_p99_rank_of_small_samples, nearest_double, rank_of_p99};
use crate::stats::{
    at_most, calculate_stats, law_numbers_stand_for_themselves, law_stats_ignore_order, summary_of,
    totally_ordered, Stats,
};
use crate::stats_laws::{
    law_max_is_the_largest, law_median_stands_in_the_middle, law_p99_stands_behind_99_of_100,
    law_sum_adds_up, law_summary_of_any_order,
};
use vstd::prelude::*;

verus! {

/// An account counts as a contract where its code is at least one byte long, and as the other sort
/// where it has none.
pub proof fn law_accounts_are_counted_by_code(
    accounts: &[AccountStats],
    counts: AccountCounts,
    has_code: spec_fn(AccountStats) -> bool,
    has_none: spec_fn(AccountStats) -> bool,
)
    requires
        call_ensures(account_counts, (accounts,), counts),
        forall|account: AccountStats| #[trigger] has_code(account) == (account.bytecode_len >= 1),
        forall|account: AccountStats| #[trigger] has_none(account) == (account.bytecode_len == 0),
    ensures
        counts.total == accounts@.len(),
        counts.contracts == accounts@.filter(has_code).len(),
        counts.eoas == accounts@.filter(has_none).len(),
        counts.eoas + counts.contracts == counts.total,
{
    law_contracts_have_code(accounts@, has_code);
    law_accounts_are_of_two_sorts(accounts@, has_code, has_none);
    assert(is_contract() =~= has_code);
}

/// The code lengths and slot counts that are collected are those of the accounts with code, one for
/// each, in their order.
pub proof fn law_contracts_are_collected(
    accounts: &[AccountStats],
    lengths: Vec<u64>,
    counts: Vec<u64>,
    has_code: spec_fn(AccountStats) -> bool,
)
    requires
        call_ensures(collect_code_lengths, (accounts,), lengths),
        call_ensures(collect_slot_counts, (accounts,), counts),
        forall|account: AccountStats| #[trigger] has_code(account) == (account.bytecode_len >= 1),
    ensures
        lengths@.len() == accounts@.filter(has_code).len(),
        counts@.len() == accounts@.filter(has_code).len(),
        forall|i: int|
            #![trigger accounts@.filter(has_code)[i]]
            0 <= i < accounts@.filter(has_code).len() ==> {
                &&& lengths@[i] == accounts@.filter(has_code)[i].bytecode_len
                &&& counts@[i] == accounts@.filter(has_code)[i].num_storage_slots
            },
{
    assert(is_contract() =~= has_code);
}

/// The values that are collected are those of all accounts: one for each header, and those of the
/// storage stems account by account.
pub proof fn law_values_are_collected(
    accounts: &[AccountStats],
    headers: Vec<u64>,
    values: Vec<u64>,
    starts: Seq<int>,
)
    requires
        call_ensures(collect_header_values, (accounts,), headers),
        call_ensures(collect_slot_values, (accounts,), values),
        starts.len() == accounts@.len() + 1,
        starts[0] == 0,
        forall|i: int|
            #![trigger accounts@[i]]
            0 <= i < accounts@.len() ==> starts[i + 1] == starts[i] + accounts@[i].ss_stems@.len(),
    ensures
        headers@.len() == accounts@.len(),
        values@.len() == starts.last(),
        forall|i: int|
            #![trigger accounts@[i]]
            0 <= i < accounts@.len() ==> {
                &&& headers@[i] == accounts@[i].account_stem
                &&& values@.subrange(starts[i], starts[i + 1]) == accounts@[i].ss_stems@
            },
{
    law_slot_values_stand_account_by_account(accounts@, starts);
}

/// The stems are counted once each: a header for each account, the storage stems, and the code
/// stems; and all of them together. Those that hold a single value are counted among the storage
/// stems.
pub proof fn law_stems_are_counted(
    accounts: &[AccountStats],
    counts: StemCounts,
    singles: usize,
    values: Seq<u64>,
    starts: Seq<int>,
    code_sums: Seq<int>,
    is_one: spec_fn(u64) -> bool,
)
    requires
        stem_sum(accounts@) <= u64::MAX,
        call_ensures(stem_counts, (accounts,), counts),
        call_ensures(single_slot_stems, (accounts,), singles),
        starts.len() == accounts@.len() + 1,
        starts[0] == 0,
        code_sums.len() == accounts@.len() + 1,
        code_sums[0] == 0,
        values.len() == starts.last(),
        forall|i: int|
            #![trigger accounts@[i]]
            0 <= i < accounts@.len() ==> {
                &&& starts[i + 1] == starts[i] + accounts@[i].ss_stems@.len()
                &&& values.subrange(starts[i], starts[i + 1]) == accounts@[i].ss_stems@
                &&& code_sums[i + 1] == code_sums[i] + accounts@[i].code_stems
            },
        forall|value: u64| #[trigger] is_one(value) == (value == 1),
    ensures
        counts.headers == accounts@.len(),
        counts.storage_slots == values.len(),
        counts.code_chunks == code_sums.last(),
        counts.total == accounts@.len() + values.len() + code_sums.last(),
        singles == values.filter(is_one).len(),
{
    lemma_same_slot_values(accounts@, values, starts);
    let all_sums = Seq::new(starts.len(), |i: int| i + starts[i] + code_sums[i]);
    law_stems_add_up_by_account(accounts@, code_sums, all_sums);
    law_stems_add_up(accounts@);
    assert(is_single() =~= is_one);
}

/// The whole report on some accounts, figure by figure: see `law_report_figures`.
pub proof fn law_account_report(
    accounts: &[AccountStats],
    report: AccountReport,
    has_code: spec_fn(AccountStats) -> bool,
    has_none: spec_fn(AccountStats) -> bool,
    is_one: spec_fn(u64) -> bool,
    lengths: Seq<u64>,
    slots: Seq<u64>,
    headers: Seq<u64>,
    values: Seq<u64>,
    starts: Seq<int>,
    code_sums: Seq<int>,
)
    requires
        reportable(accounts@),
        call_ensures(account_stats, (accounts,), report),
        accounts@.len() <= usize::MAX,
        values.len() <= usize::MAX,
        forall|account: AccountStats| #[trigger] has_code(account) == (account.bytecode_len >= 1),
        forall|account: AccountStats| #[trigger] has_none(account) == (account.bytecode_len == 0),
        forall|value: u64| #[trigger] is_one(value) == (value == 1),
        lengths.len() == accounts@.filter(has_code).len(),
        slots.len() == accounts@.filter(has_code).len(),
        forall|i: int|
            #![trigger accounts@.filter(has_code)[i]]
            0 <= i < accounts@.filter(has_code).len() ==> {
                &&& lengths[i] == accounts@.filter(has_code)[i].bytecode_len
                &&& slots[i] == accounts@.filter(has_code)[i].num_storage_slots
            },
        headers.len() == accounts@.len(),
        starts.len() == accounts@.len() + 1,
        starts[0] == 0,
        code_sums.len() == accounts@.len() + 1,
        code_sums[0] == 0,
        values.len() == starts.last(),
        forall|i: int|
            #![trigger accounts@[i]]
            0 <= i < accounts@.len() ==> {
                &&& headers[i] == accounts@[i].account_stem
                &&& starts[i + 1] == starts[i] + accounts@[i].ss_stems@.len()
                &&& values.subrange(starts[i], starts[i + 1]) == accounts@[i].ss_stems@
                &&& code_sums[i + 1] == code_sums[i] + accounts@[i].code_stems
            },
    ensures
        report.accounts.total == accounts@.len(),
        report.accounts.contracts == accounts@.filter(has_code).len(),
        report.accounts.eoas == accounts@.filter(has_none).len(),
        report.code_length == summary_of(lengths),
        report.contract_storage_slots == summary_of(slots),
        report.header_stems == summary_of(headers),
        report.storage_slot_stems == summary_of(values),
        report.stems.headers == accounts@.len(),
        report.stems.storage_slots == values.len(),
        report.stems.code_chunks == code_sums.last(),
        report.stems.total == accounts@.len() + values.len() + code_sums.last(),
        report.single_slot_stems == values.filter(is_one).len(),
{
    law_report_figures(
        accounts@,
        has_code,
        has_none,
        is_one,
        lengths,
        slots,
        headers,
        values,
        starts,
        code_sums,
    );
}

/// Summarising numbers sorts them, and tells their sum; the largest whole number that, taken once
/// for each, does not exceed it; the number that at most half of them are smaller than, and at most
/// the others but one larger; for up to 2^46 numbers the one that at most 99 hundredths are smaller
/// than, and at most the others but one larger; and the largest.
pub proof fn law_numbers_are_summarised(
    data: &mut [u64],
    stats: Stats,
    sums: Seq<int>,
    below_median: spec_fn(u64) -> bool,
    above_median: spec_fn(u64) -> bool,
    below_p99: spec_fn(u64) -> bool,
    above_p99: spec_fn(u64) -> bool,
)
    requires
        totally_ordered::<u64>(),
        old(data)@.len() > 0,
        sums.len() == old(data)@.len() + 1,
        sums[0] == 0,
        forall|i: int|
            0 <= i < old(data)@.len() ==> sums[i + 1] == sums[i] + #[trigger] old(data)@[i],
        sums.last() <= u64::MAX,
        call_ensures(calculate_stats::<u64>, (data,), stats),
        forall|v: u64| #[trigger] below_median(v) == (v < stats.median),
        forall|v: u64| #[trigger] above_median(v) == (v > stats.median),
        forall|v: u64| #[trigger] below_p99(v) == (v < stats.p99),
        forall|v: u64| #[trigger] above_p99(v) == (v > stats.p99),
    ensures
        final(data)@.to_multiset() == old(data)@.to_multiset(),
        forall|i: int, j: int|
            #![trigger final(data)@[i], final(data)@[j]]
            0 <= i < j < final(data)@.len() ==> final(data)@[i] <= final(data)@[j],
        stats.sum == sums.last(),
        stats.average * old(data)@.len() <= sums.last(),
        sums.last() < (stats.average + 1) * old(data)@.len(),
        old(data)@.contains(stats.median),
        old(data)@.filter(below_median).len() <= old(data)@.len() / 2,
        old(data)@.filter(above_median).len() <= old(data)@.len() - old(data)@.len() / 2 - 1,
        old(data)@.len() <= 70368744177664 ==> {
            let rank = 99 * old(data)@.len() / 100;
            &&& old(data)@.contains(stats.p99)
            &&& old(data)@.filter(below_p99).len() <= rank
            &&& old(data)@.filter(above_p99).len() <= old(data)@.len() - rank - 1
        },
        old(data)@.contains(stats.max),
        forall|i: int| 0 <= i < old(data)@.len() ==> #[trigger] old(data)@[i] <= stats.max,
{
    let sample = old(data)@;
    let sorted = final(data)@;
    law_numbers_stand_for_themselves(sample);
    law_numbers_stand_for_themselves(sorted);
    law_sum_adds_up(sample, sums);
    sample.lemma_sort_by_ensures(at_most());
    law_stats_ignore_order(sorted, sample.sort_by(at_most()));
    assert(stats == summary_of(sample));
    law_summary_of_any_order(sample, sums);
    law_median_stands_in_the_middle(sample, below_median, above_median);
    if sample.len() <= 70368744177664 {
        law_p99_stands_behind_99_of_100(sample, below_p99, above_p99);
    }
    law_max_is_the_largest(sample);
    assert forall|i: int, j: int|
        #![trigger sorted[i], sorted[j]]
        0 <= i < j < sorted.len() implies sorted[i] <= sorted[j] by {
        assert(at_most()(sorted[i], sorted[j]));
    }
}

/// The rank of the 99th percentile is 99 hundredths of the count, rounded down, for a count of up
/// to 2^46. For any count it is the product of the count and 0.99 in double precision, cut off.
pub proof fn law_rank_is_99_of_100(count: u64, rank: u64)
    requires
        call_ensures(rank_of_p99, (count,), rank),
    ensures
        count <= 70368744177664 ==> rank == 99 * count / 100,
        9007199254740992 * rank <= nearest_double(
            nearest_double(count as nat) * 8917127262193582,
        ) < 9007199254740992 * (rank + 1),
{
    if count <= 70368744177664 {
        law_p99_rank_of_small_samples(count as nat);
    }
}

/// Writing a file takes an order, else there is a complaint. The file is written once, as the last
/// step: in plain order, with a progress over plain addresses, where plain order was asked for, else
/// in the order of digests, with a progress over digests. Only in the latter case the addresses are
/// brought into that order, once and before. Every other step tells something.
pub proof fn law_generate_steps(order: OrderArgs, steps: Result<Vec<Action>, &'static str>)
    requires
        call_ensures(generate_cmd, (order,), steps),
    ensures
        steps is Ok <==> order.plain || order.eip7748,
        steps matches Err(message) ==> message@ == "No ordering specified"@,
        steps matches Ok(steps) ==> {
            &&& steps@.len() == (if order.plain {
                2int
            } else {
                4
            })
            &&& steps@.last() == (Action::Generate {
                order: if order.plain {
                    Order::Plain
                } else {
                    Order::Eip7748
                },
                hashed_progress: !order.plain,
            })
            &&& forall|i: int|
                0 <= i < steps@.len() - 1 ==> (#[trigger] steps@[i] is Announce || (i == 1
                    && !order.plain && steps@[i] is OrderByHash))
            &&& !order.plain ==> steps@[1] is OrderByHash
        },
{
}

/// Holding a file against the state takes an order, else there is a complaint. It is done once, in
/// the order and with the progress with which a file is written, and only behind it the file is
/// called valid, as the last step.
pub proof fn law_verify_steps(order: OrderArgs, steps: Result<Vec<Action>, &'static str>)
    requires
        call_ensures(verify_cmd, (order,), steps),
    ensures
        steps is Ok <==> order.plain || order.eip7748,
        steps matches Err(message) ==> message@ == "No ordering specified"@,
        steps matches Ok(steps) ==> {
            &&& steps@.len() == (if order.plain {
                3int
            } else {
                5
            })
            &&& steps@[steps@.len() - 2] == (Action::Verify {
                order: if order.plain {
                    Order::Plain
                } else {
                    Order::Eip7748
                },
                hashed_progress: !order.plain,
            })
            &&& steps@.last() == Action::Announce(
                if order.plain {
                    "[2/2] The preimage file is valid!"
                } else {
                    "[3/3] The preimage file is valid!"
                },
            )
            &&& forall|i: int|
                0 <= i < steps@.len() && i != steps@.len() - 2 ==> (#[trigger] steps@[i] is Announce
                    || (i == 1 && !order.plain && steps@[i] is OrderByHash))
            &&& !order.plain ==> steps@[1] is OrderByHash
        },
{
}

} // verus!
