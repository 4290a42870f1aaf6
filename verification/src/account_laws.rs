//! What holds of the report on accounts.

use crate::account_stats::{
    code_lengths, code_stem_sum, header_values, is_contract, is_single, law_stems_add_up, report_of,
    reportable, slot_counts, slot_values, stem_sum, AccountStats,
};
use crate::stats::{at_most, law_stats_ignore_order, law_total_ignores_order, summary_of, total};
use vstd::multiset::Multiset;
use vstd::prelude::*;
use vstd::relations::total_ordering;
use vstd::seq_lib::lemma_multiset_commutative;

verus! {

/// The figures of one account. In which order its stems of storage slots stand does not matter.
pub struct Figures {
    pub bytecode_len: u64,
    pub num_storage_slots: u64,
    pub account_stem: u64,
    pub ss_stems: Multiset<u64>,
    pub code_stems: u64,
}

/// The figures of an account.
pub open spec fn figures_of(account: AccountStats) -> Figures {
    Figures {
        bytecode_len: account.bytecode_len,
        num_storage_slots: account.num_storage_slots,
        account_stem: account.account_stem,
        ss_stems: account.ss_stems@.to_multiset(),
        code_stems: account.code_stems,
    }
}

/// The figures of some accounts, as often as they occur.
pub open spec fn all_figures(accounts: Seq<AccountStats>) -> Multiset<Figures> {
    accounts.map_values(|account: AccountStats| figures_of(account)).to_multiset()
}

/// The accounts have no code.
pub open spec fn without_code(accounts: Seq<AccountStats>) -> bool {
    forall|i: int| 0 <= i < accounts.len() ==> (#[trigger] accounts[i]).bytecode_len == 0
}

/// What the parts of the report are made of, of accounts one behind the other.
proof fn lemma_parts_join(a: Seq<AccountStats>, b: Seq<AccountStats>)
    ensures
        (a + b).filter(is_contract()) == a.filter(is_contract()) + b.filter(is_contract()),
        code_lengths(a + b) == code_lengths(a) + code_lengths(b),
        slot_counts(a + b) == slot_counts(a) + slot_counts(b),
        header_values(a + b) == header_values(a) + header_values(b),
        slot_values(a + b) == slot_values(a) + slot_values(b),
        code_stem_sum(a + b) == code_stem_sum(a) + code_stem_sum(b),
        stem_sum(a + b) == stem_sum(a) + stem_sum(b),
    decreases b.len(),
{
    Seq::filter_distributes_over_add(a, b, is_contract());
    assert(code_lengths(a + b) =~= code_lengths(a) + code_lengths(b));
    assert(slot_counts(a + b) =~= slot_counts(a) + slot_counts(b));
    assert(header_values(a + b) =~= header_values(a) + header_values(b));
    if b.len() == 0 {
        assert(a + b =~= a);
        assert(slot_values(a) + slot_values(b) =~= slot_values(a));
    } else {
        lemma_parts_join(a, b.drop_last());
        assert((a + b).drop_last() =~= a + b.drop_last());
        assert((a + b).last() == b.last());
        assert(slot_values(a + b) =~= slot_values(a) + slot_values(b));
    }
}

/// Accounts that have the same parts of the report, in whatever order.
spec fn same_parts(a: Seq<AccountStats>, b: Seq<AccountStats>) -> bool {
    &&& a.len() == b.len()
    &&& code_lengths(a).to_multiset() == code_lengths(b).to_multiset()
    &&& slot_counts(a).to_multiset() == slot_counts(b).to_multiset()
    &&& header_values(a).to_multiset() == header_values(b).to_multiset()
    &&& slot_values(a).to_multiset() == slot_values(b).to_multiset()
    &&& code_stem_sum(a) == code_stem_sum(b)
    &&& stem_sum(a) == stem_sum(b)
}

/// Parts that are the same stay so with the same account more.
proof fn lemma_same_parts_join(
    a: Seq<AccountStats>,
    b: Seq<AccountStats>,
    c: Seq<AccountStats>,
    d: Seq<AccountStats>,
)
    requires
        same_parts(a, b),
        same_parts(c, d),
    ensures
        same_parts(a + c, b + d),
{
    lemma_parts_join(a, c);
    lemma_parts_join(b, d);
    lemma_multiset_commutative(code_lengths(a), code_lengths(c));
    lemma_multiset_commutative(code_lengths(b), code_lengths(d));
    lemma_multiset_commutative(slot_counts(a), slot_counts(c));
    lemma_multiset_commutative(slot_counts(b), slot_counts(d));
    lemma_multiset_commutative(header_values(a), header_values(c));
    lemma_multiset_commutative(header_values(b), header_values(d));
    lemma_multiset_commutative(slot_values(a), slot_values(c));
    lemma_multiset_commutative(slot_values(b), slot_values(d));
}

/// The order of two groups of accounts does not matter.
proof fn lemma_same_parts_swap(a: Seq<AccountStats>, b: Seq<AccountStats>)
    ensures
        same_parts(a + b, b + a),
{
    lemma_parts_join(a, b);
    lemma_parts_join(b, a);
    lemma_values_swap(code_lengths(a), code_lengths(b));
    lemma_values_swap(slot_counts(a), slot_counts(b));
    lemma_values_swap(header_values(a), header_values(b));
    lemma_values_swap(slot_values(a), slot_values(b));
}

proof fn lemma_values_swap(a: Seq<u64>, b: Seq<u64>)
    ensures
        (a + b).to_multiset() == (b + a).to_multiset(),
{
    broadcast use vstd::multiset::group_multiset_axioms;

    lemma_multiset_commutative(a, b);
    lemma_multiset_commutative(b, a);
    assert((a + b).to_multiset() =~= (b + a).to_multiset());
}

/// Accounts with the same figures have the same parts.
proof fn lemma_same_figures(a: AccountStats, b: AccountStats)
    requires
        figures_of(a) == figures_of(b),
    ensures
        same_parts(seq![a], seq![b]),
{
    let (x, y) = (seq![a], seq![b]);
    a.ss_stems@.to_multiset_ensures();
    b.ss_stems@.to_multiset_ensures();
    assert(x.drop_last() =~= Seq::empty());
    assert(y.drop_last() =~= Seq::empty());
    reveal_with_fuel(slot_values, 2);
    reveal_with_fuel(code_stem_sum, 2);
    reveal_with_fuel(stem_sum, 2);
    assert(slot_values(x) =~= a.ss_stems@);
    assert(slot_values(y) =~= b.ss_stems@);
    assert(header_values(x) =~= header_values(y));
    reveal(Seq::filter);
    assert(x.drop_last().filter(is_contract()) =~= Seq::empty());
    assert(y.drop_last().filter(is_contract()) =~= Seq::empty());
    assert(code_lengths(x) =~= code_lengths(y));
    assert(slot_counts(x) =~= slot_counts(y));
}

/// Accounts with the same figures, as often and in whatever order, have the same parts.
proof fn lemma_permuted_parts(a: Seq<AccountStats>, b: Seq<AccountStats>)
    requires
        all_figures(a) == all_figures(b),
    ensures
        same_parts(a, b),
    decreases a.len(),
{
    broadcast use vstd::multiset::group_multiset_axioms;
    broadcast use vstd::seq_lib::group_to_multiset_ensures;

    let of_account = |account: AccountStats| figures_of(account);
    let x = a.map_values(of_account);
    let y = b.map_values(of_account);
    assert(x.len() == y.len()) by {
        x.to_multiset_ensures();
        y.to_multiset_ensures();
    }
    if a.len() == 0 {
        assert(a =~= b);
    } else {
        let last = x.last();
        assert(x.contains(last));
        assert(x.to_multiset().count(last) > 0);
        assert(y.contains(last));
        let i = choose|i: int| 0 <= i < y.len() && y[i] == last;
        let front = a.drop_last();
        let rest = b.remove(i);
        assert(x.remove(a.len() - 1) =~= front.map_values(of_account));
        assert(y.remove(i) =~= rest.map_values(of_account));
        assert(all_figures(front) =~= all_figures(rest));
        lemma_permuted_parts(front, rest);
        lemma_same_figures(a.last(), b[i]);
        lemma_same_parts_join(front, rest, seq![a.last()], seq![b[i]]);
        assert(a =~= front + seq![a.last()]);
        let (before, behind) = (b.take(i), b.skip(i + 1));
        assert(rest =~= before + behind);
        assert(b =~= before + (seq![b[i]] + behind));
        assert(rest + seq![b[i]] =~= before + (behind + seq![b[i]]));
        lemma_same_parts_swap(behind, seq![b[i]]);
        lemma_same_parts_join(before, before, behind + seq![b[i]], seq![b[i]] + behind);
    }
}

/// The summary depends on the values alone, not on their order.
proof fn lemma_summary_ignores_order(a: Seq<u64>, b: Seq<u64>)
    requires
        a.to_multiset() == b.to_multiset(),
    ensures
        summary_of(a) == summary_of(b),
        total(a) == total(b),
        a.len() == b.len(),
{
    assert(total_ordering(at_most()));
    a.lemma_sort_by_ensures(at_most());
    b.lemma_sort_by_ensures(at_most());
    law_stats_ignore_order(a.sort_by(at_most()), b.sort_by(at_most()));
    law_total_ignores_order(a, b);
    a.to_multiset_ensures();
    b.to_multiset_ensures();
}

/// How many values are 1 can be told from the values in any order.
proof fn lemma_singles(values: Seq<u64>)
    ensures
        values.filter(is_single()).len() == values.to_multiset().count(1),
    decreases values.len(),
{
    broadcast use vstd::multiset::group_multiset_axioms;

    reveal(Seq::filter);
    values.to_multiset_ensures();
    if values.len() == 0 {
        assert(!values.contains(1));
    } else {
        let front = values.drop_last();
        lemma_singles(front);
        front.to_multiset_ensures();
        assert(values =~= front.push(values.last()));
    }
}

/// The report depends on which figures occur and how often, not on the order of the accounts, nor
/// on that of the stems of each; and so does whether there is a report.
pub proof fn law_report_ignores_order(a: Seq<AccountStats>, b: Seq<AccountStats>)
    requires
        all_figures(a) == all_figures(b),
    ensures
        report_of(a) == report_of(b),
        reportable(a) == reportable(b),
{
    lemma_permuted_parts(a, b);
    lemma_summary_ignores_order(code_lengths(a), code_lengths(b));
    lemma_summary_ignores_order(slot_counts(a), slot_counts(b));
    lemma_summary_ignores_order(header_values(a), header_values(b));
    lemma_summary_ignores_order(slot_values(a), slot_values(b));
    lemma_singles(slot_values(a));
    lemma_singles(slot_values(b));
    assert(a.filter(is_contract()).len() == code_lengths(a).len());
    assert(b.filter(is_contract()).len() == code_lengths(b).len());
}

/// Accounts without code leave the summaries of code lengths and of slot counts as they are,
/// wherever they stand among the others, and whatever else is known of them.
pub proof fn law_accounts_without_code_do_not_count(
    accounts: Seq<AccountStats>,
    codeless: Seq<AccountStats>,
    all: Seq<AccountStats>,
)
    requires
        without_code(codeless),
        all_figures(all) == all_figures(accounts + codeless),
    ensures
        report_of(all).code_length == report_of(accounts).code_length,
        report_of(all).contract_storage_slots == report_of(accounts).contract_storage_slots,
        report_of(all).accounts.contracts == report_of(accounts).accounts.contracts,
{
    law_report_ignores_order(all, accounts + codeless);
    lemma_parts_join(accounts, codeless);
    lemma_no_contracts(codeless);
    assert(code_lengths(accounts) + code_lengths(codeless) =~= code_lengths(accounts));
    assert(slot_counts(accounts) + slot_counts(codeless) =~= slot_counts(accounts));
    assert(accounts.filter(is_contract()) + codeless.filter(is_contract()) =~= accounts.filter(
        is_contract(),
    ));
}

proof fn lemma_no_contracts(accounts: Seq<AccountStats>)
    requires
        without_code(accounts),
    ensures
        accounts.filter(is_contract()).len() == 0,
    decreases accounts.len(),
{
    reveal(Seq::filter);
    if accounts.len() > 0 {
        lemma_no_contracts(accounts.drop_last());
        assert(accounts[accounts.len() - 1].bytecode_len == 0);
    }
}

/// An account is a contract exactly where its code is at least one byte long. The code lengths and
/// the slot counts are those of the contracts, in the order of the accounts.
pub proof fn law_contracts_have_code(
    accounts: Seq<AccountStats>,
    has_code: spec_fn(AccountStats) -> bool,
)
    requires
        forall|account: AccountStats| #[trigger] has_code(account) == (account.bytecode_len >= 1),
    ensures
        ({
            let contracts = accounts.filter(has_code);
            &&& accounts.filter(is_contract()) == contracts
            &&& code_lengths(accounts).len() == contracts.len()
            &&& slot_counts(accounts).len() == contracts.len()
            &&& forall|i: int|
                #![trigger contracts[i]]
                0 <= i < contracts.len() ==> {
                    &&& code_lengths(accounts)[i] == contracts[i].bytecode_len
                    &&& slot_counts(accounts)[i] == contracts[i].num_storage_slots
                }
        }),
{
    assert(is_contract() =~= has_code);
}

/// Every account is either a contract or has no code.
pub proof fn law_accounts_are_of_two_sorts(
    accounts: Seq<AccountStats>,
    has_code: spec_fn(AccountStats) -> bool,
    has_none: spec_fn(AccountStats) -> bool,
)
    requires
        forall|account: AccountStats| #[trigger] has_code(account) == (account.bytecode_len >= 1),
        forall|account: AccountStats| #[trigger] has_none(account) == (account.bytecode_len == 0),
    ensures
        accounts.filter(has_code).len() + accounts.filter(has_none).len() == accounts.len(),
    decreases accounts.len(),
{
    reveal(Seq::filter);
    if accounts.len() > 0 {
        law_accounts_are_of_two_sorts(accounts.drop_last(), has_code, has_none);
        assert(has_code(accounts.last()) != has_none(accounts.last()));
    }
}

/// The header values are those of the accounts, one for each.
pub proof fn law_every_account_has_a_header(accounts: Seq<AccountStats>)
    ensures
        header_values(accounts).len() == accounts.len(),
        forall|i: int|
            #![trigger accounts[i]]
            0 <= i < accounts.len() ==> header_values(accounts)[i] == accounts[i].account_stem,
{
}

/// The values of the stems of storage slots are those of the accounts, one account behind the
/// other: each account's stand where it starts.
pub proof fn law_slot_values_stand_account_by_account(
    accounts: Seq<AccountStats>,
    starts: Seq<int>,
)
    requires
        starts.len() == accounts.len() + 1,
        starts[0] == 0,
        forall|i: int|
            #![trigger accounts[i]]
            0 <= i < accounts.len() ==> starts[i + 1] == starts[i] + accounts[i].ss_stems@.len(),
    ensures
        slot_values(accounts).len() == starts.last(),
        forall|i: int|
            #![trigger accounts[i]]
            0 <= i < accounts.len() ==> {
                &&& 0 <= starts[i]
                &&& starts[i] <= starts[i + 1]
                &&& starts[i + 1] <= starts.last()
                &&& slot_values(accounts).subrange(starts[i], starts[i + 1])
                    == accounts[i].ss_stems@
            },
    decreases accounts.len(),
{
    lemma_starts_ascend(accounts, starts);
    if accounts.len() > 0 {
        let front = accounts.drop_last();
        let before = starts.drop_last();
        let last = accounts.len() - 1;
        assert forall|i: int|
            #![trigger front[i]]
            0 <= i < front.len() implies before[i + 1] == before[i] + front[i].ss_stems@.len() by {
            assert(front[i] == accounts[i]);
        }
        law_slot_values_stand_account_by_account(front, before);
        assert(accounts[last] == accounts.last());
        let values = slot_values(accounts);
        assert forall|i: int|
            #![trigger accounts[i]]
            0 <= i < accounts.len() implies {
            &&& 0 <= starts[i]
            &&& starts[i] <= starts[i + 1]
            &&& starts[i + 1] <= starts.last()
            &&& values.subrange(starts[i], starts[i + 1]) == accounts[i].ss_stems@
        } by {
            if i < last {
                assert(front[i] == accounts[i]);
                assert(before[i] == starts[i] && before[i + 1] == starts[i + 1]);
                assert(values.subrange(starts[i], starts[i + 1]) =~= slot_values(front).subrange(
                    starts[i],
                    starts[i + 1],
                ));
            } else {
                assert(values.subrange(starts[i], starts[i + 1]) =~= accounts[i].ss_stems@);
            }
        }
    }
}

/// The stems add up account by account: those of the code, and all of them with one for the
/// header and one for each storage stem.
pub proof fn law_stems_add_up_by_account(
    accounts: Seq<AccountStats>,
    code_sums: Seq<int>,
    all_sums: Seq<int>,
)
    requires
        code_sums.len() == accounts.len() + 1,
        all_sums.len() == accounts.len() + 1,
        code_sums[0] == 0,
        all_sums[0] == 0,
        forall|i: int|
            #![trigger accounts[i]]
            0 <= i < accounts.len() ==> {
                &&& code_sums[i + 1] == code_sums[i] + accounts[i].code_stems
                &&& all_sums[i + 1] == all_sums[i] + 1 + accounts[i].ss_stems@.len()
                    + accounts[i].code_stems
            },
    ensures
        code_stem_sum(accounts) == code_sums.last(),
        stem_sum(accounts) == all_sums.last(),
    decreases accounts.len(),
{
    if accounts.len() > 0 {
        let front = accounts.drop_last();
        let (codes, alls) = (code_sums.drop_last(), all_sums.drop_last());
        assert forall|i: int| #![trigger front[i]] 0 <= i < front.len() implies {
            &&& codes[i + 1] == codes[i] + front[i].code_stems
            &&& alls[i + 1] == alls[i] + 1 + front[i].ss_stems@.len() + front[i].code_stems
        } by {
            assert(front[i] == accounts[i]);
        }
        law_stems_add_up_by_account(front, codes, alls);
        assert(accounts[accounts.len() - 1] == accounts.last());
    }
}

/// The report, figure by figure. Its numbers of accounts are those of all accounts, of those with
/// code (`has_code`) and of those without (`has_none`). Its summaries are those of the code
/// lengths (`lengths`) and slot counts (`slots`) of the accounts with code, of the header values
/// (`headers`) and of the values of the storage stems, one account behind the other (`values`).
/// Its stem counts are those of the accounts, of the storage stems and of the code stems, and
/// their sum. The single-slot stems are the storage stems whose value is 1 (`is_one`).
pub proof fn law_report_figures(
    accounts: Seq<AccountStats>,
    has_code: spec_fn(AccountStats) -> bool,
    has_none: spec_fn(AccountStats) -> bool,
    is_one: spec_fn(u64) -> bool,
    lengths: Seq<u64>,
    slots: Seq<u64>,
    headers: Seq<u64>,
    values: Seq<u64>,
    starts: Seq<int>,
    code_sums: Seq<int>,
)
    requires
        reportable(accounts),
        accounts.len() <= usize::MAX,
        values.len() <= usize::MAX,
        forall|account: AccountStats| #[trigger] has_code(account) == (account.bytecode_len >= 1),
        forall|account: AccountStats| #[trigger] has_none(account) == (account.bytecode_len == 0),
        forall|value: u64| #[trigger] is_one(value) == (value == 1),
        lengths.len() == accounts.filter(has_code).len(),
        slots.len() == accounts.filter(has_code).len(),
        forall|i: int|
            #![trigger accounts.filter(has_code)[i]]
            0 <= i < accounts.filter(has_code).len() ==> {
                &&& lengths[i] == accounts.filter(has_code)[i].bytecode_len
                &&& slots[i] == accounts.filter(has_code)[i].num_storage_slots
            },
        headers.len() == accounts.len(),
        starts.len() == accounts.len() + 1,
        starts[0] == 0,
        code_sums.len() == accounts.len() + 1,
        code_sums[0] == 0,
        values.len() == starts.last(),
        forall|i: int|
            #![trigger accounts[i]]
            0 <= i < accounts.len() ==> {
                &&& headers[i] == accounts[i].account_stem
                &&& starts[i + 1] == starts[i] + accounts[i].ss_stems@.len()
                &&& values.subrange(starts[i], starts[i + 1]) == accounts[i].ss_stems@
                &&& code_sums[i + 1] == code_sums[i] + accounts[i].code_stems
            },
    ensures
        ({
            let report = report_of(accounts);
            &&& report.accounts.total == accounts.len()
            &&& report.accounts.contracts == accounts.filter(has_code).len()
            &&& report.accounts.eoas == accounts.filter(has_none).len()
            &&& report.code_length == summary_of(lengths)
            &&& report.contract_storage_slots == summary_of(slots)
            &&& report.header_stems == summary_of(headers)
            &&& report.storage_slot_stems == summary_of(values)
            &&& report.stems.headers == accounts.len()
            &&& report.stems.storage_slots == values.len()
            &&& report.stems.code_chunks == code_sums.last()
            &&& report.stems.total == accounts.len() + values.len() + code_sums.last()
            &&& report.single_slot_stems == values.filter(is_one).len()
        }),
{
    law_contracts_have_code(accounts, has_code);
    law_accounts_are_of_two_sorts(accounts, has_code, has_none);
    assert forall|i: int| 0 <= i < lengths.len() implies lengths[i] == code_lengths(accounts)[i]
        && slots[i] == slot_counts(accounts)[i] by {
        assert(accounts.filter(has_code)[i].bytecode_len == lengths[i]);
    }
    assert(lengths =~= code_lengths(accounts));
    assert(slots =~= slot_counts(accounts));
    assert forall|i: int| 0 <= i < headers.len() implies headers[i] == header_values(
        accounts,
    )[i] by {
        assert(accounts[i].account_stem == headers[i]);
    }
    assert(headers =~= header_values(accounts));
    lemma_same_slot_values(accounts, values, starts);
    let all_sums = Seq::new(starts.len(), |i: int| i + starts[i] + code_sums[i]);
    law_stems_add_up_by_account(accounts, code_sums, all_sums);
    law_stems_add_up(accounts);
    assert(is_single() =~= is_one);
    values.lemma_filter_len(is_one);
    accounts.lemma_filter_len(has_code);
}

/// Values that stand account by account are the values of the storage stems.
pub proof fn lemma_same_slot_values(
    accounts: Seq<AccountStats>,
    values: Seq<u64>,
    starts: Seq<int>,
)
    requires
        starts.len() == accounts.len() + 1,
        starts[0] == 0,
        values.len() == starts.last(),
        forall|i: int|
            #![trigger accounts[i]]
            0 <= i < accounts.len() ==> {
                &&& starts[i + 1] == starts[i] + accounts[i].ss_stems@.len()
                &&& values.subrange(starts[i], starts[i + 1]) == accounts[i].ss_stems@
            },
    ensures
        values == slot_values(accounts),
    decreases accounts.len(),
{
    if accounts.len() == 0 {
        assert(values =~= slot_values(accounts));
    } else {
        let front = accounts.drop_last();
        let before = starts.drop_last();
        let last = accounts.len() - 1;
        lemma_starts_ascend(accounts, starts);
        let written = values.take(before.last());
        assert(accounts[last] == accounts.last());
        assert forall|i: int| #![trigger front[i]] 0 <= i < front.len() implies {
            &&& before[i + 1] == before[i] + front[i].ss_stems@.len()
            &&& written.subrange(before[i], before[i + 1]) == front[i].ss_stems@
        } by {
            assert(front[i] == accounts[i]);
            assert(starts[i] <= starts[i + 1] <= starts[last]);
            assert(written.subrange(starts[i], starts[i + 1]) =~= values.subrange(
                starts[i],
                starts[i + 1],
            ));
        }
        lemma_same_slot_values(front, written, before);
        assert(values =~= written + values.subrange(starts[last], starts[last + 1]));
    }
}

proof fn lemma_starts_ascend(accounts: Seq<AccountStats>, starts: Seq<int>)
    requires
        starts.len() == accounts.len() + 1,
        starts[0] == 0,
        forall|i: int|
            #![trigger accounts[i]]
            0 <= i < accounts.len() ==> starts[i + 1] == starts[i] + accounts[i].ss_stems@.len(),
    ensures
        forall|i: int, j: int|
            #![trigger starts[i], starts[j]]
            0 <= i <= j < starts.len() ==> 0 <= starts[i] <= starts[j],
    decreases accounts.len(),
{
    if accounts.len() > 0 {
        let front = accounts.drop_last();
        let before = starts.drop_last();
        assert forall|i: int|
            #![trigger front[i]]
            0 <= i < front.len() implies before[i + 1] == before[i] + front[i].ss_stems@.len() by {
            assert(front[i] == accounts[i]);
        }
        lemma_starts_ascend(front, before);
        let last = accounts.len() - 1;
        assert(accounts[last].ss_stems@.len() >= 0);
        assert forall|i: int, j: int|
            #![trigger starts[i], starts[j]]
            0 <= i <= j < starts.len() implies 0 <= starts[i] <= starts[j] by {
            assert(before[last] == starts[last]);
            if i <= last {
                assert(before[i] == starts[i]);
                assert(before[i] <= before[last]);
            }
            if j <= last {
                assert(before[j] == starts[j]);
            }
        }
    }
}

} // verus!
