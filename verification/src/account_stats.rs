//! A report on accounts: how many there are, how long their code is, and how many tree stems
//! their headers, storage slots and code take up.

use crate::stats::{summarise, summary_of, total, Stats};
use vstd::prelude::*;

verus! {

/// What is known of one account.
pub struct AccountStats {
    /// The length of the code: 0 where there is none.
    pub bytecode_len: u64,
    /// How many storage slots the account holds.
    pub num_storage_slots: u64,
    /// How many values the stem of the account's header holds.
    pub account_stem: u64,
    /// How many values each stem of the account's storage slots holds.
    pub ss_stems: Vec<u64>,
    /// How many stems the code takes up.
    pub code_stems: u64,
}

/// The account has code.
pub open spec fn is_contract() -> spec_fn(AccountStats) -> bool {
    |account: AccountStats| account.bytecode_len > 0
}

/// The code lengths of the accounts with code.
pub open spec fn code_lengths(accounts: Seq<AccountStats>) -> Seq<u64> {
    accounts.filter(is_contract()).map_values(|account: AccountStats| account.bytecode_len)
}

/// The slot counts of the accounts with code.
pub open spec fn slot_counts(accounts: Seq<AccountStats>) -> Seq<u64> {
    accounts.filter(is_contract()).map_values(|account: AccountStats| account.num_storage_slots)
}

/// The values of the header stems.
pub open spec fn header_values(accounts: Seq<AccountStats>) -> Seq<u64> {
    accounts.map_values(|account: AccountStats| account.account_stem)
}

/// The values of the stems of the storage slots, account by account.
pub open spec fn slot_values(accounts: Seq<AccountStats>) -> Seq<u64>
    decreases accounts.len(),
{
    if accounts.len() == 0 {
        Seq::empty()
    } else {
        slot_values(accounts.drop_last()) + accounts.last().ss_stems@
    }
}

/// How many stems the code of the accounts takes up.
pub open spec fn code_stem_sum(accounts: Seq<AccountStats>) -> nat
    decreases accounts.len(),
{
    if accounts.len() == 0 {
        0
    } else {
        code_stem_sum(accounts.drop_last()) + accounts.last().code_stems as nat
    }
}

/// How many stems the accounts take up: one for each header, those of the slots, those of the code.
pub open spec fn stem_sum(accounts: Seq<AccountStats>) -> nat
    decreases accounts.len(),
{
    if accounts.len() == 0 {
        0
    } else {
        stem_sum(accounts.drop_last()) + 1 + accounts.last().ss_stems@.len()
            + accounts.last().code_stems as nat
    }
}

/// The values that are 1.
pub open spec fn is_single() -> spec_fn(u64) -> bool {
    |value: u64| value == 1
}

/// How many accounts there are with and without code.
#[derive(Clone, Copy, Debug, PartialEq, Eq)]
pub struct AccountCounts {
    pub eoas: usize,
    pub contracts: usize,
    pub total: usize,
}

/// Counts the accounts with and without code.
pub fn account_counts(accounts: &[AccountStats]) -> (counts: AccountCounts)
    ensures
        counts.total == accounts@.len(),
        counts.contracts == accounts@.filter(is_contract()).len(),
        counts.eoas == accounts@.len() - accounts@.filter(is_contract()).len(),
{
    let mut eoas: usize = 0;
    let mut i: usize = 0;
    proof {
        reveal(Seq::filter);
        assert(accounts@.take(0) =~= Seq::empty());
    }
    while i < accounts.len()
        invariant
            i <= accounts@.len(),
            eoas <= i,
            eoas == i - accounts@.take(i as int).filter(is_contract()).len(),
        decreases accounts@.len() - i,
    {
        proof {
            reveal(Seq::filter);
            assert(accounts@.take(i + 1).drop_last() =~= accounts@.take(i as int));
            accounts@.take(i + 1).lemma_filter_len(is_contract());
        }
        if accounts[i].bytecode_len == 0 {
            eoas += 1;
        }
        i += 1;
    }
    assert(accounts@.take(i as int) =~= accounts@);
    AccountCounts { eoas, contracts: accounts.len() - eoas, total: accounts.len() }
}

/// Collects the code lengths of the accounts with code.
pub fn collect_code_lengths(accounts: &[AccountStats]) -> (lengths: Vec<u64>)
    ensures
        lengths@ == code_lengths(accounts@),
{
    let mut lengths: Vec<u64> = Vec::new();
    let mut i: usize = 0;
    proof {
        reveal(Seq::filter);
        assert(accounts@.take(0) =~= Seq::empty());
        assert(lengths@ =~= code_lengths(accounts@.take(0)));
    }
    while i < accounts.len()
        invariant
            i <= accounts@.len(),
            lengths@ == code_lengths(accounts@.take(i as int)),
        decreases accounts@.len() - i,
    {
        let account = &accounts[i];
        if account.bytecode_len > 0 {
            lengths.push(account.bytecode_len);
        }
        i += 1;
        proof {
            reveal(Seq::filter);
            assert(accounts@.take(i as int).drop_last() =~= accounts@.take(i - 1));
            assert(lengths@ =~= code_lengths(accounts@.take(i as int)));
        }
    }
    assert(accounts@.take(i as int) =~= accounts@);
    lengths
}

/// Collects the slot counts of the accounts with code.
pub fn collect_slot_counts(accounts: &[AccountStats]) -> (counts: Vec<u64>)
    ensures
        counts@ == slot_counts(accounts@),
{
    let mut counts: Vec<u64> = Vec::new();
    let mut i: usize = 0;
    proof {
        reveal(Seq::filter);
        assert(accounts@.take(0) =~= Seq::empty());
        assert(counts@ =~= slot_counts(accounts@.take(0)));
    }
    while i < accounts.len()
        invariant
            i <= accounts@.len(),
            counts@ == slot_counts(accounts@.take(i as int)),
        decreases accounts@.len() - i,
    {
        let account = &accounts[i];
        if account.bytecode_len > 0 {
            counts.push(account.num_storage_slots);
        }
        i += 1;
        proof {
            reveal(Seq::filter);
            assert(accounts@.take(i as int).drop_last() =~= accounts@.take(i - 1));
            assert(counts@ =~= slot_counts(accounts@.take(i as int)));
        }
    }
    assert(accounts@.take(i as int) =~= accounts@);
    counts
}

/// Collects the values of the header stems.
pub fn collect_header_values(accounts: &[AccountStats]) -> (values: Vec<u64>)
    ensures
        values@ == header_values(accounts@),
{
    let mut values: Vec<u64> = Vec::new();
    let mut i: usize = 0;
    while i < accounts.len()
        invariant
            i <= accounts@.len(),
            values@ == header_values(accounts@).take(i as int),
        decreases accounts@.len() - i,
    {
        values.push(accounts[i].account_stem);
        i += 1;
        assert(values@ =~= header_values(accounts@).take(i as int));
    }
    assert(values@ =~= header_values(accounts@));
    values
}

/// Collects the values of the stems of the storage slots.
pub fn collect_slot_values(accounts: &[AccountStats]) -> (values: Vec<u64>)
    ensures
        values@ == slot_values(accounts@),
{
    let mut values: Vec<u64> = Vec::new();
    let mut i: usize = 0;
    assert(accounts@.take(0) =~= Seq::empty());
    while i < accounts.len()
        invariant
            i <= accounts@.len(),
            values@ == slot_values(accounts@.take(i as int)),
        decreases accounts@.len() - i,
    {
        let ghost before = values@;
        let stems = &accounts[i].ss_stems;
        let mut k: usize = 0;
        while k < stems.len()
            invariant
                k <= stems@.len(),
                values@ == before + stems@.take(k as int),
            decreases stems@.len() - k,
        {
            values.push(stems[k]);
            k += 1;
            assert(values@ =~= before + stems@.take(k as int));
        }
        i += 1;
        proof {
            assert(stems@.take(k as int) =~= stems@);
            assert(accounts@.take(i as int).drop_last() =~= accounts@.take(i - 1));
        }
    }
    assert(accounts@.take(i as int) =~= accounts@);
    values
}

/// How many stems there are of each sort.
#[derive(Clone, Copy, Debug, PartialEq, Eq)]
pub struct StemCounts {
    /// The stems of the account headers.
    pub headers: u64,
    /// The stems of the storage slots.
    pub storage_slots: u64,
    /// The stems of the code chunks.
    pub code_chunks: u64,
    /// All stems.
    pub total: u64,
}

/// Counts the stems of each sort.
pub fn stem_counts(accounts: &[AccountStats]) -> (counts: StemCounts)
    requires
        stem_sum(accounts@) <= u64::MAX,
    ensures
        counts.headers == accounts@.len(),
        counts.storage_slots == slot_values(accounts@).len(),
        counts.code_chunks == code_stem_sum(accounts@),
        counts.total == stem_sum(accounts@),
{
    let mut storage_slots: u64 = 0;
    let mut code_chunks: u64 = 0;
    let mut total: u64 = 0;
    let mut i: usize = 0;
    assert(accounts@.take(0) =~= Seq::empty());
    while i < accounts.len()
        invariant
            i <= accounts@.len(),
            stem_sum(accounts@) <= u64::MAX,
            storage_slots == slot_values(accounts@.take(i as int)).len(),
            code_chunks == code_stem_sum(accounts@.take(i as int)),
            total == stem_sum(accounts@.take(i as int)),
        decreases accounts@.len() - i,
    {
        proof {
            lemma_stem_sum_take(accounts@, i + 1);
            law_stems_add_up(accounts@.take(i + 1));
            assert(accounts@.take(i + 1).drop_last() =~= accounts@.take(i as int));
        }
        let account = &accounts[i];
        storage_slots += account.ss_stems.len() as u64;
        code_chunks += account.code_stems;
        total += 1 + account.ss_stems.len() as u64 + account.code_stems;
        i += 1;
    }
    assert(accounts@.take(i as int) =~= accounts@);
    StemCounts { headers: accounts.len() as u64, storage_slots, code_chunks, total }
}

proof fn lemma_stem_sum_take(accounts: Seq<AccountStats>, count: int)
    requires
        0 <= count <= accounts.len(),
    ensures
        stem_sum(accounts.take(count)) <= stem_sum(accounts),
    decreases accounts.len() - count,
{
    if count < accounts.len() {
        lemma_stem_sum_take(accounts, count + 1);
        assert(accounts.take(count + 1).drop_last() =~= accounts.take(count));
    } else {
        assert(accounts.take(count) =~= accounts);
    }
}

/// Every stem belongs to a header, a storage slot or a piece of code.
pub proof fn law_stems_add_up(accounts: Seq<AccountStats>)
    ensures
        stem_sum(accounts) == accounts.len() + slot_values(accounts).len() + code_stem_sum(
            accounts,
        ),
    decreases accounts.len(),
{
    if accounts.len() > 0 {
        law_stems_add_up(accounts.drop_last());
    }
}

/// Counts the stems of storage slots that hold a single value.
pub fn single_slot_stems(accounts: &[AccountStats]) -> (count: usize)
    ensures
        count == slot_values(accounts@).filter(is_single()).len(),
{
    let values = collect_slot_values(accounts);
    let mut count: usize = 0;
    let mut i: usize = 0;
    proof {
        reveal(Seq::filter);
        assert(values@.take(0) =~= Seq::empty());
    }
    while i < values.len()
        invariant
            i <= values@.len(),
            count <= i,
            count == values@.take(i as int).filter(is_single()).len(),
        decreases values@.len() - i,
    {
        proof {
            reveal(Seq::filter);
            assert(values@.take(i + 1).drop_last() =~= values@.take(i as int));
        }
        if values[i] == 1 {
            count += 1;
        }
        i += 1;
    }
    assert(values@.take(i as int) =~= values@);
    count
}

/// The whole report.
#[derive(Clone, Copy, Debug, PartialEq, Eq)]
pub struct AccountReport {
    pub accounts: AccountCounts,
    pub code_length: Stats,
    pub contract_storage_slots: Stats,
    pub stems: StemCounts,
    pub header_stems: Stats,
    pub storage_slot_stems: Stats,
    pub single_slot_stems: usize,
}

/// There is something to summarise in every part, which takes an account with code and an account
/// with a stem of storage slots, and every sum fits.
pub open spec fn reportable(accounts: Seq<AccountStats>) -> bool {
    &&& code_lengths(accounts).len() > 0
    &&& slot_values(accounts).len() > 0
    &&& total(code_lengths(accounts)) <= u64::MAX
    &&& total(slot_counts(accounts)) <= u64::MAX
    &&& stem_sum(accounts) <= u64::MAX
    &&& total(header_values(accounts)) <= u64::MAX
    &&& total(slot_values(accounts)) <= u64::MAX
}

/// The report on some accounts.
pub open spec fn report_of(accounts: Seq<AccountStats>) -> AccountReport {
    let contracts = accounts.filter(is_contract()).len();
    AccountReport {
        accounts: AccountCounts {
            eoas: (accounts.len() - contracts) as usize,
            contracts: contracts as usize,
            total: accounts.len() as usize,
        },
        code_length: summary_of(code_lengths(accounts)),
        contract_storage_slots: summary_of(slot_counts(accounts)),
        stems: StemCounts {
            headers: accounts.len() as u64,
            storage_slots: slot_values(accounts).len() as u64,
            code_chunks: code_stem_sum(accounts) as u64,
            total: stem_sum(accounts) as u64,
        },
        header_stems: summary_of(header_values(accounts)),
        storage_slot_stems: summary_of(slot_values(accounts)),
        single_slot_stems: slot_values(accounts).filter(is_single()).len() as usize,
    }
}

/// Puts the report together.
pub fn account_stats(accounts: &[AccountStats]) -> (report: AccountReport)
    requires
        reportable(accounts@),
    ensures
        report == report_of(accounts@),
        report.accounts.total == accounts@.len(),
        report.accounts.contracts == accounts@.filter(is_contract()).len(),
        report.accounts.eoas == accounts@.len() - accounts@.filter(is_contract()).len(),
        report.code_length == summary_of(code_lengths(accounts@)),
        report.contract_storage_slots == summary_of(slot_counts(accounts@)),
        report.stems.headers == accounts@.len(),
        report.stems.storage_slots == slot_values(accounts@).len(),
        report.stems.code_chunks == code_stem_sum(accounts@),
        report.stems.total == stem_sum(accounts@),
        report.header_stems == summary_of(header_values(accounts@)),
        report.storage_slot_stems == summary_of(slot_values(accounts@)),
        report.single_slot_stems == slot_values(accounts@).filter(is_single()).len(),
{
    let mut lengths = collect_code_lengths(accounts);
    let mut counts = collect_slot_counts(accounts);
    let mut headers = collect_header_values(accounts);
    let mut slots = collect_slot_values(accounts);
    proof {
        accounts@.lemma_filter_len(is_contract());
        law_stems_add_up(accounts@);
    }
    AccountReport {
        accounts: account_counts(accounts),
        code_length: summarise(&mut lengths),
        contract_storage_slots: summarise(&mut counts),
        stems: stem_counts(accounts),
        header_stems: summarise(&mut headers),
        storage_slot_stems: summarise(&mut slots),
        single_slot_stems: single_slot_stems(accounts),
    }
}

} // verus!
