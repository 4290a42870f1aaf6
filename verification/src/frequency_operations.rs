//! What counting slot prefixes returns, said of the arguments and results directly.

use crate::bytes::{Address, B256};
use crate::frequency::{
    bounded, count_sum, counted, frequency_rows, prefixes_in, storage_slot_freq, tallied,
    FrequencyReport, FrequencyRow, SlotFrequency,
};
use crate::frequency_laws::{
    law_counts_add_up, law_every_slot_counts_once, law_size_in_whole_mib,
    law_top_is_most_frequent, law_top_tells_counts,
};
use crate::iterators::AccountStorageItem;
use crate::preimage_laws::law_items_are_the_entries;
use crate::preimage_operations::lemma_accounts_among_entries;
use crate::preimages::{accounts_in, items_before_failure};
use crate::text::law_two_digits_for_each_byte;
use vstd::prelude::*;

verus! {

/// What one more slot does to some counts.
proof fn lemma_one_more(counts: Map<Seq<u8>, nat>, prefix: Seq<u8>, other: Seq<u8>)
    ensures
        ({
            let after = bounded(tallied(counts, prefix));
            let known = counts.contains_key(other) || other == prefix;
            let number = (if counts.contains_key(other) {
                counts[other] as int
            } else {
                0
            }) + (if other == prefix {
                1int
            } else {
                0
            });
            let crowded = counts.dom().insert(prefix).len() > 200_000_000;
            &&& after.contains_key(other) <==> known && (crowded ==> number > 1)
            &&& after.contains_key(other) ==> after[other] == number
        }),
{
    assert(tallied(counts, prefix).dom() =~= counts.dom().insert(prefix));
}

/// A slot that is counted counts once for its first bytes, and once for the number of slots. The
/// counts of other prefixes stay, but where more than 200 million prefixes are then counted those
/// that are counted once are dropped.
pub proof fn law_slot_is_recorded_once<const N: usize>(
    frequency: &mut SlotFrequency<N>,
    slot: &B256,
    other: Seq<u8>,
)
    requires
        old(frequency).wf(),
        old(frequency).slots() < i32::MAX,
        N <= 32,
        call_ensures(SlotFrequency::<N>::record, (frequency, slot), ()),
    ensures
        final(frequency).slots() == old(frequency).slots() + 1,
        ({
            let before = old(frequency).counts();
            let after = final(frequency).counts();
            let prefix = slot@.take(N as int);
            let known = before.contains_key(other) || other == prefix;
            let number = (if before.contains_key(other) {
                before[other] as int
            } else {
                0
            }) + (if other == prefix {
                1int
            } else {
                0
            });
            let crowded = before.dom().insert(prefix).len() > 200_000_000;
            &&& after.contains_key(other) <==> known && (crowded ==> number > 1)
            &&& after.contains_key(other) ==> after[other] == number
        }),
{
    lemma_one_more(old(frequency).counts(), slot@.take(N as int), other);
}

/// Of the entries of a listing only slots count, each once for its first bytes. An account is
/// handed back as progress, and a failure is handed on; both leave the counts as they are.
pub proof fn law_only_slots_count<const N: usize, E>(
    frequency: &mut SlotFrequency<N>,
    entry: Result<AccountStorageItem, E>,
    progress: Result<Option<Address>, E>,
    other: Seq<u8>,
)
    requires
        old(frequency).wf(),
        old(frequency).slots() < i32::MAX,
        N <= 32,
        call_ensures(SlotFrequency::<N>::count_entry::<E>, (frequency, entry), progress),
    ensures
        match entry {
            Ok(AccountStorageItem::Account(address)) => {
                &&& progress == Ok::<Option<Address>, E>(Some(address))
                &&& *final(frequency) == *old(frequency)
            },
            Ok(AccountStorageItem::StorageSlot(_, slot)) => {
                let before = old(frequency).counts();
                let after = final(frequency).counts();
                let prefix = slot@.take(N as int);
                let known = before.contains_key(other) || other == prefix;
                let number = (if before.contains_key(other) {
                    before[other] as int
                } else {
                    0
                }) + (if other == prefix {
                    1int
                } else {
                    0
                });
                let crowded = before.dom().insert(prefix).len() > 200_000_000;
                &&& progress == Ok::<Option<Address>, E>(None)
                &&& final(frequency).slots() == old(frequency).slots() + 1
                &&& after.contains_key(other) <==> known && (crowded ==> number > 1)
                &&& after.contains_key(other) ==> after[other] == number
            },
            Err(e) => progress == Err::<Option<Address>, E>(e) && *final(frequency) == *old(
                frequency,
            ),
        },
{
    if let Ok(AccountStorageItem::StorageSlot(_, slot)) = entry {
        lemma_one_more(old(frequency).counts(), slot@.take(N as int), other);
    }
}

/// The most frequent prefixes are at most as many as asked for, none twice, each with its count and
/// counted more than once, and they stand in descending order. A prefix that is counted more than
/// once and is not among them is counted at most as often as each of them, and there are as many of
/// them as asked for.
pub proof fn law_top_of_the_counts<const N: usize>(
    frequency: &SlotFrequency<N>,
    limit: usize,
    top: Vec<([u8; N], u32)>,
    other: Seq<u8>,
)
    requires
        frequency.wf(),
        call_ensures(SlotFrequency::<N>::top, (frequency, limit), top),
    ensures
        top@.len() <= limit,
        forall|i: int, j: int|
            #![trigger top@[i], top@[j]]
            0 <= i < j < top@.len() ==> top@[i].0@ != top@[j].0@ && top@[i].1 >= top@[j].1,
        forall|i: int|
            0 <= i < top@.len() ==> {
                &&& frequency.counts().contains_key((#[trigger] top@[i]).0@)
                &&& frequency.counts()[top@[i].0@] == top@[i].1
                &&& top@[i].1 > 1
            },
        frequency.counts().contains_key(other) && frequency.counts()[other] > 1 && (forall|i: int|
            0 <= i < top@.len() ==> (#[trigger] top@[i]).0@ != other) ==> {
            &&& top@.len() == limit
            &&& forall|i: int|
                0 <= i < top@.len() ==> (#[trigger] top@[i]).1 >= frequency.counts()[other]
        },
{
    let counts = frequency.counts();
    law_top_tells_counts(counts, limit as nat, top@);
    if counts.contains_key(other) && counts[other] > 1 && (forall|i: int|
        0 <= i < top@.len() ==> (#[trigger] top@[i]).0@ != other) {
        law_top_is_most_frequent(counts, limit as nat, top@, other);
    }
}

/// Counting a listing of which the first `count` entries did not fail, and the next one did or
/// there is none: the accounts among these entries are reported, in their order, and a failure is
/// handed out.
pub proof fn law_counting_passes_the_accounts<'a, const N: usize, E>(
    entries: &'a [Result<AccountStorageItem, E>],
    limit: usize,
    result: (Vec<Address>, Result<FrequencyReport<N>, &'a E>),
    count: int,
    is_account: spec_fn(Result<AccountStorageItem, E>) -> bool,
)
    requires
        prefixes_in(items_before_failure(entries@), N as int).len() <= i32::MAX,
        prefixes_in(items_before_failure(entries@), N as int).len() > 0 ==> N <= 32,
        call_ensures(storage_slot_freq::<N, E>, (entries, limit), result),
        0 <= count <= entries@.len(),
        forall|i: int| 0 <= i < count ==> #[trigger] entries@[i] is Ok,
        count < entries@.len() ==> entries@[count] is Err,
        forall|entry: Result<AccountStorageItem, E>| #[trigger]
            is_account(entry) == (entry matches Ok(AccountStorageItem::Account(_))),
    ensures
        result.0@.len() == entries@.take(count).filter(is_account).len(),
        forall|i: int|
            0 <= i < result.0@.len() ==> entries@.take(count).filter(is_account)[i] == Ok::<
                AccountStorageItem,
                E,
            >(AccountStorageItem::Account(#[trigger] result.0@[i])),
        count == entries@.len() ==> result.1 is Ok,
        count < entries@.len() ==> (result.1 matches Err(e) && entries@[count] == Err::<
            AccountStorageItem,
            E,
        >(*e)),
{
    let items = items_before_failure(entries@);
    let first = entries@.take(count);
    law_items_are_the_entries(entries@, count);
    lemma_accounts_among_entries(items, first, is_account);
    assert forall|i: int| 0 <= i < result.0@.len() implies first.filter(is_account)[i] == Ok::<
        AccountStorageItem,
        E,
    >(AccountStorageItem::Account(#[trigger] result.0@[i])) by {
        assert(result.0@[i] == accounts_in(items)[i]);
    }
}

/// Counting a listing without a failure: every slot counts for the number of slots. Where the slots
/// start in at most 200 million different ways (`kinds`), the count of a prefix among the most
/// frequent ones is the number of slots that start with it (`hits`), and it is more than one. A
/// prefix with which more than one slot starts is among them, or there are as many of them as asked
/// for and each is at least as frequent.
pub proof fn law_every_slot_is_counted<'a, const N: usize, E>(
    entries: &'a [Result<AccountStorageItem, E>],
    limit: usize,
    result: (Vec<Address>, Result<FrequencyReport<N>, &'a E>),
    report: FrequencyReport<N>,
    prefix: Seq<u8>,
    is_slot: spec_fn(Result<AccountStorageItem, E>) -> bool,
    hits: spec_fn(Result<AccountStorageItem, E>) -> bool,
    kinds: Set<Seq<u8>>,
)
    requires
        prefixes_in(items_before_failure(entries@), N as int).len() <= i32::MAX,
        N <= 32,
        call_ensures(storage_slot_freq::<N, E>, (entries, limit), result),
        result.1 == Ok::<FrequencyReport<N>, &'a E>(report),
        forall|i: int| 0 <= i < entries@.len() ==> #[trigger] entries@[i] is Ok,
        forall|entry: Result<AccountStorageItem, E>| #[trigger]
            is_slot(entry) == (entry matches Ok(AccountStorageItem::StorageSlot(_, _))),
        forall|entry: Result<AccountStorageItem, E>| #[trigger]
            hits(entry) == (entry matches Ok(AccountStorageItem::StorageSlot(_, slot))
                && slot@.take(N as int) == prefix),
        kinds.finite(),
        kinds.len() <= 200_000_000,
        forall|i: int|
            0 <= i < entries@.len() ==> (#[trigger] entries@[i] matches Ok(
                AccountStorageItem::StorageSlot(_, slot),
            ) ==> kinds.contains(slot@.take(N as int))),
    ensures
        report.total_storage_slots == entries@.filter(is_slot).len(),
        report.top@.len() <= limit,
        forall|i: int, j: int|
            #![trigger report.top@[i], report.top@[j]]
            0 <= i < j < report.top@.len() ==> report.top@[i].0@ != report.top@[j].0@
                && report.top@[i].1 >= report.top@[j].1,
        forall|i: int|
            0 <= i < report.top@.len() && (#[trigger] report.top@[i]).0@ == prefix ==> {
                &&& report.top@[i].1 == entries@.filter(hits).len()
                &&& report.top@[i].1 > 1
            },
        entries@.filter(hits).len() > 1 ==> {
            ||| exists|i: int|
                0 <= i < report.top@.len() && (#[trigger] report.top@[i]).0@ == prefix
            ||| {
                &&& report.top@.len() == limit
                &&& forall|i: int|
                    0 <= i < report.top@.len() ==> (#[trigger] report.top@[i]).1
                        >= entries@.filter(hits).len()
            }
        },
{
    let prefixes = prefixes_in(items_before_failure(entries@), N as int);
    let counts = counted(prefixes);
    law_items_are_the_entries(entries@, entries@.len() as int);
    law_every_slot_counts_once(entries@, N as int, prefix, is_slot, hits, kinds);
    law_top_tells_counts(counts, limit as nat, report.top@);
    assert forall|i: int|
        0 <= i < report.top@.len() && (#[trigger] report.top@[i]).0@ == prefix implies {
        &&& report.top@[i].1 == entries@.filter(hits).len()
        &&& report.top@[i].1 > 1
    } by {
        assert(counts.contains_key(prefix));
    }
    if entries@.filter(hits).len() > 1 && !(exists|i: int|
        0 <= i < report.top@.len() && (#[trigger] report.top@[i]).0@ == prefix) {
        law_top_is_most_frequent(counts, limit as nat, report.top@, prefix);
    }
}

/// A row for each of the most frequent prefixes, in their order: two hexadecimal digits for each
/// byte of the prefix, its count, the whole MiB (of 1048576 bytes) that its occurrences fill, and
/// those that they fill with the occurrences of the prefixes before it.
pub proof fn law_rows_describe_the_prefixes<const N: usize>(
    top: &[([u8; N], u32)],
    rows: Vec<FrequencyRow>,
    sums: Seq<int>,
    i: int,
    k: int,
)
    requires
        N <= u32::MAX,
        forall|i: int| 0 <= i < top@.len() ==> (#[trigger] top@[i]).1 * N <= u32::MAX,
        count_sum(top@) * N <= u64::MAX,
        count_sum(top@) <= u64::MAX,
        call_ensures(frequency_rows::<N>, (top,), rows),
        sums.len() == top@.len() + 1,
        sums[0] == 0,
        forall|i: int| 0 <= i < top@.len() ==> sums[i + 1] == sums[i] + (#[trigger] top@[i]).1,
        0 <= i < top@.len(),
    ensures
        rows@.len() == top@.len(),
        rows@[i].prefix@.len() == 2 * N,
        0 <= k < N ==> {
            &&& rows@[i].prefix@[2 * k] == "0123456789abcdef"@[top@[i].0[k] as int / 16]
            &&& rows@[i].prefix@[2 * k + 1] == "0123456789abcdef"@[top@[i].0[k] as int % 16]
        },
        rows@[i].count == top@[i].1,
        1048576 * rows@[i].mib <= top@[i].1 * N < 1048576 * (rows@[i].mib + 1),
        1048576 * rows@[i].cumulative_mib <= sums[i + 1] * N < 1048576 * (rows@[i].cumulative_mib
            + 1),
{
    if 0 <= k < N {
        law_two_digits_for_each_byte(top@[i].0@, k);
    }
    let first = top@.take(i + 1);
    let begun = sums.take(i + 2);
    assert forall|m: int| 0 <= m < first.len() implies begun[m + 1] == begun[m] + (
    #[trigger] first[m]).1 by {
        assert(first[m] == top@[m]);
    }
    law_counts_add_up(first, begun);
    law_size_in_whole_mib(top@[i].1 as nat, N as nat);
    law_size_in_whole_mib(count_sum(first), N as nat);
    assert(rows@[i].count == top@[i].1);
}

} // verus!
