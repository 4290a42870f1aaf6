//! What the calls of the listings and of the scan return, said of their arguments and results
//! directly, and how they make up whole runs.

use crate::bytes::{bytes_le, bytes_lt, Address, B256};
use crate::hashing::keccak;
use crate::iterators::eip7748::Eip7748Iterator;
use crate::iterators::eip7748_scan::{Eip7748Scan, ScanPending, ScanStep};
use crate::iterators::eip7748_scan_laws::ScanRun;
use crate::iterators::failing::{Lookups, Rows};
use crate::iterators::listing::{Hashed, History};
use crate::iterators::plain::{Answer, Peeked, Pending, PlainIterator, State, Step};
use crate::iterators::plain_order::{later_rows, next_row, Run};
use crate::iterators::scan_run_laws::law_eip7748_items;
use crate::iterators::AccountStorageItem;
use vstd::prelude::*;

verus! {

/// A new listing, once it is asked for the first item, asks for the first account row: it is at the
/// start of a run.
pub proof fn law_new_listing_starts_a_run<E>(
    created: PlainIterator<E>,
    listing: &mut PlainIterator<E>,
    step: Step<E>,
    rows: Rows<E>,
)
    requires
        call_ensures(PlainIterator::<E>::new, (), created),
        *old(listing) == created,
        call_ensures(PlainIterator::<E>::next, (listing,), step),
    ensures
        created.last_account_addr is None,
        created.last_storage_slot is None,
        created.peeked is Empty,
        step is NextAccountRow,
        Run::start(rows) == (Run { iterator: *final(listing), step, unread: rows }),
{
}

/// Asking for the next item drives a run on where the last step handed something out or the end was
/// reached.
pub proof fn law_next_drives_a_run<E>(
    listing: &mut PlainIterator<E>,
    step: Step<E>,
    run: Run<E>,
    lookups: Lookups<E>,
)
    requires
        run.iterator == *old(listing),
        run.step is Item || run.step is Failed || run.step is Done,
        call_ensures(PlainIterator::<E>::next, (listing,), step),
    ensures
        run.driven(lookups) == (Run { iterator: *final(listing), step, unread: run.unread }),
{
}

/// Handing back what was asked for drives a run on: the next row, which is then read, or what the
/// lookup of the key that was asked for gives.
pub proof fn law_answer_drives_a_run<E>(
    listing: &mut PlainIterator<E>,
    answer: Answer<E>,
    step: Step<E>,
    run: Run<E>,
    lookups: Lookups<E>,
)
    requires
        run.iterator == *old(listing),
        match run.step {
            Step::NextAccountRow => answer == Answer::AccountRow(next_row(run.unread.accounts)),
            Step::SeekAccount(hash) => answer == Answer::Account((lookups.account)(hash)),
            Step::NextStorageRow => answer == Answer::StorageRow(next_row(run.unread.storages)),
            Step::SeekSlot(account, slot) => answer == Answer::Slot((lookups.slot)(account, slot)),
            _ => false,
        },
        call_ensures(PlainIterator::<E>::answer, (listing, answer), step),
    ensures
        run.driven(lookups) == (Run {
            iterator: *final(listing),
            step,
            unread: Rows {
                accounts: if run.step is NextAccountRow {
                    later_rows(run.unread.accounts)
                } else {
                    run.unread.accounts
                },
                storages: if run.step is NextStorageRow {
                    later_rows(run.unread.storages)
                } else {
                    run.unread.storages
                },
            },
        }),
{
}

/// Where an answer is still due, asking for the next item changes nothing and repeats the request.
pub proof fn law_next_repeats_what_is_due<E>(listing: &mut PlainIterator<E>, step: Step<E>)
    requires
        call_ensures(PlainIterator::<E>::next, (listing,), step),
        !(old(listing).pending is Nothing),
    ensures
        *final(listing) == *old(listing),
        match old(listing).pending {
            Pending::Account(address) => step == Step::<E>::SeekAccount(keccak(address@)),
            Pending::Slot(address, slot) => step == Step::<E>::SeekSlot(
                keccak(address@),
                keccak(slot@),
            ),
            Pending::AccountRow => step is NextAccountRow,
            _ => step is NextStorageRow,
        },
{
}

/// An account is handed out exactly as the answer to a lookup of its digest that finds it, and a
/// slot exactly as the answer to a lookup that finds just its digest. An error is handed out only
/// as it came: with the answer, or with a storage row that was read ahead.
pub proof fn law_answers_decide_the_items<E>(
    listing: &mut PlainIterator<E>,
    answer: Answer<E>,
    step: Step<E>,
)
    requires
        call_ensures(PlainIterator::<E>::answer, (listing, answer), step),
    ensures
        step matches Step::Item(AccountStorageItem::Account(address)) ==> {
            &&& old(listing).pending == Pending::Account(address)
            &&& answer == Answer::Account(Ok::<bool, E>(true))
        },
        step matches Step::Item(AccountStorageItem::StorageSlot(address, slot)) ==> {
            &&& old(listing).pending == Pending::Slot(address, slot)
            &&& answer == Answer::Slot(Ok::<Option<B256>, E>(Some(keccak(slot@))))
        },
        step matches Step::Failed(e) ==> {
            ||| old(listing).peeked == Peeked::<E>::Failed(e)
            ||| answer == Answer::AccountRow(Err::<Option<Address>, E>(e))
            ||| answer == Answer::Account(Err::<bool, E>(e))
            ||| answer == Answer::StorageRow(Err::<Option<(Address, B256)>, E>(e))
            ||| answer == Answer::Slot(Err::<Option<B256>, E>(e))
        },
        match (old(listing).pending, answer) {
            (Pending::Account(address), Answer::Account(Ok(true))) => {
                &&& step == Step::<E>::Item(AccountStorageItem::Account(address))
                &&& final(listing).state == State::StorageSlot(address)
            },
            (Pending::Slot(address, slot), Answer::Slot(Ok(Some(hash)))) => hash == keccak(slot@)
                ==> step == Step::<E>::Item(AccountStorageItem::StorageSlot(address, slot)),
            _ => true,
        },
{
}

/// Passing over the rows of an address drops the row ahead exactly where it is one of the address,
/// and changes nothing else. It is done where another row is ahead, or the rows have ended.
pub proof fn law_rows_ahead_are_passed<E>(
    listing: &mut PlainIterator<E>,
    address: Address,
    passed: bool,
)
    requires
        call_ensures(PlainIterator::<E>::advance_storage_past, (listing, address), passed),
    ensures
        match old(listing).peeked {
            Peeked::Row(other, _) => passed == (other != address) && (if other == address {
                final(listing).peeked is Empty
            } else {
                final(listing).peeked == old(listing).peeked
            }),
            Peeked::Empty => !passed && final(listing).peeked is Empty,
            _ => passed && final(listing).peeked == old(listing).peeked,
        },
        final(listing).last_account_addr == old(listing).last_account_addr,
        final(listing).last_storage_slot == old(listing).last_storage_slot,
        final(listing).state == old(listing).state,
        final(listing).pending == old(listing).pending,
{
}

/// A new scan has found nothing and asks for the first account row: it is at the start of a run.
pub proof fn law_new_scan_starts_a_run<E>(scan: Eip7748Scan, step: ScanStep<E>, rows: Rows<E>)
    requires
        call_ensures(Eip7748Scan::new, (), scan),
        call_ensures(Eip7748Scan::request::<E>, (&scan,), step),
    ensures
        scan.wf(),
        scan@.accounts.len() == 0,
        scan@.rows.len() == 0,
        step is NextAccountRow,
        ScanRun::start(rows) == (ScanRun { state: scan@, step, unread: rows }),
{
}

/// Handing back what was asked for drives a scan on: the next row, which is then read, or what the
/// lookup of the key that was asked for gives.
pub proof fn law_answer_drives_a_scan<E>(
    scan: &mut Eip7748Scan,
    answer: Answer<E>,
    step: ScanStep<E>,
    run: ScanRun<E>,
    lookups: Lookups<E>,
)
    requires
        old(scan).wf(),
        run.state == old(scan)@,
        match run.step {
            ScanStep::NextAccountRow => answer == Answer::AccountRow(next_row(run.unread.accounts)),
            ScanStep::SeekAccount(_, hash) => answer == Answer::Account((lookups.account)(hash)),
            ScanStep::NextStorageRow => answer == Answer::StorageRow(next_row(run.unread.storages)),
            ScanStep::SeekSlot(account, slot) => answer == Answer::Slot(
                (lookups.slot)(account, slot),
            ),
            _ => false,
        },
        call_ensures(Eip7748Scan::answer::<E>, (scan, answer), step),
    ensures
        final(scan).wf(),
        run.driven(lookups) == (ScanRun {
            state: final(scan)@,
            step,
            unread: Rows {
                accounts: if run.step is NextAccountRow {
                    later_rows(run.unread.accounts)
                } else {
                    run.unread.accounts
                },
                storages: if run.step is NextStorageRow {
                    later_rows(run.unread.storages)
                } else {
                    run.unread.storages
                },
            },
        }),
{
}

/// What a scan asks for is what it waits for: the next row, or the digests of what it looks up.
pub proof fn law_scan_asks_for_what_is_due<E>(scan: &Eip7748Scan, step: ScanStep<E>)
    requires
        call_ensures(Eip7748Scan::request::<E>, (scan,), step),
    ensures
        match scan@.pending {
            ScanPending::AccountRow => step is NextAccountRow,
            ScanPending::Account(address) => step == ScanStep::<E>::SeekAccount(
                address,
                keccak(address@),
            ),
            ScanPending::StorageRow => step is NextStorageRow,
            ScanPending::Slot(address, slot) => step == ScanStep::<E>::SeekSlot(
                keccak(address@),
                keccak(slot@),
            ),
            ScanPending::Done => step is Done,
            ScanPending::Stopped => step is Stopped,
        },
{
}

/// Over tables in key order, where no lookup fails, the listing that is made of a finished scan has
/// exactly the live state to come: an account where the account history holds it and the hashed
/// accounts its digest, a slot where its account is listed, the storage history holds it and the
/// hashed storages the digests. Of two items the first one is of an account with a smaller or equal
/// digest; an account stands before its slots, and these in the order of their digests.
pub proof fn law_listing_of_a_scan<E>(
    scan: Eip7748Scan,
    listing: Eip7748Iterator,
    history: History,
    hashed: Hashed,
    lookups: Lookups<E>,
    within: nat,
    address: Address,
    slot: B256,
    i: int,
    j: int,
)
    requires
        scan.wf(),
        scan@.pending is Done,
        call_ensures(Eip7748Iterator::new, (scan,), listing),
        forall|i: int, j: int|
            #![trigger history.accounts[i], history.accounts[j]]
            0 <= i < j < history.accounts.len() ==> history.accounts[i] == history.accounts[j]
                || bytes_lt(history.accounts[i]@, history.accounts[j]@),
        forall|i: int, j: int|
            #![trigger history.storages[i], history.storages[j]]
            0 <= i < j < history.storages.len() ==> history.storages[i] == history.storages[j]
                || bytes_lt(history.storages[i].0@, history.storages[j].0@) || (
            history.storages[i].0 == history.storages[j].0 && bytes_lt(
                history.storages[i].1@,
                history.storages[j].1@,
            )),
        lookups.tells(hashed),
        lookups.accounts_found(),
        lookups.slots_found(),
        within >= 2 * history.accounts.len() + 2 * history.storages.len() + 2,
        ScanRun::start(history.rows()).ended(lookups, within) == Some(Ok::<_, E>(scan@)),
    ensures
        listing.wf(),
        listing@.contains(AccountStorageItem::Account(address)) <==> {
            &&& history.accounts.contains(address)
            &&& hashed.accounts.contains(keccak(address@))
        },
        listing@.contains(AccountStorageItem::StorageSlot(address, slot)) <==> {
            &&& history.accounts.contains(address)
            &&& hashed.accounts.contains(keccak(address@))
            &&& history.storages.contains((address, slot))
            &&& hashed.storages.contains((keccak(address@), keccak(slot@)))
        },
        0 <= i < j < listing@.len() ==> match (listing@[i], listing@[j]) {
            (AccountStorageItem::Account(a), AccountStorageItem::Account(b)) => a != b && bytes_le(
                keccak(a@)@,
                keccak(b@)@,
            ),
            (AccountStorageItem::Account(a), AccountStorageItem::StorageSlot(b, _)) => a == b
                || bytes_le(keccak(a@)@, keccak(b@)@),
            (AccountStorageItem::StorageSlot(a, _), AccountStorageItem::Account(b)) => a != b
                && bytes_le(keccak(a@)@, keccak(b@)@),
            (
                AccountStorageItem::StorageSlot(a, x),
                AccountStorageItem::StorageSlot(b, y),
            ) => if a == b {
                bytes_le(keccak(x@)@, keccak(y@)@)
            } else {
                bytes_le(keccak(a@)@, keccak(b@)@)
            },
        },
{
    law_eip7748_items(
        history,
        hashed,
        lookups,
        within,
        scan@,
        listing.addresses(),
        listing.slot_lists(),
        address,
        slot,
        i,
        j,
    );
}

/// The items that are to come are handed out one after the other, each once, and then the end is
/// told.
pub proof fn law_items_to_come_are_handed_out(
    listing: &mut Eip7748Iterator,
    item: Option<AccountStorageItem>,
)
    requires
        old(listing).wf(),
        call_ensures(Eip7748Iterator::next, (listing,), item),
    ensures
        final(listing).wf(),
        item is None <==> old(listing)@.len() == 0,
        item matches Some(item) ==> old(listing)@ =~= seq![item] + final(listing)@,
        item is None ==> final(listing)@.len() == 0,
{
}

} // verus!
