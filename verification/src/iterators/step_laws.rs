//! How the plain listing and the scan go on with each answer, whatever order the rows come in.

use crate::bytes::{bytes_lt, Address, B256};
use crate::hashing::keccak;
use crate::iterators::eip7748_scan::{ScanPending, ScanState, ScanStep};
use crate::iterators::plain::{Answer, Peeked, Pending, PlainIterator, State, Step};
use crate::iterators::AccountStorageItem;
use vstd::prelude::*;

verus! {

/// While an answer is due, asking for the next item changes nothing and repeats the request: the
/// next row, or the digests of what is looked up. So does an answer of another kind.
pub proof fn law_requests_are_repeated<E>(listing: PlainIterator<E>, answer: Answer<E>)
    ensures
        !(listing.pending is Nothing) ==> listing.asked().0 == listing,
        match listing.pending {
            Pending::Nothing => true,
            Pending::AccountRow => listing.asked().1 == Step::<E>::NextAccountRow,
            Pending::Account(address) => listing.asked().1 == Step::<E>::SeekAccount(
                keccak(address@),
            ),
            Pending::StorageRow => listing.asked().1 == Step::<E>::NextStorageRow,
            Pending::PassedRow(_) => listing.asked().1 == Step::<E>::NextStorageRow,
            Pending::Slot(address, slot) => listing.asked().1 == Step::<E>::SeekSlot(
                keccak(address@),
                keccak(slot@),
            ),
        },
        match (listing.pending, answer) {
            (Pending::AccountRow, Answer::AccountRow(_)) => true,
            (Pending::Account(_), Answer::Account(_)) => true,
            (Pending::StorageRow, Answer::StorageRow(_)) => true,
            (Pending::PassedRow(_), Answer::StorageRow(_)) => true,
            (Pending::Slot(_, _), Answer::Slot(_)) => true,
            _ => listing.answered(answer) == listing.asked(),
        },
{
}

/// A row of the account history is looked up by its digest, unless it repeats the address before
/// it: then the next row is asked for and nothing else changes. Behind the last row the listing has
/// ended. An error is handed out.
pub proof fn law_account_rows_are_looked_up<E>(
    listing: PlainIterator<E>,
    row: Result<Option<Address>, E>,
)
    requires
        listing.pending is AccountRow,
    ensures
        ({
            let (after, step) = listing.answered(Answer::AccountRow(row));
            match row {
                Ok(Some(address)) => {
                    &&& listing.last_account_addr == Some(address) ==> after == listing
                        && step is NextAccountRow
                    &&& listing.last_account_addr != Some(address) ==> {
                        &&& step == Step::<E>::SeekAccount(keccak(address@))
                        &&& after.pending == Pending::Account(address)
                        &&& after.last_account_addr == Some(address)
                        &&& after.last_storage_slot == listing.last_storage_slot
                        &&& after.peeked == listing.peeked
                        &&& after.state == listing.state
                    }
                },
                Ok(None) => step is Done && after.asked() == (after, Step::<E>::Done),
                Err(e) => {
                    &&& step == Step::<E>::Failed(e)
                    &&& after.pending is Nothing
                    &&& after.last_account_addr == listing.last_account_addr
                    &&& after.last_storage_slot == listing.last_storage_slot
                    &&& after.peeked == listing.peeked
                    &&& after.state == listing.state
                },
            }
        }),
{
}

/// An account that is found is handed out, and its slots come next. One that is not found is never
/// handed out: where no row is ahead, or one of its address, the next storage row is asked for.
/// An error is handed out, and the listing goes on from where it stood.
pub proof fn law_accounts_are_handed_out_where_found<E>(
    listing: PlainIterator<E>,
    address: Address,
    found: Result<bool, E>,
)
    requires
        listing.pending == Pending::Account(address),
    ensures
        ({
            let (after, step) = listing.answered(Answer::Account(found));
            match found {
                Ok(true) => {
                    &&& step == Step::<E>::Item(AccountStorageItem::Account(address))
                    &&& after.state == State::StorageSlot(address)
                    &&& after.pending is Nothing
                    &&& after.last_account_addr == listing.last_account_addr
                    &&& after.last_storage_slot == listing.last_storage_slot
                    &&& after.peeked == listing.peeked
                },
                Ok(false) => {
                    &&& !(step is Item)
                    &&& listing.peeked is Empty || (listing.peeked matches Peeked::Row(other, _)
                        && other == address) ==> {
                        &&& step is NextStorageRow
                        &&& after.pending == Pending::PassedRow(address)
                        &&& after.peeked is Empty
                        &&& after.state == listing.state
                        &&& after.last_account_addr == listing.last_account_addr
                        &&& after.last_storage_slot == listing.last_storage_slot
                    }
                    &&& listing.state is Account && !(listing.peeked is Empty) && !(
                    listing.peeked matches Peeked::Row(other, _) && other == address) ==> {
                        &&& step is NextAccountRow
                        &&& after.pending is AccountRow
                        &&& after.peeked == listing.peeked
                        &&& after.state is Account
                        &&& after.last_account_addr == listing.last_account_addr
                        &&& after.last_storage_slot == listing.last_storage_slot
                    }
                },
                Err(e) => {
                    &&& step == Step::<E>::Failed(e)
                    &&& after.pending is Nothing
                    &&& after.last_account_addr == listing.last_account_addr
                    &&& after.last_storage_slot == listing.last_storage_slot
                    &&& after.peeked == listing.peeked
                    &&& after.state == listing.state
                },
            }
        }),
{
}

/// While the slots of an account are listed, a storage row of a smaller address is passed over, one
/// of a larger address ends the account and stays ahead, and one of the account is looked up by its
/// digests, unless it repeats the row before it. Behind the last row the account has ended. An
/// error is handed out once, and the account goes on behind it. It makes no difference whether the
/// row was asked for now or read ahead.
pub proof fn law_storage_rows_are_looked_up<E>(
    listing: PlainIterator<E>,
    account: Address,
    row: Result<Option<(Address, B256)>, E>,
)
    requires
        listing.state == State::StorageSlot(account),
        listing.pending is StorageRow || (listing.pending is Nothing && match row {
            Ok(Some((address, slot))) => listing.peeked == Peeked::<E>::Row(address, slot),
            Ok(None) => listing.peeked is Exhausted,
            Err(e) => listing.peeked == Peeked::<E>::Failed(e),
        }),
    ensures
        ({
            let (after, step) = if listing.pending is StorageRow {
                listing.answered(Answer::StorageRow(row))
            } else {
                listing.asked()
            };
            &&& after.last_account_addr == listing.last_account_addr
            &&& match row {
                Ok(Some((address, slot))) => {
                    &&& bytes_lt(address@, account@) ==> {
                        &&& step is NextStorageRow
                        &&& after.pending == Pending::PassedRow(address)
                        &&& after.state == listing.state
                        &&& after.peeked is Empty
                        &&& after.last_storage_slot == listing.last_storage_slot
                    }
                    &&& bytes_lt(account@, address@) && !bytes_lt(address@, account@) ==> {
                        &&& step is NextAccountRow
                        &&& after.pending is AccountRow
                        &&& after.state is Account
                        &&& after.peeked == Peeked::<E>::Row(address, slot)
                        &&& after.last_storage_slot == listing.last_storage_slot
                    }
                    &&& !bytes_lt(account@, address@) && !bytes_lt(address@, account@) ==> {
                        &&& after.peeked is Empty
                        &&& after.state == listing.state
                        &&& after.last_storage_slot == Some((address, slot))
                        &&& listing.last_storage_slot == Some((address, slot))
                            ==> step is NextStorageRow && after.pending is StorageRow
                        &&& listing.last_storage_slot != Some((address, slot)) ==> step
                            == Step::<E>::SeekSlot(keccak(address@), keccak(slot@))
                            && after.pending == Pending::Slot(address, slot)
                    }
                },
                Ok(None) => {
                    &&& step is NextAccountRow
                    &&& after.pending is AccountRow
                    &&& after.state is Account
                    &&& after.peeked is Exhausted
                    &&& after.last_storage_slot == listing.last_storage_slot
                },
                Err(e) => {
                    &&& step == Step::<E>::Failed(e)
                    &&& after.pending is Nothing
                    &&& after.state == listing.state
                    &&& after.peeked is Empty
                    &&& after.last_storage_slot == listing.last_storage_slot
                },
            }
        }),
{
}

/// A slot is handed out where the entry that was found holds just its digest. An error is handed
/// out. Any other answer lets the listing go on as if the next item were asked for.
pub proof fn law_slots_are_handed_out_where_found<E>(
    listing: PlainIterator<E>,
    address: Address,
    slot: B256,
    found: Result<Option<B256>, E>,
)
    requires
        listing.pending == Pending::Slot(address, slot),
    ensures
        ({
            let (after, step) = listing.answered(Answer::Slot(found));
            let idle = PlainIterator { pending: Pending::Nothing, ..listing };
            match found {
                Ok(Some(hash)) => if hash == keccak(slot@) {
                    &&& step == Step::<E>::Item(AccountStorageItem::StorageSlot(address, slot))
                    &&& after == idle
                } else {
                    (after, step) == idle.asked()
                },
                Ok(None) => (after, step) == idle.asked(),
                Err(e) => step == Step::<E>::Failed(e) && after == idle,
            }
        }),
{
}

/// While the rows of an address are passed over, a row of the address is passed over too. Any other
/// row stays ahead: the listing goes on from it as if it had been read ahead.
pub proof fn law_passed_rows_are_not_looked_up<E>(
    listing: PlainIterator<E>,
    address: Address,
    row: Result<Option<(Address, B256)>, E>,
)
    requires
        listing.pending == Pending::PassedRow(address),
    ensures
        ({
            let (after, step) = listing.answered(Answer::StorageRow(row));
            let idle = PlainIterator { pending: Pending::Nothing, ..listing };
            match row {
                Ok(Some((other, slot))) => if other == address {
                    &&& step is NextStorageRow
                    &&& after == (PlainIterator { peeked: Peeked::Empty, ..listing })
                } else {
                    (after, step) == (PlainIterator {
                        peeked: Peeked::Row(other, slot),
                        ..idle
                    }).asked()
                },
                Ok(None) => (after, step) == (PlainIterator {
                    peeked: Peeked::Exhausted,
                    ..idle
                }).asked(),
                Err(e) => (after, step) == (PlainIterator {
                    peeked: Peeked::Failed(e),
                    ..idle
                }).asked(),
            }
        }),
{
}

/// When the next item is asked for, a listing between accounts asks for the next account row, and
/// one within an account for the next storage row, where none is ahead. One that has ended says so.
pub proof fn law_next_row_is_asked_for<E>(listing: PlainIterator<E>)
    requires
        listing.pending is Nothing,
    ensures
        listing.state is End ==> listing.asked() == (listing, Step::<E>::Done),
        listing.state is Account ==> listing.asked() == (
            PlainIterator { pending: Pending::AccountRow, ..listing },
            Step::<E>::NextAccountRow,
        ),
        listing.state is StorageSlot && listing.peeked is Empty ==> listing.asked() == (
            PlainIterator { pending: Pending::StorageRow, ..listing },
            Step::<E>::NextStorageRow,
        ),
{
}

/// A scan asks for the next row, or for the digests of what it looks up. An answer of another kind
/// changes nothing and repeats the request, and so does every answer once the scan has ended.
pub proof fn law_scan_requests<E>(state: ScanState, answer: Answer<E>)
    ensures
        match state.pending {
            ScanPending::AccountRow => state.request::<E>() is NextAccountRow,
            ScanPending::Account(address) => state.request::<E>() == ScanStep::<E>::SeekAccount(
                address,
                keccak(address@),
            ),
            ScanPending::StorageRow => state.request::<E>() is NextStorageRow,
            ScanPending::Slot(address, slot) => state.request::<E>() == ScanStep::<E>::SeekSlot(
                keccak(address@),
                keccak(slot@),
            ),
            ScanPending::Done => state.request::<E>() is Done,
            ScanPending::Stopped => state.request::<E>() is Stopped,
        },
        match (state.pending, answer) {
            (ScanPending::AccountRow, Answer::AccountRow(_)) => true,
            (ScanPending::Account(_), Answer::Account(_)) => true,
            (ScanPending::StorageRow, Answer::StorageRow(_)) => true,
            (ScanPending::Slot(_, _), Answer::Slot(_)) => true,
            _ => state.answered(answer) == (state, state.request::<E>()),
        },
{
}

/// A scan looks a row up by its digests, unless the row repeats the one before it: then the next
/// row is asked for and nothing else changes. Behind the last account row the storage rows are read,
/// and behind the last of these the scan has ended. What was found so far stays as it is.
pub proof fn law_scan_rows_are_looked_up<E>(
    state: ScanState,
    account: Option<Address>,
    row: Option<(Address, B256)>,
)
    ensures
        state.pending is AccountRow ==> {
            let (after, step) = state.answered(Answer::<E>::AccountRow(Ok(account)));
            &&& after.accounts == state.accounts
            &&& after.rows == state.rows
            &&& after.last_row == state.last_row
            &&& match account {
                Some(address) => {
                    &&& after.last_account == Some(address)
                    &&& state.last_account == Some(address) ==> step is NextAccountRow
                        && after.pending is AccountRow
                    &&& state.last_account != Some(address) ==> step
                        == ScanStep::<E>::SeekAccount(address, keccak(address@)) && after.pending
                        == ScanPending::Account(address)
                },
                None => {
                    &&& after.last_account == state.last_account
                    &&& step is NextStorageRow
                    &&& after.pending is StorageRow
                },
            }
        },
        state.pending is StorageRow ==> {
            let (after, step) = state.answered(Answer::<E>::StorageRow(Ok(row)));
            &&& after.accounts == state.accounts
            &&& after.rows == state.rows
            &&& after.last_account == state.last_account
            &&& match row {
                Some((address, slot)) => {
                    &&& after.last_row == Some((address, slot))
                    &&& state.last_row == Some((address, slot)) ==> step is NextStorageRow
                        && after.pending is StorageRow
                    &&& state.last_row != Some((address, slot)) ==> step
                        == ScanStep::<E>::SeekSlot(keccak(address@), keccak(slot@))
                        && after.pending == ScanPending::Slot(address, slot)
                },
                None => {
                    &&& after.last_row == state.last_row
                    &&& step is Done
                    &&& after.pending is Done
                },
            }
        },
{
}

/// A scan keeps an account that is found behind those before it, and a slot where the entry that
/// was found holds just its digest. Then it asks for the next row, in any case.
pub proof fn law_scan_keeps_what_is_found<E>(
    state: ScanState,
    address: Address,
    slot: B256,
    found: bool,
    entry: Option<B256>,
)
    ensures
        state.pending == ScanPending::Account(address) ==> {
            let (after, step) = state.answered(Answer::<E>::Account(Ok(found)));
            &&& step is NextAccountRow
            &&& after.pending is AccountRow
            &&& after.accounts == (if found {
                state.accounts.push(address)
            } else {
                state.accounts
            })
            &&& after.rows == state.rows
            &&& after.last_account == state.last_account
            &&& after.last_row == state.last_row
        },
        state.pending == ScanPending::Slot(address, slot) ==> {
            let (after, step) = state.answered(Answer::<E>::Slot(Ok(entry)));
            &&& step is NextStorageRow
            &&& after.pending is StorageRow
            &&& after.rows == (if entry == Some(keccak(slot@)) {
                state.rows.push((address, slot))
            } else {
                state.rows
            })
            &&& after.accounts == state.accounts
            &&& after.last_account == state.last_account
            &&& after.last_row == state.last_row
        },
{
}

/// An answer with an error gives the scan up: what was found so far stays, and nothing more is
/// asked for.
pub proof fn law_scan_errors_stop<E>(state: ScanState, answer: Answer<E>, e: E)
    requires
        match state.pending {
            ScanPending::AccountRow => answer == Answer::AccountRow(Err::<Option<Address>, E>(e)),
            ScanPending::Account(_) => answer == Answer::Account(Err::<bool, E>(e)),
            ScanPending::StorageRow => answer == Answer::StorageRow(
                Err::<Option<(Address, B256)>, E>(e),
            ),
            ScanPending::Slot(_, _) => answer == Answer::Slot(Err::<Option<B256>, E>(e)),
            _ => false,
        },
    ensures
        state.answered(answer) == (
            ScanState { pending: ScanPending::Stopped, ..state },
            ScanStep::<E>::Failed(e),
        ),
{
}

} // verus!
