//! What a whole scan finds, and for which error it is given up, said of the tables directly.

use crate::bytes::{bytes_le, bytes_lt, Address, B256};
use crate::hashing::keccak;
use crate::iterators::eip7748::sorted_by_keccak;
use crate::iterators::eip7748_order::{eip7748_order, law_eip7748_listing};
use crate::iterators::eip7748_scan::{slots_in, ScanState};
use crate::iterators::eip7748_scan_laws::{
    account_failure, law_scan_finds_live_items, law_scan_reports_accounts, reported_accounts,
    storage_failure, ScanRun,
};
use crate::iterators::failing::{successes, Lookups, Rows};
use crate::iterators::listing::{listing, unrepeated, Hashed, History};
use crate::iterators::listing_laws::{
    address_order, key_ordered, law_live_accounts, lemma_filter_contains,
    lemma_unrepeated_contains, row_order,
};
use crate::iterators::state_laws::{law_listing_holds_the_live_state, lemma_successes_contain};
use crate::iterators::{items_with, AccountStorageItem};
use vstd::prelude::*;

verus! {

/// The first error of the account history, where all rows before it are read and looked up.
proof fn lemma_first_account_failure<E>(
    lookups: Lookups<E>,
    accounts: Seq<Result<Address, E>>,
    last: Option<Address>,
    place: int,
    e: E,
)
    requires
        0 <= place < accounts.len(),
        forall|i: int|
            0 <= i < place ==> (#[trigger] accounts[i] matches Ok(address) && (lookups.account)(
                keccak(address@),
            ) is Ok),
        last matches Some(address) ==> (lookups.account)(keccak(address@)) is Ok,
        match accounts[place] {
            Ok(address) => (lookups.account)(keccak(address@)) == Err::<bool, E>(e),
            Err(error) => error == e,
        },
    ensures
        account_failure(lookups, accounts, last) == Some(e),
    decreases accounts.len(),
{
    if place > 0 {
        let rest = accounts.drop_first();
        assert(accounts[0] is Ok);
        assert forall|i: int| 0 <= i < place - 1 implies (#[trigger] rest[i] matches Ok(address)
            && (lookups.account)(keccak(address@)) is Ok) by {
            assert(rest[i] == accounts[i + 1]);
        }
        assert(rest[place - 1] == accounts[place]);
        lemma_first_account_failure(lookups, rest, last, place - 1, e);
        lemma_first_account_failure(lookups, rest, Some(accounts[0]->Ok_0), place - 1, e);
    }
}

/// Where all accounts are read and looked up, the account history has no error.
proof fn lemma_accounts_read<E>(
    lookups: Lookups<E>,
    accounts: Seq<Result<Address, E>>,
    last: Option<Address>,
)
    requires
        forall|i: int|
            0 <= i < accounts.len() ==> (#[trigger] accounts[i] matches Ok(address) && (
            lookups.account)(keccak(address@)) is Ok),
    ensures
        account_failure(lookups, accounts, last) == None::<E>,
    decreases accounts.len(),
{
    if accounts.len() > 0 {
        let rest = accounts.drop_first();
        assert(accounts[0] is Ok);
        assert forall|i: int| 0 <= i < rest.len() implies (#[trigger] rest[i] matches Ok(address)
            && (lookups.account)(keccak(address@)) is Ok) by {
            assert(rest[i] == accounts[i + 1]);
        }
        lemma_accounts_read(lookups, rest, last);
        lemma_accounts_read(lookups, rest, Some(accounts[0]->Ok_0));
    }
}

/// The first error of the storage history, where all rows before it are read and looked up.
proof fn lemma_first_storage_failure<E>(
    lookups: Lookups<E>,
    rows: Seq<Result<(Address, B256), E>>,
    last: Option<(Address, B256)>,
    place: int,
    e: E,
)
    requires
        0 <= place < rows.len(),
        forall|i: int|
            0 <= i < place ==> (#[trigger] rows[i] matches Ok(row) && (lookups.slot)(
                keccak(row.0@),
                keccak(row.1@),
            ) is Ok),
        last matches Some(row) ==> (lookups.slot)(keccak(row.0@), keccak(row.1@)) is Ok,
        match rows[place] {
            Ok(row) => (lookups.slot)(keccak(row.0@), keccak(row.1@)) == Err::<Option<B256>, E>(e),
            Err(error) => error == e,
        },
    ensures
        storage_failure(lookups, rows, last) == Some(e),
    decreases rows.len(),
{
    if place > 0 {
        let rest = rows.drop_first();
        assert(rows[0] is Ok);
        assert forall|i: int| 0 <= i < place - 1 implies (#[trigger] rest[i] matches Ok(row) && (
        lookups.slot)(keccak(row.0@), keccak(row.1@)) is Ok) by {
            assert(rest[i] == rows[i + 1]);
        }
        assert(rest[place - 1] == rows[place]);
        lemma_first_storage_failure(lookups, rest, last, place - 1, e);
        lemma_first_storage_failure(lookups, rest, Some(rows[0]->Ok_0), place - 1, e);
    }
}

/// Where all storage rows are read and looked up, the storage history has no error.
proof fn lemma_storages_read<E>(
    lookups: Lookups<E>,
    rows: Seq<Result<(Address, B256), E>>,
    last: Option<(Address, B256)>,
)
    requires
        forall|i: int|
            0 <= i < rows.len() ==> (#[trigger] rows[i] matches Ok(row) && (lookups.slot)(
                keccak(row.0@),
                keccak(row.1@),
            ) is Ok),
    ensures
        storage_failure(lookups, rows, last) == None::<E>,
    decreases rows.len(),
{
    if rows.len() > 0 {
        let rest = rows.drop_first();
        assert(rows[0] is Ok);
        assert forall|i: int| 0 <= i < rest.len() implies (#[trigger] rest[i] matches Ok(row) && (
        lookups.slot)(keccak(row.0@), keccak(row.1@)) is Ok) by {
            assert(rest[i] == rows[i + 1]);
        }
        lemma_storages_read(lookups, rest, last);
        lemma_storages_read(lookups, rest, Some(rows[0]->Ok_0));
    }
}

/// Where an account row cannot be read, or the lookup of its digest fails, and all account rows
/// before it are read and looked up, the scan is given up with that error, whatever the storage
/// history holds, and no storage row is asked for.
pub proof fn law_scan_stops_at_the_first_account_error<E>(
    rows: Rows<E>,
    lookups: Lookups<E>,
    within: nat,
    place: int,
    e: E,
)
    requires
        0 <= place < rows.accounts.len(),
        forall|i: int|
            0 <= i < place ==> (#[trigger] rows.accounts[i] matches Ok(address) && (
            lookups.account)(keccak(address@)) is Ok),
        match rows.accounts[place] {
            Ok(address) => (lookups.account)(keccak(address@)) == Err::<bool, E>(e),
            Err(error) => error == e,
        },
        within >= 2 * rows.accounts.len() + 2 * rows.storages.len() + 2,
    ensures
        ScanRun::start(rows).ended(lookups, within) == Some(Err::<ScanState, E>(e)),
        !ScanRun::start(rows).reads_storages(lookups, within),
{
    lemma_first_account_failure(lookups, rows.accounts, None, place, e);
    law_scan_finds_live_items(rows, lookups, within);
    law_scan_reports_accounts(rows, lookups, within);
}

/// Where all account rows are read and looked up, and a storage row cannot be read, or the lookup
/// of its digests fails, and all storage rows before it are read and looked up, the scan is given
/// up with that error.
pub proof fn law_scan_stops_at_the_first_storage_error<E>(
    rows: Rows<E>,
    lookups: Lookups<E>,
    within: nat,
    place: int,
    e: E,
)
    requires
        forall|i: int|
            0 <= i < rows.accounts.len() ==> (#[trigger] rows.accounts[i] matches Ok(address) && (
            lookups.account)(keccak(address@)) is Ok),
        0 <= place < rows.storages.len(),
        forall|i: int|
            0 <= i < place ==> (#[trigger] rows.storages[i] matches Ok(row) && (lookups.slot)(
                keccak(row.0@),
                keccak(row.1@),
            ) is Ok),
        match rows.storages[place] {
            Ok(row) => (lookups.slot)(keccak(row.0@), keccak(row.1@)) == Err::<Option<B256>, E>(e),
            Err(error) => error == e,
        },
        within >= 2 * rows.accounts.len() + 2 * rows.storages.len() + 2,
    ensures
        ScanRun::start(rows).ended(lookups, within) == Some(Err::<ScanState, E>(e)),
{
    lemma_accounts_read(lookups, rows.accounts, None);
    lemma_first_storage_failure(lookups, rows.storages, None, place, e);
    law_scan_finds_live_items(rows, lookups, within);
}

/// Where all rows are read and looked up, the scan comes to its end with the live state: an account
/// is found exactly where the account history holds it and the lookup of its digest finds it, and a
/// slot exactly where the storage history holds it and the lookup of its digest under that of the
/// account finds just this digest.
pub proof fn law_scan_finds_what_the_tables_hold<E>(
    rows: Rows<E>,
    lookups: Lookups<E>,
    within: nat,
    address: Address,
    slot: B256,
)
    requires
        forall|i: int|
            0 <= i < rows.accounts.len() ==> (#[trigger] rows.accounts[i] matches Ok(address) && (
            lookups.account)(keccak(address@)) is Ok),
        forall|i: int|
            0 <= i < rows.storages.len() ==> (#[trigger] rows.storages[i] matches Ok(row) && (
            lookups.slot)(keccak(row.0@), keccak(row.1@)) is Ok),
        within >= 2 * rows.accounts.len() + 2 * rows.storages.len() + 2,
    ensures
        ScanRun::start(rows).ended(lookups, within) matches Some(Ok(found)) && {
            &&& found.accounts.contains(address) <==> {
                &&& rows.accounts.contains(Ok::<Address, E>(address))
                &&& (lookups.account)(keccak(address@)) == Ok::<bool, E>(true)
            }
            &&& found.rows.contains((address, slot)) <==> {
                &&& rows.storages.contains(Ok::<(Address, B256), E>((address, slot)))
                &&& (lookups.slot)(keccak(address@), keccak(slot@)) == Ok::<Option<B256>, E>(
                    Some(keccak(slot@)),
                )
            }
        },
{
    let hashed = lookups.shown();
    let accounts = successes(rows.accounts);
    let storages = successes(rows.storages);
    lemma_accounts_read(lookups, rows.accounts, None);
    lemma_storages_read(lookups, rows.storages, None);
    law_scan_finds_live_items(rows, lookups, within);
    law_live_accounts(hashed, accounts, address);
    lemma_successes_contain(rows.accounts, address);
    lemma_successes_contain(rows.storages, (address, slot));
    lemma_unrepeated_contains(storages, None, (address, slot));
    lemma_filter_contains(unrepeated(storages, None), hashed.keeps_slot(), (address, slot));
}

/// Which accounts are reported, where the one before the first was looked up.
proof fn lemma_reported_contains<E>(
    lookups: Lookups<E>,
    accounts: Seq<Result<Address, E>>,
    last: Option<Address>,
    address: Address,
)
    requires
        last matches Some(before) ==> (lookups.account)(keccak(before@)) is Ok,
    ensures
        ({
            let reported = reported_accounts(lookups, accounts, last);
            let reached = exists|place: int|
                {
                    &&& 0 <= place < accounts.len()
                    &&& #[trigger] accounts[place] == Ok::<Address, E>(address)
                    &&& forall|i: int|
                        0 <= i < place ==> (#[trigger] accounts[i] matches Ok(before) && (
                        lookups.account)(keccak(before@)) is Ok)
                };
            &&& reported.contains(address) ==> reached
            &&& reached ==> reported.contains(address) || last == Some(address)
        }),
    decreases accounts.len(),
{
    let reported = reported_accounts(lookups, accounts, last);
    if accounts.len() > 0 && accounts[0] is Ok {
        let rest = accounts.drop_first();
        let first = accounts[0]->Ok_0;
        let goes_on = (lookups.account)(keccak(first@)) is Ok;
        let next = if last == Some(first) { last } else { Some(first) };
        let later = reported_accounts(lookups, rest, next);
        if goes_on {
            lemma_reported_contains(lookups, rest, next, address);
        }
        if reported.contains(address) {
            let k = choose|k: int| 0 <= k < reported.len() && reported[k] == address;
            if last != Some(first) && k == 0 {
                assert(accounts[0] == Ok::<Address, E>(address));
            } else {
                assert(later.contains(address)) by {
                    assert(later[if last == Some(first) { k } else { k - 1 }] == address);
                }
                let place = choose|place: int|
                    {
                        &&& 0 <= place < rest.len()
                        &&& #[trigger] rest[place] == Ok::<Address, E>(address)
                        &&& forall|i: int|
                            0 <= i < place ==> (#[trigger] rest[i] matches Ok(before) && (
                            lookups.account)(keccak(before@)) is Ok)
                    };
                assert(accounts[place + 1] == Ok::<Address, E>(address));
                assert forall|i: int| 0 <= i < place + 1 implies (#[trigger] accounts[i] matches Ok(
                    before,
                ) && (lookups.account)(keccak(before@)) is Ok) by {
                    if i > 0 {
                        assert(accounts[i] == rest[i - 1]);
                    }
                }
            }
        }
        if exists|place: int|
            {
                &&& 0 <= place < accounts.len()
                &&& #[trigger] accounts[place] == Ok::<Address, E>(address)
                &&& forall|i: int|
                    0 <= i < place ==> (#[trigger] accounts[i] matches Ok(before) && (
                    lookups.account)(keccak(before@)) is Ok)
            } {
            let place = choose|place: int|
                {
                    &&& 0 <= place < accounts.len()
                    &&& #[trigger] accounts[place] == Ok::<Address, E>(address)
                    &&& forall|i: int|
                        0 <= i < place ==> (#[trigger] accounts[i] matches Ok(before) && (
                        lookups.account)(keccak(before@)) is Ok)
                };
            if first == address {
                if last != Some(first) {
                    assert(reported[0] == address);
                }
            } else {
                assert(accounts[0] matches Ok(before) && (lookups.account)(keccak(before@)) is Ok);
                assert(rest[place - 1] == Ok::<Address, E>(address));
                assert forall|i: int| 0 <= i < place - 1 implies (#[trigger] rest[i] matches Ok(
                    before,
                ) && (lookups.account)(keccak(before@)) is Ok) by {
                    assert(rest[i] == accounts[i + 1]);
                }
                if later.contains(address) {
                    let k = choose|k: int| 0 <= k < later.len() && later[k] == address;
                    assert(reported[if last == Some(first) { k } else { k + 1 }] == address);
                }
            }
        }
    }
}

/// A scan reports an account where the account history holds it and no account row before it fails
/// to be read or looked up; and it reports no other account.
pub proof fn law_scan_reports_what_it_looks_up<E>(
    rows: Rows<E>,
    lookups: Lookups<E>,
    within: nat,
    address: Address,
)
    requires
        within >= 2 * rows.accounts.len() + 2 * rows.storages.len() + 2,
    ensures
        ScanRun::start(rows).reported(lookups, within).contains(address) <==> exists|place: int|
            {
                &&& 0 <= place < rows.accounts.len()
                &&& #[trigger] rows.accounts[place] == Ok::<Address, E>(address)
                &&& forall|i: int|
                    0 <= i < place ==> (#[trigger] rows.accounts[i] matches Ok(before) && (
                    lookups.account)(keccak(before@)) is Ok)
            },
{
    law_scan_reports_accounts(rows, lookups, within);
    lemma_reported_contains(lookups, rows.accounts, None, address);
}

/// Over tables in key order, where no lookup fails, the listing of the accounts and slots that a
/// scan found, sorted by their digests, holds exactly the live state: an account where the account
/// history holds it and the hashed accounts its digest, a slot where its account is listed, the
/// storage history holds it and the hashed storages the digests. Of two items the first one is of
/// an account with a smaller or equal digest; an account stands before its slots, and these in the
/// order of their digests.
pub proof fn law_eip7748_items<E>(
    history: History,
    hashed: Hashed,
    lookups: Lookups<E>,
    within: nat,
    scan: ScanState,
    addresses: Seq<Address>,
    slots: spec_fn(Address) -> Seq<B256>,
    address: Address,
    slot: B256,
    i: int,
    j: int,
)
    requires
        forall|i: int, j: int|
            #![trigger history.accounts[i], history.accounts[j]]
            0 <= i < j < history.accounts.len() ==> history.accounts[i] == history.accounts[j]
                || bytes_lt(history.accounts[i]@, history.accounts[j]@),
        forall|i: int, j: int|
            #![trigger history.storages[i], history.storages[j]]
            0 <= i < j < history.storages.len() ==> history.storages[i] == history.storages[j]
                || bytes_lt(history.storages[i].0@, history.storages[j].0@) || (
            history.storages[i].0 == history.storages[j].0 && bytes_lt(
                history.storages[i].1@,
                history.storages[j].1@,
            )),
        lookups.tells(hashed),
        lookups.accounts_found(),
        lookups.slots_found(),
        within >= 2 * history.accounts.len() + 2 * history.storages.len() + 2,
        ScanRun::start(history.rows()).ended(lookups, within) == Some(Ok::<ScanState, E>(scan)),
        addresses.to_multiset() == scan.accounts.to_multiset(),
        sorted_by_keccak(addresses),
        forall|address: Address|
            #![trigger slots(address)]
            {
                &&& slots(address).to_multiset() == slots_in(scan.rows, address).to_multiset()
                &&& sorted_by_keccak(slots(address))
            },
    ensures
        items_with(addresses, slots).contains(AccountStorageItem::Account(address)) <==> {
            &&& history.accounts.contains(address)
            &&& hashed.accounts.contains(keccak(address@))
        },
        items_with(addresses, slots).contains(AccountStorageItem::StorageSlot(address, slot))
            <==> {
            &&& history.accounts.contains(address)
            &&& hashed.accounts.contains(keccak(address@))
            &&& history.storages.contains((address, slot))
            &&& hashed.storages.contains((keccak(address@), keccak(slot@)))
        },
        0 <= i < j < items_with(addresses, slots).len() ==> match (
            items_with(addresses, slots)[i],
            items_with(addresses, slots)[j],
        ) {
            (AccountStorageItem::Account(a), AccountStorageItem::Account(b)) => a != b && bytes_le(
                keccak(a@)@,
                keccak(b@)@,
            ),
            (AccountStorageItem::Account(a), AccountStorageItem::StorageSlot(b, _)) => a == b
                || bytes_le(keccak(a@)@, keccak(b@)@),
            (AccountStorageItem::StorageSlot(a, _), AccountStorageItem::Account(b)) => a != b
                && bytes_le(keccak(a@)@, keccak(b@)@),
            (
                AccountStorageItem::StorageSlot(a, x),
                AccountStorageItem::StorageSlot(b, y),
            ) => if a == b {
                bytes_le(keccak(x@)@, keccak(y@)@)
            } else {
                bytes_le(keccak(a@)@, keccak(b@)@)
            },
        },
{
    let items = items_with(addresses, slots);
    let plain = listing(history, hashed);
    assert(key_ordered(history.accounts, address_order())) by {
        assert forall|i: int, j: int|
            #![trigger history.accounts[i], history.accounts[j]]
            0 <= i < j < history.accounts.len() implies history.accounts[i] == history.accounts[j]
            || address_order()(history.accounts[i], history.accounts[j]) by {
        }
    }
    assert(key_ordered(history.storages, row_order())) by {
        assert forall|i: int, j: int|
            #![trigger history.storages[i], history.storages[j]]
            0 <= i < j < history.storages.len() implies history.storages[i] == history.storages[j]
            || row_order()(history.storages[i], history.storages[j]) by {
        }
    }
    law_eip7748_listing(history, hashed, lookups, within, scan, addresses, slots);
    law_listing_holds_the_live_state(history, hashed, address, slot);
    let account_item = AccountStorageItem::Account(address);
    let slot_item = AccountStorageItem::StorageSlot(address, slot);
    items.to_multiset_ensures();
    plain.to_multiset_ensures();
    assert(items.contains(account_item) <==> items.to_multiset().count(account_item) > 0);
    assert(plain.contains(account_item) <==> plain.to_multiset().count(account_item) > 0);
    assert(items.contains(slot_item) <==> items.to_multiset().count(slot_item) > 0);
    assert(plain.contains(slot_item) <==> plain.to_multiset().count(slot_item) > 0);
    if 0 <= i < j < items.len() {
        assert(eip7748_order()(items[i], items[j]));
    }
}

} // verus!
