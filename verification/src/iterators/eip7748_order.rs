//! What the EIP-7748 listing of whole tables holds, and in which order.

use crate::bytes::{
    bytes_le, law_bytes_lt_asymmetric, law_bytes_lt_irreflexive, lemma_same_bytes, Address, B256,
};
use crate::hashing::keccak;
use crate::iterators::eip7748::sorted_by_keccak;
use crate::iterators::eip7748_scan::{slots_in, ScanState};
use crate::iterators::eip7748_scan_laws::{
    law_scan_finds_live_items, lemma_no_scan_failure, ScanRun,
};
use crate::iterators::failing::{law_lookups_show_tables, lemma_all_read, Lookups};
use crate::iterators::listing::{
    is_of, items_of, lemma_filter_first, lemma_own_row, listing,
    live_accounts, live_slots, rows_of, storages_grouped, unrepeated, Hashed, History,
};
use crate::iterators::listing_laws::{
    address_order, ascending, item_address, key_ordered, law_key_order_groups_addresses,
    lemma_accounts_ascending, row_order,
};
use crate::iterators::{account_items, items_with, slot_items, AccountStorageItem};
use vstd::prelude::*;

verus! {

/// Of rows that are grouped by address, the slots that are kept of an account are its live ones.
#[verifier::spinoff_prover]
pub proof fn lemma_kept_slots(
    hashed: Hashed,
    rows: Seq<(Address, B256)>,
    last: Option<(Address, B256)>,
    address: Address,
)
    requires
        storages_grouped(rows),
        last matches Some(l) ==> forall|i: int|
            0 <= i < rows.len() ==> bytes_le(l.0@, (#[trigger] rows[i]).0@),
    ensures
        slots_in(unrepeated(rows, last).filter(hashed.keeps_slot()), address) == live_slots(
            hashed,
            rows,
            address,
            last,
        ),
    decreases rows.len(),
{
    let keep = hashed.keeps_slot();
    let all = unrepeated(rows, last).filter(keep);
    if rows.len() == 0 {
        reveal(Seq::filter);
        assert(slots_in(all, address) =~= live_slots(hashed, rows, address, last));
    } else {
        let row = rows[0];
        let rest = rows.drop_first();
        assert forall|i: int, j: int|
            #![trigger rest[i], rest[j]]
            0 <= i < j < rest.len() implies bytes_le(rest[i].0@, rest[j].0@) by {
            assert(rest[i] == rows[i + 1]);
            assert(rest[j] == rows[j + 1]);
        }
        assert forall|i: int| 0 <= i < rest.len() implies bytes_le(
            row.0@,
            (#[trigger] rest[i]).0@,
        ) && (last matches Some(l) ==> bytes_le(l.0@, rest[i].0@)) by {
            assert(rest[i] == rows[i + 1]);
        }
        lemma_filter_first(rows, is_of(address));
        let of_address = rows_of(rows, address);
        let of_rest = rows_of(rest, address);
        if last == Some(row) {
            lemma_kept_slots(hashed, rest, last, address);
            if row.0 == address {
                assert(of_address.drop_first() =~= of_rest);
            } else {
                assert(of_address =~= of_rest);
            }
        } else {
            lemma_kept_slots(hashed, rest, Some(row), address);
            let unique = unrepeated(rows, last);
            assert(unique.drop_first() =~= unrepeated(rest, Some(row)));
            lemma_filter_first(unique, keep);
            let behind = unrepeated(rest, Some(row)).filter(keep);
            if keep(row) {
                assert(all.drop_first() =~= behind);
                lemma_filter_first(all, is_of(address));
            } else {
                assert(all =~= behind);
            }
            if row.0 == address {
                lemma_own_row(hashed, rows, address, last);
                if keep(row) {
                    assert(slots_in(all, address) =~= seq![row.1] + slots_in(behind, address));
                } else {
                    assert(slots_in(all, address) =~= slots_in(behind, address));
                    assert(Seq::<B256>::empty() + slots_in(behind, address) =~= slots_in(
                        behind,
                        address,
                    ));
                }
            } else {
                assert(of_address =~= of_rest);
                assert(slots_in(all, address) =~= slots_in(behind, address));
                lemma_last_of_no_account(hashed, rest, address, row, last);
            }
        }
    }
}

/// Whether the row before the first is one of another address or the one before that makes no
/// difference to an account.
proof fn lemma_last_of_no_account(
    hashed: Hashed,
    rows: Seq<(Address, B256)>,
    address: Address,
    row: (Address, B256),
    last: Option<(Address, B256)>,
)
    requires
        row.0 != address,
        last matches Some(l) ==> bytes_le(l.0@, row.0@),
        forall|i: int| 0 <= i < rows.len() ==> bytes_le(row.0@, (#[trigger] rows[i]).0@),
    ensures
        live_slots(hashed, rows, address, Some(row)) == live_slots(hashed, rows, address, last),
{
    let of_address = rows_of(rows, address);
    if of_address.len() > 0 {
        rows.lemma_filter_pred(is_of(address), 0);
        assert(of_address.contains(of_address[0]));
        rows.lemma_filter_contains_rev(is_of(address), of_address[0]);
        let i = choose|i: int| 0 <= i < rows.len() && rows[i] == of_address[0];
        assert(rows[i].0 == address);
        lemma_same_bytes(row.0, address);
        if let Some(l) = last {
            if l.0 == address {
                law_bytes_lt_asymmetric(row.0@, address@);
            }
        }
    }
}

/// The items of one account more.
#[verifier::spinoff_prover]
proof fn lemma_items_remove(
    addresses: Seq<Address>,
    slots: spec_fn(Address) -> Seq<B256>,
    i: int,
)
    requires
        0 <= i < addresses.len(),
    ensures
        items_with(addresses, slots).to_multiset() == account_items(
            addresses[i],
            slots(addresses[i]),
        ).to_multiset().add(items_with(addresses.remove(i), slots).to_multiset()),
    decreases addresses.len(),
{
    broadcast use vstd::multiset::group_multiset_axioms;

    let first = account_items(addresses[0], slots(addresses[0]));
    let rest = addresses.drop_first();
    vstd::seq_lib::lemma_multiset_commutative(first, items_with(rest, slots));
    if i == 0 {
        assert(addresses.remove(0) =~= rest);
    } else {
        lemma_items_remove(rest, slots, i - 1);
        assert(rest.remove(i - 1) =~= addresses.remove(i).drop_first());
        assert(addresses.remove(i)[0] == addresses[0]);
        vstd::seq_lib::lemma_multiset_commutative(first, items_with(rest.remove(i - 1), slots));
        assert(items_with(addresses, slots).to_multiset() =~= account_items(
            addresses[i],
            slots(addresses[i]),
        ).to_multiset().add(items_with(addresses.remove(i), slots).to_multiset()));
    }
}

/// Slots in another order make items in another order.
#[verifier::spinoff_prover]
proof fn lemma_slots_permuted(address: Address, a: Seq<B256>, b: Seq<B256>)
    requires
        a.to_multiset() == b.to_multiset(),
    ensures
        slot_items(address, a).to_multiset() == slot_items(address, b).to_multiset(),
    decreases a.len(),
{
    broadcast use vstd::multiset::group_multiset_axioms;
    broadcast use vstd::seq_lib::group_to_multiset_ensures;

    assert(a.len() == b.len()) by {
        a.to_multiset_ensures();
        b.to_multiset_ensures();
    }
    let x = slot_items(address, a);
    let y = slot_items(address, b);
    if a.len() > 0 {
        let last = a.last();
        assert(a.contains(last));
        assert(a.to_multiset().count(last) > 0);
        assert(b.contains(last));
        let i = choose|i: int| 0 <= i < b.len() && b[i] == last;
        assert(a.drop_last() =~= a.remove(a.len() - 1));
        assert(a.drop_last().to_multiset() =~= b.remove(i).to_multiset());
        lemma_slots_permuted(address, a.drop_last(), b.remove(i));
        let item = AccountStorageItem::StorageSlot(address, last);
        assert(x.remove(a.len() - 1) =~= slot_items(address, a.drop_last()));
        assert(y.remove(i) =~= slot_items(address, b.remove(i)));
        assert(x[a.len() - 1] == item);
        assert(y[i] == item);
        assert(x.contains(item));
        assert(y.contains(item));
        assert(x.to_multiset() =~= slot_items(address, a.drop_last()).to_multiset().insert(item));
        assert(y.to_multiset() =~= slot_items(address, b.remove(i)).to_multiset().insert(item));
    } else {
        assert(x =~= y);
    }
}

/// Accounts and slots in another order make items in another order.
#[verifier::spinoff_prover]
proof fn lemma_items_permuted(
    a: Seq<Address>,
    b: Seq<Address>,
    a_slots: spec_fn(Address) -> Seq<B256>,
    b_slots: spec_fn(Address) -> Seq<B256>,
)
    requires
        a.to_multiset() == b.to_multiset(),
        forall|address: Address|
            #![trigger a_slots(address)]
            #![trigger b_slots(address)]
            a_slots(address).to_multiset() == b_slots(address).to_multiset(),
    ensures
        items_with(a, a_slots).to_multiset() == items_with(b, b_slots).to_multiset(),
    decreases a.len(),
{
    broadcast use vstd::multiset::group_multiset_axioms;
    broadcast use vstd::seq_lib::group_to_multiset_ensures;

    assert(a.len() == b.len()) by {
        a.to_multiset_ensures();
        b.to_multiset_ensures();
    }
    if a.len() > 0 {
        let first = a[0];
        assert(a.contains(first));
        assert(a.to_multiset().count(first) > 0);
        assert(b.contains(first));
        let i = choose|i: int| 0 <= i < b.len() && b[i] == first;
        assert(a.remove(0).to_multiset() =~= b.remove(i).to_multiset());
        lemma_items_permuted(a.remove(0), b.remove(i), a_slots, b_slots);
        lemma_items_remove(a, a_slots, 0);
        lemma_items_remove(b, b_slots, i);
        assert(a_slots(first).to_multiset() == b_slots(first).to_multiset());
        lemma_slots_permuted(first, a_slots(first), b_slots(first));
        let account = seq![AccountStorageItem::Account(first)];
        vstd::seq_lib::lemma_multiset_commutative(account, slot_items(first, a_slots(first)));
        vstd::seq_lib::lemma_multiset_commutative(account, slot_items(first, b_slots(first)));
        assert(items_with(a, a_slots).to_multiset() =~= items_with(b, b_slots).to_multiset());
    }
}

/// A listing is the items of its accounts with their live slots.
pub proof fn lemma_listing_items(
    hashed: Hashed,
    rows: Seq<(Address, B256)>,
    accounts: Seq<Address>,
    slots: spec_fn(Address) -> Seq<B256>,
)
    requires
        forall|address: Address| #[trigger]
            slots(address) == live_slots(hashed, rows, address, None),
    ensures
        items_of(hashed, rows, accounts) == items_with(accounts, slots),
    decreases accounts.len(),
{
    if accounts.len() > 0 {
        lemma_listing_items(hashed, rows, accounts.drop_first(), slots);
    }
}

/// The EIP-7748 order of items: accounts by their hashes, each before its slots, and these by
/// their hashes.
pub open spec fn eip7748_order() -> spec_fn(AccountStorageItem, AccountStorageItem) -> bool {
    |a: AccountStorageItem, b: AccountStorageItem|
        if item_address(a) != item_address(b) {
            bytes_le(keccak(item_address(a)@)@, keccak(item_address(b)@)@)
        } else {
            match (a, b) {
                (AccountStorageItem::Account(_), AccountStorageItem::StorageSlot(_, _)) => true,
                (
                    AccountStorageItem::StorageSlot(_, x),
                    AccountStorageItem::StorageSlot(_, y),
                ) => bytes_le(keccak(x@)@, keccak(y@)@),
                _ => false,
            }
        }
}

/// Every item belongs to one of the accounts.
proof fn lemma_item_of_account(
    addresses: Seq<Address>,
    slots: spec_fn(Address) -> Seq<B256>,
    i: int,
)
    requires
        0 <= i < items_with(addresses, slots).len(),
    ensures
        addresses.contains(item_address(items_with(addresses, slots)[i])),
    decreases addresses.len(),
{
    let head = account_items(addresses[0], slots(addresses[0]));
    let rest = addresses.drop_first();
    let all = items_with(addresses, slots);
    if i < head.len() {
        if i > 0 {
            assert(all[i] == slot_items(addresses[0], slots(addresses[0]))[i - 1]);
        }
        assert(addresses.contains(addresses[0]));
    } else {
        let k = i - head.len();
        lemma_item_of_account(rest, slots, k);
        let address = item_address(all[i]);
        assert(all[i] == items_with(rest, slots)[k]);
        let p = choose|p: int| 0 <= p < rest.len() && rest[p] == address;
        assert(addresses[p + 1] == address);
    }
}

/// Accounts and slots that are sorted by their hashes make items in EIP-7748 order.
#[verifier::spinoff_prover]
pub proof fn law_sorted_items_are_ordered(
    addresses: Seq<Address>,
    slots: spec_fn(Address) -> Seq<B256>,
)
    requires
        addresses.no_duplicates(),
        sorted_by_keccak(addresses),
        forall|address: Address| sorted_by_keccak(#[trigger] slots(address)),
    ensures
        ascending(items_with(addresses, slots), eip7748_order()),
    decreases addresses.len(),
{
    if addresses.len() > 0 {
        let first = addresses[0];
        let rest = addresses.drop_first();
        let own = slots(first);
        let head = account_items(first, own);
        let tail = items_with(rest, slots);
        let all = items_with(addresses, slots);
        assert forall|i: int, j: int|
            #![trigger rest[i], rest[j]]
            0 <= i < j < rest.len() implies bytes_le(keccak(rest[i]@)@, keccak(rest[j]@)@) by {
            assert(rest[i] == addresses[i + 1]);
            assert(rest[j] == addresses[j + 1]);
        }
        law_sorted_items_are_ordered(rest, slots);
        assert forall|i: int, j: int|
            #![trigger all[i], all[j]]
            0 <= i < j < all.len() implies eip7748_order()(all[i], all[j]) by {
            if i >= head.len() {
                assert(all[i] == tail[i - head.len()]);
                assert(all[j] == tail[j - head.len()]);
            } else if j < head.len() {
                assert(all[j] == slot_items(first, own)[j - 1]);
                if i > 0 {
                    assert(all[i] == slot_items(first, own)[i - 1]);
                    assert(bytes_le(keccak(own[i - 1]@)@, keccak(own[j - 1]@)@));
                }
            } else {
                assert(item_address(all[i]) == first) by {
                    if i > 0 {
                        assert(all[i] == slot_items(first, own)[i - 1]);
                    }
                }
                assert(all[j] == tail[j - head.len()]);
                lemma_item_of_account(rest, slots, j - head.len());
                let k = choose|k: int| 0 <= k < rest.len() && rest[k] == item_address(all[j]);
                assert(addresses[k + 1] == rest[k]);
                assert(bytes_le(keccak(addresses[0]@)@, keccak(addresses[k + 1]@)@));
            }
        }
    }
}

/// Over tables in key order, the EIP-7748 listing holds exactly the items of the plain listing,
/// each as often, and stands in EIP-7748 order. The listing is that of the accounts and slots that
/// a scan found, each sorted by its hash.
#[verifier::spinoff_prover]
pub proof fn law_eip7748_listing<E>(
    history: History,
    hashed: Hashed,
    lookups: Lookups<E>,
    within: nat,
    scan: ScanState,
    addresses: Seq<Address>,
    slots: spec_fn(Address) -> Seq<B256>,
)
    requires
        key_ordered(history.accounts, address_order()),
        key_ordered(history.storages, row_order()),
        lookups.tells(hashed),
        lookups.accounts_found(),
        lookups.slots_found(),
        within >= 2 * history.accounts.len() + 2 * history.storages.len() + 2,
        ScanRun::start(history.rows()).ended(lookups, within) == Some(Ok::<ScanState, E>(scan)),
        addresses.to_multiset() == scan.accounts.to_multiset(),
        sorted_by_keccak(addresses),
        forall|address: Address|
            #![trigger slots(address)]
            {
                &&& slots(address).to_multiset() == slots_in(scan.rows, address).to_multiset()
                &&& sorted_by_keccak(slots(address))
            },
    ensures
        items_with(addresses, slots).to_multiset() == listing(history, hashed).to_multiset(),
        ascending(items_with(addresses, slots), eip7748_order()),
{
    let rows = history.storages;
    let accounts = live_accounts(hashed, history.accounts, None);
    law_key_order_groups_addresses(history);
    law_lookups_show_tables(lookups, hashed);
    lemma_all_read::<Address, E>(history.accounts);
    lemma_all_read::<(Address, B256), E>(rows);
    lemma_no_scan_failure(lookups, history);
    law_scan_finds_live_items(history.rows(), lookups, within);
    let plain_slots = |address: Address| live_slots(hashed, rows, address, None);
    assert forall|address: Address|
        #![trigger slots(address)]
        #![trigger plain_slots(address)]
        slots(address).to_multiset() == plain_slots(address).to_multiset() by {
        lemma_kept_slots(hashed, rows, None, address);
        assert(slots(address).to_multiset() == slots_in(scan.rows, address).to_multiset());
    }
    lemma_items_permuted(addresses, accounts, slots, plain_slots);
    lemma_listing_items(hashed, rows, accounts, plain_slots);
    assert(addresses.no_duplicates()) by {
        lemma_accounts_ascending(hashed, history.accounts);
        lemma_permuted_distinct(addresses, accounts);
    }
    law_sorted_items_are_ordered(addresses, slots);
}

proof fn lemma_permuted_distinct(a: Seq<Address>, b: Seq<Address>)
    requires
        a.to_multiset() == b.to_multiset(),
        ascending(b, address_order()),
    ensures
        a.no_duplicates(),
{
    assert(b.no_duplicates()) by {
        assert forall|i: int, j: int|
            0 <= i < b.len() && 0 <= j < b.len() && i != j implies b[i] != b[j] by {
            law_bytes_lt_irreflexive(b[i]@);
            if i < j {
                assert(address_order()(b[i], b[j]));
            } else {
                assert(address_order()(b[j], b[i]));
            }
        }
    }
    b.lemma_multiset_has_no_duplicates();
    assert forall|x: Address| a.to_multiset().contains(x) implies a.to_multiset().count(x) == 1 by {
    }
    a.lemma_multiset_has_no_duplicates_conv();
}

} // verus!
