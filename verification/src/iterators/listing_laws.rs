//! Which items a listing holds, and in which order.

use crate::bytes::{
    bytes_le, bytes_lt, law_bytes_lt_irreflexive, law_bytes_lt_transitive, Address, B256,
};
use crate::iterators::listing::{
    accounts_sorted, is_of, items_of, lemma_filter_first, listing, live_accounts, live_slots,
    rows_of, storages_grouped, unrepeated, Hashed, History,
};
use crate::iterators::{account_items, slot_items, AccountStorageItem};
use vstd::prelude::*;

verus! {

/// Each row stands in the relation to every later one.
pub open spec fn ascending<T>(rows: Seq<T>, before: spec_fn(T, T) -> bool) -> bool {
    forall|i: int, j: int|
        #![trigger rows[i], rows[j]]
        0 <= i < j < rows.len() ==> before(rows[i], rows[j])
}

/// The order of addresses.
pub open spec fn address_order() -> spec_fn(Address, Address) -> bool {
    |a: Address, b: Address| bytes_lt(a@, b@)
}

/// The order of storage rows: by address, and by slot within one address.
pub open spec fn row_order() -> spec_fn((Address, B256), (Address, B256)) -> bool {
    |a: (Address, B256), b: (Address, B256)|
        bytes_lt(a.0@, b.0@) || (a.0 == b.0 && bytes_lt(a.1@, b.1@))
}

/// The rows are in ascending order, where equal rows may follow each other.
pub open spec fn key_ordered<T>(rows: Seq<T>, before: spec_fn(T, T) -> bool) -> bool {
    forall|i: int, j: int|
        #![trigger rows[i], rows[j]]
        0 <= i < j < rows.len() ==> rows[i] == rows[j] || before(rows[i], rows[j])
}

/// The account that an item belongs to.
pub open spec fn item_address(item: AccountStorageItem) -> Address {
    match item {
        AccountStorageItem::Account(address) => address,
        AccountStorageItem::StorageSlot(address, _) => address,
    }
}

/// The plain order of items: by address, the account before its slots, and these by slot key.
pub open spec fn plain_order() -> spec_fn(AccountStorageItem, AccountStorageItem) -> bool {
    |a: AccountStorageItem, b: AccountStorageItem|
        {
            ||| bytes_lt(item_address(a)@, item_address(b)@)
            ||| item_address(a) == item_address(b) && match (a, b) {
                (AccountStorageItem::Account(_), AccountStorageItem::StorageSlot(_, _)) => true,
                (
                    AccountStorageItem::StorageSlot(_, x),
                    AccountStorageItem::StorageSlot(_, y),
                ) => bytes_lt(x@, y@),
                _ => false,
            }
        }
}

proof fn lemma_filter_ascending<T>(
    rows: Seq<T>,
    keep: spec_fn(T) -> bool,
    before: spec_fn(T, T) -> bool,
)
    requires
        ascending(rows, before),
    ensures
        ascending(rows.filter(keep), before),
    decreases rows.len(),
{
    let kept = rows.filter(keep);
    if rows.len() == 0 {
        reveal(Seq::filter);
    } else {
        let rest = rows.drop_first();
        assert forall|i: int, j: int|
            #![trigger rest[i], rest[j]]
            0 <= i < j < rest.len() implies before(rest[i], rest[j]) by {
            assert(rest[i] == rows[i + 1]);
            assert(rest[j] == rows[j + 1]);
        }
        lemma_filter_ascending(rest, keep, before);
        lemma_filter_first(rows, keep);
        let behind = rest.filter(keep);
        assert forall|i: int, j: int|
            #![trigger kept[i], kept[j]]
            0 <= i < j < kept.len() implies before(kept[i], kept[j]) by {
            if keep(rows[0]) {
                assert(kept[j] == behind[j - 1]);
                if i == 0 {
                    rest.lemma_filter_contains_rev(keep, behind[j - 1]);
                    let k = choose|k: int| 0 <= k < rest.len() && rest[k] == behind[j - 1];
                    assert(rest[k] == rows[k + 1]);
                    assert(before(rows[0], rows[k + 1]));
                } else {
                    assert(kept[i] == behind[i - 1]);
                }
            } else {
                assert(kept =~= behind);
            }
        }
    }
}

/// Rows in order that do not repeat stand in strictly ascending order.
proof fn lemma_unrepeated_ascending<T>(
    rows: Seq<T>,
    last: Option<T>,
    before: spec_fn(T, T) -> bool,
)
    requires
        key_ordered(rows, before),
        last matches Some(l) ==> forall|i: int|
            0 <= i < rows.len() ==> l == #[trigger] rows[i] || before(l, rows[i]),
        forall|x: T, y: T, z: T| #[trigger]
            before(x, y) && #[trigger] before(y, z) ==> before(x, z),
    ensures
        ascending(unrepeated(rows, last), before),
        last matches Some(l) ==> forall|i: int|
            0 <= i < unrepeated(rows, last).len() ==> before(l, #[trigger] unrepeated(rows, last)[i]),
    decreases rows.len(),
{
    if rows.len() > 0 {
        let rest = rows.drop_first();
        assert forall|i: int, j: int|
            #![trigger rest[i], rest[j]]
            0 <= i < j < rest.len() implies rest[i] == rest[j] || before(rest[i], rest[j]) by {
            assert(rest[i] == rows[i + 1]);
            assert(rest[j] == rows[j + 1]);
        }
        assert forall|i: int| 0 <= i < rest.len() implies rows[0] == #[trigger] rest[i] || before(
            rows[0],
            rest[i],
        ) by {
            assert(rest[i] == rows[i + 1]);
        }
        if last == Some(rows[0]) {
            lemma_unrepeated_ascending(rest, last, before);
        } else {
            lemma_unrepeated_ascending(rest, Some(rows[0]), before);
            let behind = unrepeated(rest, Some(rows[0]));
            let all = unrepeated(rows, last);
            assert forall|i: int, j: int|
                #![trigger all[i], all[j]]
                0 <= i < j < all.len() implies before(all[i], all[j]) by {
                assert(all[j] == behind[j - 1]);
                if i > 0 {
                    assert(all[i] == behind[i - 1]);
                }
            }
            if let Some(l) = last {
                assert forall|i: int| 0 <= i < all.len() implies before(l, #[trigger] all[i]) by {
                    assert(before(l, rows[0]));
                    if i > 0 {
                        assert(all[i] == behind[i - 1]);
                        assert(before(rows[0], behind[i - 1]));
                    }
                }
            }
        }
    }
}

/// Leaving repeated rows out loses none.
pub proof fn lemma_unrepeated_contains<T>(rows: Seq<T>, last: Option<T>, row: T)
    ensures
        unrepeated(rows, last).contains(row) ==> rows.contains(row),
        rows.contains(row) ==> unrepeated(rows, last).contains(row) || last == Some(row),
    decreases rows.len(),
{
    if rows.len() > 0 {
        let rest = rows.drop_first();
        assert(rows.contains(row) ==> row == rows[0] || rest.contains(row)) by {
            if rows.contains(row) && row != rows[0] {
                let i = choose|i: int| 0 <= i < rows.len() && rows[i] == row;
                assert(rest[i - 1] == row);
            }
        }
        assert(rest.contains(row) ==> rows.contains(row)) by {
            if rest.contains(row) {
                let i = choose|i: int| 0 <= i < rest.len() && rest[i] == row;
                assert(rows[i + 1] == row);
            }
        }
        assert(rows.contains(rows[0]));
        if last == Some(rows[0]) {
            lemma_unrepeated_contains(rest, last, row);
        } else {
            lemma_unrepeated_contains(rest, Some(rows[0]), row);
            let behind = unrepeated(rest, Some(rows[0]));
            let all = unrepeated(rows, last);
            assert(all[0] == rows[0]);
            assert(all.contains(row) ==> row == rows[0] || behind.contains(row)) by {
                if all.contains(row) && row != rows[0] {
                    let i = choose|i: int| 0 <= i < all.len() && all[i] == row;
                    assert(behind[i - 1] == row);
                }
            }
            assert(behind.contains(row) ==> all.contains(row)) by {
                if behind.contains(row) {
                    let i = choose|i: int| 0 <= i < behind.len() && behind[i] == row;
                    assert(all[i + 1] == row);
                }
            }
            if row == rows[0] {
                assert(all.contains(all[0]));
            }
        }
    }
}

pub proof fn lemma_filter_contains<T>(rows: Seq<T>, keep: spec_fn(T) -> bool, row: T)
    ensures
        rows.filter(keep).contains(row) <==> rows.contains(row) && keep(row),
{
    if rows.filter(keep).contains(row) {
        rows.lemma_filter_contains_rev(keep, row);
        let i = choose|i: int| 0 <= i < rows.filter(keep).len() && rows.filter(keep)[i] == row;
        rows.lemma_filter_pred(keep, i);
    }
    if rows.contains(row) && keep(row) {
        let i = choose|i: int| 0 <= i < rows.len() && rows[i] == row;
        rows.lemma_filter_contains(keep, i);
    }
}

/// The accounts that are listed are the live ones of the rows.
pub proof fn law_live_accounts(hashed: Hashed, rows: Seq<Address>, address: Address)
    ensures
        live_accounts(hashed, rows, None).contains(address) <==> rows.contains(address)
            && hashed.live_account(address),
{
    lemma_unrepeated_contains(rows, None, address);
    lemma_filter_contains(unrepeated(rows, None), hashed.keeps_account(), address);
}

/// The slots that are listed of an account are the live ones of its rows.
pub proof fn law_live_slots(
    hashed: Hashed,
    rows: Seq<(Address, B256)>,
    address: Address,
    slot: B256,
)
    ensures
        live_slots(hashed, rows, address, None).contains(slot) <==> rows.contains((address, slot))
            && hashed.live_slot((address, slot)),
{
    let of_address = rows_of(rows, address);
    let kept = unrepeated(of_address, None).filter(hashed.keeps_slot());
    let slots = live_slots(hashed, rows, address, None);
    let row = (address, slot);
    lemma_filter_contains(rows, is_of(address), row);
    lemma_unrepeated_contains(of_address, None, row);
    lemma_filter_contains(unrepeated(of_address, None), hashed.keeps_slot(), row);
    if kept.contains(row) {
        let i = choose|i: int| 0 <= i < kept.len() && kept[i] == row;
        assert(slots[i] == slot);
    }
    if slots.contains(slot) {
        let i = choose|i: int| 0 <= i < slots.len() && slots[i] == slot;
        let found = kept[i];
        assert(kept.contains(found));
        lemma_filter_contains(unrepeated(of_address, None), hashed.keeps_slot(), found);
        lemma_unrepeated_contains(of_address, None, found);
        lemma_filter_contains(rows, is_of(address), found);
        assert(found == row);
    }
}

/// The items of some accounts are these accounts and their live slots.
proof fn lemma_items_contain(
    hashed: Hashed,
    rows: Seq<(Address, B256)>,
    accounts: Seq<Address>,
    item: AccountStorageItem,
)
    ensures
        items_of(hashed, rows, accounts).contains(item) <==> accounts.contains(item_address(item))
            && match item {
            AccountStorageItem::Account(_) => true,
            AccountStorageItem::StorageSlot(address, slot) => live_slots(
                hashed,
                rows,
                address,
                None,
            ).contains(slot),
        },
    decreases accounts.len(),
{
    if accounts.len() > 0 {
        let first = accounts[0];
        let rest = accounts.drop_first();
        let slots = live_slots(hashed, rows, first, None);
        let head = account_items(first, slots);
        let tail = items_of(hashed, rows, rest);
        let all = items_of(hashed, rows, accounts);
        lemma_items_contain(hashed, rows, rest, item);
        assert(all =~= head + tail);
        assert(all.contains(item) <==> head.contains(item) || tail.contains(item)) by {
            if all.contains(item) {
                let i = choose|i: int| 0 <= i < all.len() && all[i] == item;
                if i < head.len() {
                    assert(head[i] == item);
                } else {
                    assert(tail[i - head.len()] == item);
                }
            }
            if head.contains(item) {
                let i = choose|i: int| 0 <= i < head.len() && head[i] == item;
                assert(all[i] == item);
            }
            if tail.contains(item) {
                let i = choose|i: int| 0 <= i < tail.len() && tail[i] == item;
                assert(all[i + head.len()] == item);
            }
        }
        let here = item_address(item) == first && match item {
            AccountStorageItem::Account(_) => true,
            AccountStorageItem::StorageSlot(_, slot) => slots.contains(slot),
        };
        assert(head.contains(item) <==> here) by {
            if head.contains(item) {
                let i = choose|i: int| 0 <= i < head.len() && head[i] == item;
                if i > 0 {
                    assert(head[i] == slot_items(first, slots)[i - 1]);
                    assert(slots.contains(slots[i - 1]));
                }
            }
            if here {
                match item {
                    AccountStorageItem::Account(_) => {
                        assert(head[0] == item);
                    },
                    AccountStorageItem::StorageSlot(_, slot) => {
                        let i = choose|i: int| 0 <= i < slots.len() && slots[i] == slot;
                        assert(head[i + 1] == slot_items(first, slots)[i]);
                        assert(head[i + 1] == item);
                    },
                }
            }
        }
        let address = item_address(item);
        assert(accounts.contains(address) <==> address == first || rest.contains(address)) by {
            if accounts.contains(address) && address != first {
                let i = choose|i: int| 0 <= i < accounts.len() && accounts[i] == address;
                assert(rest[i - 1] == address);
            }
            if rest.contains(address) {
                let i = choose|i: int| 0 <= i < rest.len() && rest[i] == address;
                assert(accounts[i + 1] == address);
            }
            assert(accounts.contains(accounts[0]));
        }
    }
}

/// A listing holds exactly the live accounts of the account history, and of each of them exactly
/// the live slots of the storage history.
pub proof fn law_listing_is_complete(history: History, hashed: Hashed, item: AccountStorageItem)
    ensures
        listing(history, hashed).contains(item) <==> {
            &&& history.accounts.contains(item_address(item))
            &&& hashed.live_account(item_address(item))
            &&& item matches AccountStorageItem::StorageSlot(address, slot) ==> {
                &&& history.storages.contains((address, slot))
                &&& hashed.live_slot((address, slot))
            }
        },
{
    let accounts = live_accounts(hashed, history.accounts, None);
    law_live_accounts(hashed, history.accounts, item_address(item));
    if let AccountStorageItem::StorageSlot(address, slot) = item {
        law_live_slots(hashed, history.storages, address, slot);
    }
    lemma_items_contain(hashed, history.storages, accounts, item);
}

/// The slots of an account whose rows are ordered stand in ascending order.
proof fn lemma_slots_ascending(hashed: Hashed, rows: Seq<(Address, B256)>, address: Address)
    requires
        key_ordered(rows, row_order()),
    ensures
        forall|i: int, j: int|
            #![trigger live_slots(hashed, rows, address, None)[i], live_slots(hashed, rows, address, None)[j]]
            0 <= i < j < live_slots(hashed, rows, address, None).len() ==> bytes_lt(
                live_slots(hashed, rows, address, None)[i]@,
                live_slots(hashed, rows, address, None)[j]@,
            ),
{
    let of_address = rows_of(rows, address);
    lemma_filter_key_ordered(rows, is_of(address), row_order());
    lemma_row_order_transitive();
    lemma_unrepeated_ascending(of_address, None, row_order());
    let unique = unrepeated(of_address, None);
    lemma_filter_ascending(unique, hashed.keeps_slot(), row_order());
    let kept = unique.filter(hashed.keeps_slot());
    let slots = live_slots(hashed, rows, address, None);
    assert forall|i: int| 0 <= i < kept.len() implies (#[trigger] kept[i]).0 == address by {
        assert(kept.contains(kept[i]));
        lemma_filter_contains(unique, hashed.keeps_slot(), kept[i]);
        lemma_unrepeated_contains(of_address, None, kept[i]);
        lemma_filter_contains(rows, is_of(address), kept[i]);
    }
    assert forall|i: int, j: int|
        #![trigger slots[i], slots[j]]
        0 <= i < j < slots.len() implies bytes_lt(slots[i]@, slots[j]@) by {
        assert(row_order()(kept[i], kept[j]));
        law_bytes_lt_irreflexive(address@);
    }
}

proof fn lemma_row_order_transitive()
    ensures
        forall|x: (Address, B256), y: (Address, B256), z: (Address, B256)| #[trigger]
            row_order()(x, y) && #[trigger] row_order()(y, z) ==> row_order()(x, z),
{
    assert forall|x: (Address, B256), y: (Address, B256), z: (Address, B256)| #[trigger]
        row_order()(x, y) && #[trigger] row_order()(y, z) implies row_order()(x, z) by {
        if x.0 == y.0 && y.0 == z.0 {
            law_bytes_lt_transitive(x.1@, y.1@, z.1@);
        } else if x.0 != y.0 && y.0 != z.0 {
            law_bytes_lt_transitive(x.0@, y.0@, z.0@);
        } else if x.0 == y.0 {
            law_bytes_lt_irreflexive(x.0@);
        } else {
            law_bytes_lt_irreflexive(y.0@);
        }
    }
}

proof fn lemma_filter_key_ordered<T>(
    rows: Seq<T>,
    keep: spec_fn(T) -> bool,
    before: spec_fn(T, T) -> bool,
)
    requires
        key_ordered(rows, before),
    ensures
        key_ordered(rows.filter(keep), before),
{
    let reflexive = |x: T, y: T| x == y || before(x, y);
    lemma_filter_ascending(rows, keep, reflexive);
    let kept = rows.filter(keep);
    assert forall|i: int, j: int|
        #![trigger kept[i], kept[j]]
        0 <= i < j < kept.len() implies kept[i] == kept[j] || before(kept[i], kept[j]) by {
        assert(reflexive(kept[i], kept[j]));
    }
}

proof fn lemma_items_ascending(
    hashed: Hashed,
    rows: Seq<(Address, B256)>,
    accounts: Seq<Address>,
)
    requires
        ascending(accounts, address_order()),
        key_ordered(rows, row_order()),
    ensures
        ascending(items_of(hashed, rows, accounts), plain_order()),
    decreases accounts.len(),
{
    if accounts.len() > 0 {
        let first = accounts[0];
        let rest = accounts.drop_first();
        let slots = live_slots(hashed, rows, first, None);
        let head = account_items(first, slots);
        let tail = items_of(hashed, rows, rest);
        let all = items_of(hashed, rows, accounts);
        assert forall|i: int, j: int|
            #![trigger rest[i], rest[j]]
            0 <= i < j < rest.len() implies address_order()(rest[i], rest[j]) by {
            assert(rest[i] == accounts[i + 1]);
            assert(rest[j] == accounts[j + 1]);
        }
        lemma_items_ascending(hashed, rows, rest);
        lemma_slots_ascending(hashed, rows, first);
        assert forall|i: int, j: int|
            #![trigger all[i], all[j]]
            0 <= i < j < all.len() implies plain_order()(all[i], all[j]) by {
            if i >= head.len() {
                assert(all[i] == tail[i - head.len()]);
                assert(all[j] == tail[j - head.len()]);
            } else if j < head.len() {
                assert(all[j] == slot_items(first, slots)[j - 1]);
                if i > 0 {
                    assert(all[i] == slot_items(first, slots)[i - 1]);
                    assert(bytes_lt(slots[i - 1]@, slots[j - 1]@));
                }
            } else {
                assert(item_address(all[i]) == first) by {
                    if i > 0 {
                        assert(all[i] == slot_items(first, slots)[i - 1]);
                    }
                }
                assert(all[j] == tail[j - head.len()]);
                assert(tail.contains(all[j]));
                lemma_items_contain(hashed, rows, rest, all[j]);
                let k = choose|k: int|
                    0 <= k < rest.len() && rest[k] == item_address(all[j]);
                assert(rest[k] == accounts[k + 1]);
                assert(address_order()(accounts[0], accounts[k + 1]));
            }
        }
    }
}

/// Over tables in key order a listing is in plain order, strictly: accounts by address, each
/// before its slots, and these by slot key. So no item occurs twice.
pub proof fn law_listing_is_ordered(history: History, hashed: Hashed)
    requires
        key_ordered(history.accounts, address_order()),
        key_ordered(history.storages, row_order()),
    ensures
        ascending(listing(history, hashed), plain_order()),
{
    lemma_accounts_ascending(hashed, history.accounts);
    lemma_items_ascending(
        hashed,
        history.storages,
        live_accounts(hashed, history.accounts, None),
    );
}

/// The accounts that are listed of rows in key order stand in strictly ascending order.
pub proof fn lemma_accounts_ascending(hashed: Hashed, rows: Seq<Address>)
    requires
        key_ordered(rows, address_order()),
    ensures
        ascending(live_accounts(hashed, rows, None), address_order()),
{
    assert forall|x: Address, y: Address, z: Address| #[trigger]
        address_order()(x, y) && #[trigger] address_order()(y, z) implies address_order()(x, z) by {
        law_bytes_lt_transitive(x@, y@, z@);
    }
    lemma_unrepeated_ascending(rows, None, address_order());
    lemma_filter_ascending(unrepeated(rows, None), hashed.keeps_account(), address_order());
}

/// Tables in key order are ordered by address.
pub proof fn law_key_order_groups_addresses(history: History)
    requires
        key_ordered(history.accounts, address_order()),
        key_ordered(history.storages, row_order()),
    ensures
        accounts_sorted(history.accounts),
        storages_grouped(history.storages),
{
    assert forall|i: int, j: int|
        #![trigger history.accounts[i], history.accounts[j]]
        0 <= i < j < history.accounts.len() implies bytes_le(
        history.accounts[i]@,
        history.accounts[j]@,
    ) by {
        if history.accounts[i] != history.accounts[j] {
            assert(address_order()(history.accounts[i], history.accounts[j]));
        }
    }
    assert forall|i: int, j: int|
        #![trigger history.storages[i], history.storages[j]]
        0 <= i < j < history.storages.len() implies bytes_le(
        history.storages[i].0@,
        history.storages[j].0@,
    ) by {
        if history.storages[i] != history.storages[j] {
            assert(row_order()(history.storages[i], history.storages[j]));
        }
    }
}

} // verus!
