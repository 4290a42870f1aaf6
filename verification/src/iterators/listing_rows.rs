//! Which rows make no difference to a listing.

use crate::bytes::{Address, B256};
use crate::iterators::eip7748_order::{lemma_kept_slots, lemma_listing_items};
use crate::iterators::listing::{
    is_of, items_of, lemma_filter_first, listing, live_accounts, live_slots, rows_of, unrepeated,
    Hashed, History,
};
use crate::iterators::listing_laws::{
    address_order, key_ordered, law_key_order_groups_addresses, law_live_accounts, row_order,
};
use vstd::prelude::*;

verus! {

/// In how many rows the history of an account or slot is sharded makes no difference: histories in
/// key order that hold the same rows, but for repeated ones, have the same listing.
pub proof fn law_shards_do_not_count(a: History, b: History, hashed: Hashed)
    requires
        key_ordered(a.accounts, address_order()),
        key_ordered(a.storages, row_order()),
        key_ordered(b.accounts, address_order()),
        key_ordered(b.storages, row_order()),
        unrepeated(a.accounts, None) == unrepeated(b.accounts, None),
        unrepeated(a.storages, None) == unrepeated(b.storages, None),
    ensures
        listing(a, hashed) == listing(b, hashed),
{
    law_key_order_groups_addresses(a);
    law_key_order_groups_addresses(b);
    let accounts = live_accounts(hashed, a.accounts, None);
    let slots = |address: Address| live_slots(hashed, a.storages, address, None);
    assert forall|address: Address| #[trigger]
        slots(address) == live_slots(hashed, b.storages, address, None) by {
        lemma_kept_slots(hashed, a.storages, None, address);
        lemma_kept_slots(hashed, b.storages, None, address);
    }
    lemma_listing_items(hashed, a.storages, accounts, slots);
    lemma_listing_items(hashed, b.storages, accounts, slots);
}

/// The rows of every other address.
pub open spec fn is_not_of(address: Address) -> spec_fn((Address, B256)) -> bool {
    |row: (Address, B256)| row.0 != address
}

/// Without the rows of one address, those of another are the same.
proof fn lemma_rows_without(rows: Seq<(Address, B256)>, address: Address, other: Address)
    requires
        other != address,
    ensures
        rows_of(rows.filter(is_not_of(address)), other) == rows_of(rows, other),
    decreases rows.len(),
{
    let left = rows.filter(is_not_of(address));
    if rows.len() == 0 {
        reveal(Seq::filter);
    } else {
        let rest = rows.drop_first();
        lemma_rows_without(rest, address, other);
        lemma_filter_first(rows, is_not_of(address));
        lemma_filter_first(rows, is_of(other));
        if rows[0].0 != address {
            assert(left[0] == rows[0]);
            assert(left.drop_first() =~= rest.filter(is_not_of(address)));
            lemma_filter_first(left, is_of(other));
        } else {
            assert(left =~= rest.filter(is_not_of(address)));
            assert(rows_of(rows, other) =~= rows_of(rest, other));
        }
    }
}

proof fn lemma_items_without(
    hashed: Hashed,
    rows: Seq<(Address, B256)>,
    accounts: Seq<Address>,
    address: Address,
)
    requires
        !accounts.contains(address),
    ensures
        items_of(hashed, rows.filter(is_not_of(address)), accounts) == items_of(
            hashed,
            rows,
            accounts,
        ),
    decreases accounts.len(),
{
    if accounts.len() > 0 {
        let rest = accounts.drop_first();
        assert(accounts.contains(accounts[0]));
        assert(!rest.contains(address)) by {
            if rest.contains(address) {
                let i = choose|i: int| 0 <= i < rest.len() && rest[i] == address;
                assert(accounts[i + 1] == address);
            }
        }
        lemma_rows_without(rows, address, accounts[0]);
        lemma_items_without(hashed, rows, rest, address);
    }
}

/// The storage rows of an address that has no row in the account history, or is not live, make no
/// difference.
pub proof fn law_rows_of_dead_accounts_do_not_count(
    history: History,
    hashed: Hashed,
    address: Address,
)
    requires
        !history.accounts.contains(address) || !hashed.live_account(address),
    ensures
        listing(
            History { storages: history.storages.filter(is_not_of(address)), ..history },
            hashed,
        ) == listing(history, hashed),
{
    law_live_accounts(hashed, history.accounts, address);
    lemma_items_without(
        hashed,
        history.storages,
        live_accounts(hashed, history.accounts, None),
        address,
    );
}

} // verus!
