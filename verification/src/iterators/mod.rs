//! The items that a listing of the state yields, and the two orders of listing them.

use crate::bytes::{Address, B256};
use vstd::prelude::*;

pub mod eip7748;
pub mod eip7748_order;
pub mod eip7748_scan;
pub mod eip7748_scan_laws;
pub mod failing;
pub mod failing_counts;
pub mod failing_laws;
pub mod listing;
pub mod listing_laws;
pub mod listing_rows;
pub mod operations;
pub mod plain;
pub mod plain_laws;
pub mod plain_order;
pub mod run_laws;
pub mod scan_run_laws;
pub mod state_laws;
pub mod step_laws;

verus! {

/// One item of a listing.
#[derive(Clone, Copy, Debug, PartialEq, Eq)]
pub enum AccountStorageItem {
    /// A live account.
    Account(Address),
    /// A live storage slot, behind the account that holds it.
    StorageSlot(Address, B256),
}

/// The items of one account: the account itself, and then its storage slots.
pub open spec fn account_items(address: Address, slots: Seq<B256>) -> Seq<AccountStorageItem> {
    seq![AccountStorageItem::Account(address)] + slot_items(address, slots)
}

/// The items of some storage slots of one account.
pub open spec fn slot_items(address: Address, slots: Seq<B256>) -> Seq<AccountStorageItem> {
    slots.map_values(|slot: B256| AccountStorageItem::StorageSlot(address, slot))
}

/// The items of some accounts, each followed by its slots.
pub open spec fn items_with(
    addresses: Seq<Address>,
    slots: spec_fn(Address) -> Seq<B256>,
) -> Seq<AccountStorageItem>
    decreases addresses.len(),
{
    if addresses.len() == 0 {
        Seq::empty()
    } else {
        account_items(addresses[0], slots(addresses[0])) + items_with(addresses.drop_first(), slots)
    }
}

} // verus!
