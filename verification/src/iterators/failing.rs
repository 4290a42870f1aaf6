//! What a listing hands out where rows cannot be read or lookups fail.

use crate::bytes::{bytes_lt, Address, B256};
use crate::hashing::keccak;
use crate::iterators::listing::{law_exact_entry_is_live, Hashed, History};
use crate::iterators::AccountStorageItem;
use vstd::prelude::*;

verus! {

/// The rows of the two history tables, in the order in which they are read; some may fail.
pub struct Rows<E> {
    pub accounts: Seq<Result<Address, E>>,
    pub storages: Seq<Result<(Address, B256), E>>,
}

/// What comes of looking up a key in the two hashed tables; some lookups may fail.
#[verifier::reject_recursive_types(E)]
pub struct Lookups<E> {
    /// Whether an account's hash is found.
    pub account: spec_fn(B256) -> Result<bool, E>,
    /// Under an account's hash, the first entry whose slot hash is not less than the given one.
    pub slot: spec_fn(B256, B256) -> Result<Option<B256>, E>,
}

/// What was read without an error.
pub open spec fn successes<T, E>(results: Seq<Result<T, E>>) -> Seq<T>
    decreases results.len(),
{
    if results.len() == 0 {
        Seq::empty()
    } else {
        match results[0] {
            Ok(value) => seq![value] + successes(results.drop_first()),
            Err(_) => successes(results.drop_first()),
        }
    }
}

/// The errors.
pub open spec fn failures<T, E>(results: Seq<Result<T, E>>) -> Seq<E>
    decreases results.len(),
{
    if results.len() == 0 {
        Seq::empty()
    } else {
        match results[0] {
            Ok(_) => failures(results.drop_first()),
            Err(e) => seq![e] + failures(results.drop_first()),
        }
    }
}

/// Results that are all successes.
pub open spec fn all_read<T, E>(values: Seq<T>) -> Seq<Result<T, E>> {
    values.map_values(|value: T| Ok::<T, E>(value))
}

impl<E> Rows<E> {
    /// The rows that can be read.
    pub open spec fn readable(self) -> History {
        History { accounts: successes(self.accounts), storages: successes(self.storages) }
    }
}

impl History {
    /// Rows that can all be read.
    pub open spec fn rows<E>(self) -> Rows<E> {
        Rows { accounts: all_read(self.accounts), storages: all_read(self.storages) }
    }
}

impl<E> Lookups<E> {
    /// What the lookup of an account's hash gives.
    pub open spec fn of_account(self, address: Address) -> Result<bool, E> {
        (self.account)(keccak(address@))
    }

    /// What the lookup of a slot's hash gives.
    pub open spec fn of_slot(self, row: (Address, B256)) -> Result<Option<B256>, E> {
        (self.slot)(keccak(row.0@), keccak(row.1@))
    }

    /// The tables as the lookups show them: what cannot be looked up is not there.
    pub open spec fn shown(self) -> Hashed {
        Hashed {
            accounts: Set::new(|hash: B256| (self.account)(hash) == Ok::<bool, E>(true)),
            storages: Set::new(
                |hashes: (B256, B256)|
                    (self.slot)(hashes.0, hashes.1) == Ok::<Option<B256>, E>(Some(hashes.1)),
            ),
        }
    }

    /// A lookup that does not fail tells what the tables hold.
    pub open spec fn tells(self, hashed: Hashed) -> bool {
        &&& forall|hash: B256|
            #![trigger (self.account)(hash)]
            (self.account)(hash) matches Ok(found) ==> found == hashed.accounts.contains(hash)
        &&& forall|account: B256, slot: B256|
            #![trigger (self.slot)(account, slot)]
            (self.slot)(account, slot) matches Ok(entry) ==> hashed.finds(account, slot, entry)
    }

    /// No lookup of an account fails.
    pub open spec fn accounts_found(self) -> bool {
        forall|hash: B256| #[trigger] (self.account)(hash) is Ok
    }

    /// No lookup of a slot fails.
    pub open spec fn slots_found(self) -> bool {
        forall|account: B256, slot: B256| #[trigger] (self.slot)(account, slot) is Ok
    }
}

/// The entries of one account: the rows are gone through up to the first one of a larger address.
/// A row of the account that does not repeat the one before it is looked up, and listed where it
/// is live. A row that cannot be read, and a lookup that fails, is an entry too. `last` is the
/// last row of the account before the first.
pub open spec fn slot_entries<E>(
    lookups: Lookups<E>,
    rows: Seq<Result<(Address, B256), E>>,
    address: Address,
    last: Option<(Address, B256)>,
) -> Seq<Result<AccountStorageItem, E>>
    decreases rows.len(),
{
    if rows.len() == 0 {
        Seq::empty()
    } else {
        let rest = rows.drop_first();
        match rows[0] {
            Err(e) => seq![Err::<AccountStorageItem, E>(e)] + slot_entries(
                lookups,
                rest,
                address,
                last,
            ),
            Ok((row_address, slot)) => if bytes_lt(address@, row_address@) {
                Seq::empty()
            } else if row_address != address || last == Some((row_address, slot)) {
                slot_entries(lookups, rest, address, last)
            } else {
                slot_entry(lookups, (address, slot)) + slot_entries(
                    lookups,
                    rest,
                    address,
                    Some((address, slot)),
                )
            },
        }
    }
}

/// The entry of a slot that is looked up: none where the slot is not live.
pub open spec fn slot_entry<E>(lookups: Lookups<E>, row: (Address, B256)) -> Seq<
    Result<AccountStorageItem, E>,
> {
    match lookups.of_slot(row) {
        Err(e) => seq![Err::<AccountStorageItem, E>(e)],
        Ok(entry) => if entry == Some(keccak(row.1@)) {
            seq![Ok::<AccountStorageItem, E>(AccountStorageItem::StorageSlot(row.0, row.1))]
        } else {
            Seq::empty()
        },
    }
}

/// How many rows stand before the first one of a larger address.
pub open spec fn reach<E>(rows: Seq<Result<(Address, B256), E>>, address: Address) -> nat
    decreases rows.len(),
{
    if rows.len() == 0 {
        0
    } else {
        match rows[0] {
            Ok((row_address, _)) if bytes_lt(address@, row_address@) => 0,
            _ => 1 + reach(rows.drop_first(), address),
        }
    }
}

/// The rows from the first one of a larger address on.
pub open spec fn beyond<E>(rows: Seq<Result<(Address, B256), E>>, address: Address) -> Seq<
    Result<(Address, B256), E>,
> {
    rows.skip(reach(rows, address) as int)
}

/// The entries of some accounts: each account that does not repeat the one before it is looked
/// up, and listed with its slots where it is live. A row that cannot be read, and a lookup that
/// fails, is an entry too. `last` is the last account before the first.
pub open spec fn entries_from<E>(
    lookups: Lookups<E>,
    accounts: Seq<Result<Address, E>>,
    rows: Seq<Result<(Address, B256), E>>,
    last: Option<Address>,
) -> Seq<Result<AccountStorageItem, E>>
    decreases accounts.len(),
{
    if accounts.len() == 0 {
        Seq::empty()
    } else {
        let rest = accounts.drop_first();
        match accounts[0] {
            Err(e) => seq![Err::<AccountStorageItem, E>(e)] + entries_from(
                lookups,
                rest,
                rows,
                last,
            ),
            Ok(address) => if last == Some(address) {
                entries_from(lookups, rest, rows, last)
            } else {
                account_entries(lookups, rows, address) + entries_from(
                    lookups,
                    rest,
                    rows_behind(lookups, rows, address),
                    Some(address),
                )
            },
        }
    }
}

/// The entries of an account that is looked up, with those of its slots where it is live.
pub open spec fn account_entries<E>(
    lookups: Lookups<E>,
    rows: Seq<Result<(Address, B256), E>>,
    address: Address,
) -> Seq<Result<AccountStorageItem, E>> {
    match lookups.of_account(address) {
        Err(e) => seq![Err::<AccountStorageItem, E>(e)],
        Ok(false) => Seq::empty(),
        Ok(true) => seq![Ok::<AccountStorageItem, E>(AccountStorageItem::Account(address))]
            + slot_entries(lookups, rows, address, None),
    }
}

/// The rows that are left behind an account that is looked up: where it is live, those from the
/// first one of a larger address on.
pub open spec fn rows_behind<E>(
    lookups: Lookups<E>,
    rows: Seq<Result<(Address, B256), E>>,
    address: Address,
) -> Seq<Result<(Address, B256), E>> {
    if lookups.of_account(address) == Ok::<bool, E>(true) {
        beyond(rows, address)
    } else {
        rows
    }
}

/// All that a listing hands out, errors included.
pub open spec fn entries<E>(lookups: Lookups<E>, rows: Rows<E>) -> Seq<
    Result<AccountStorageItem, E>,
> {
    entries_from(lookups, rows.accounts, rows.storages, None)
}

/// Results that are all successes have no errors.
pub proof fn lemma_all_read<T, E>(values: Seq<T>)
    ensures
        successes(all_read::<T, E>(values)) == values,
        failures(all_read::<T, E>(values)) == Seq::<E>::empty(),
    decreases values.len(),
{
    if values.len() == 0 {
        assert(successes(all_read::<T, E>(values)) =~= values);
    } else {
        let rest = values.drop_first();
        lemma_all_read::<T, E>(rest);
        assert(all_read::<T, E>(values).drop_first() =~= all_read::<T, E>(rest));
        assert(seq![values[0]] + rest =~= values);
    }
}

/// Results without errors are successes.
pub proof fn lemma_none_failed<T, E>(results: Seq<Result<T, E>>)
    requires
        failures(results).len() == 0,
    ensures
        results == all_read::<T, E>(successes(results)),
    decreases results.len(),
{
    if results.len() > 0 {
        let rest = results.drop_first();
        lemma_none_failed(rest);
        assert(results[0] is Ok);
        assert(results =~= seq![results[0]] + rest);
    }
    assert(results =~= all_read::<T, E>(successes(results)));
}

/// Of results one behind the other, the successes stand one behind the other, and the errors.
pub proof fn lemma_results_join<T, E>(a: Seq<Result<T, E>>, b: Seq<Result<T, E>>)
    ensures
        successes(a + b) == successes(a) + successes(b),
        failures(a + b) == failures(a) + failures(b),
    decreases a.len(),
{
    if a.len() == 0 {
        assert(a + b =~= b);
        assert(successes(a) + successes(b) =~= successes(b));
        assert(failures(a) + failures(b) =~= failures(b));
    } else {
        lemma_results_join(a.drop_first(), b);
        assert((a + b).drop_first() =~= a.drop_first() + b);
        assert(successes(a + b) =~= successes(a) + successes(b));
        assert(failures(a + b) =~= failures(a) + failures(b));
    }
}

/// Lookups that tell what the tables hold, and never fail, show the tables.
pub proof fn law_lookups_show_tables<E>(lookups: Lookups<E>, hashed: Hashed)
    requires
        lookups.tells(hashed),
        lookups.accounts_found(),
        lookups.slots_found(),
    ensures
        lookups.shown() == hashed,
{
    assert forall|hash: B256|
        lookups.shown().accounts.contains(hash) == hashed.accounts.contains(hash) by {
        assert((lookups.account)(hash) is Ok);
    }
    assert forall|hashes: (B256, B256)|
        lookups.shown().storages.contains(hashes) == hashed.storages.contains(hashes) by {
        let entry = (lookups.slot)(hashes.0, hashes.1);
        assert(entry is Ok);
        law_exact_entry_is_live(hashed, hashes.0, hashes.1, entry->Ok_0);
    }
    assert(lookups.shown().accounts =~= hashed.accounts);
    assert(lookups.shown().storages =~= hashed.storages);
}

} // verus!
