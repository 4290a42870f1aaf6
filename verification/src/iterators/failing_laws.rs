//! What holds of a listing where rows cannot be read or lookups fail.

use crate::bytes::{
    bytes_le, bytes_lt, law_bytes_lt_asymmetric, law_bytes_lt_irreflexive, Address, B256,
};
use crate::iterators::failing::{
    account_entries, beyond, entries, entries_from, failures, lemma_results_join, rows_behind,
    slot_entries, slot_entry, successes, Lookups, Rows,
};
use crate::iterators::listing::{
    accounts_sorted, is_of, items_of, lemma_filter_first, lemma_filter_none, lemma_listed_behind,
    lemma_other_row, lemma_own_row, listing, live_accounts, live_slots, rows_of, storages_grouped,
    unrepeated, Hashed,
};
use crate::iterators::plain_order::{lemma_beyond_first, lemma_ordered_behind, ordered_behind};
use crate::iterators::{account_items, slot_items, AccountStorageItem};
use vstd::prelude::*;

verus! {

/// Rows in ascending order of their addresses are so behind the first one too.
pub proof fn lemma_grouped_behind<E>(rows: Seq<Result<(Address, B256), E>>)
    requires
        storages_grouped(successes(rows)),
        rows.len() > 0,
    ensures
        storages_grouped(successes(rows.drop_first())),
        rows[0] matches Ok(row) ==> {
            &&& successes(rows)[0] == row
            &&& successes(rows).drop_first() == successes(rows.drop_first())
        },
{
    let all = successes(rows);
    let rest = successes(rows.drop_first());
    if let Ok(row) = rows[0] {
        assert(all.drop_first() =~= rest);
        assert forall|i: int, j: int|
            #![trigger rest[i], rest[j]]
            0 <= i < j < rest.len() implies bytes_le(rest[i].0@, rest[j].0@) by {
            assert(rest[i] == all[i + 1]);
            assert(rest[j] == all[j + 1]);
        }
    }
}

/// Of rows in ascending order whose first one is of a larger address, none is of the address.
pub proof fn lemma_no_rows(rows: Seq<(Address, B256)>, address: Address)
    requires
        storages_grouped(rows),
        rows.len() > 0 ==> bytes_lt(address@, rows[0].0@),
    ensures
        rows_of(rows, address) == Seq::<(Address, B256)>::empty(),
{
    assert forall|i: int| 0 <= i < rows.len() implies !is_of(address)(#[trigger] rows[i]) by {
        if rows[i].0 == address {
            assert(i == 0 || bytes_le(rows[0].0@, rows[i].0@));
            law_bytes_lt_asymmetric(address@, rows[0].0@);
        }
    }
    lemma_filter_none(rows, is_of(address));
}

/// Without rows of the address there are no slots.
proof fn lemma_no_slots(
    hashed: Hashed,
    rows: Seq<(Address, B256)>,
    address: Address,
    last: Option<(Address, B256)>,
)
    requires
        rows_of(rows, address) == Seq::<(Address, B256)>::empty(),
    ensures
        slot_items(address, live_slots(hashed, rows, address, last)) == Seq::<
            AccountStorageItem,
        >::empty(),
{
    reveal(Seq::filter);
    assert(slot_items(address, live_slots(hashed, rows, address, last)) =~= Seq::<
        AccountStorageItem,
    >::empty());
}

/// The slot that is listed of a row that is looked up.
pub proof fn lemma_slot_entry<E>(lookups: Lookups<E>, row: (Address, B256))
    ensures
        successes(slot_entry(lookups, row)) == slot_items(
            row.0,
            if lookups.shown().live_slot(row) {
                seq![row.1]
            } else {
                Seq::empty()
            },
        ),
        failures(slot_entry(lookups, row)) == failures(seq![lookups.of_slot(row)]),
{
    lemma_single(lookups.of_slot(row));
    let entry = slot_entry(lookups, row);
    if entry.len() > 0 {
        lemma_single(entry[0]);
        assert(entry =~= seq![entry[0]]);
    }
    assert(successes(entry) =~= slot_items(
        row.0,
        if lookups.shown().live_slot(row) {
            seq![row.1]
        } else {
            Seq::empty()
        },
    ));
}

/// The slots among the entries of an account are its live ones.
proof fn lemma_slot_successes<E>(
    lookups: Lookups<E>,
    rows: Seq<Result<(Address, B256), E>>,
    address: Address,
    last: Option<(Address, B256)>,
)
    requires
        storages_grouped(successes(rows)),
    ensures
        successes(slot_entries(lookups, rows, address, last)) == slot_items(
            address,
            live_slots(lookups.shown(), successes(rows), address, last),
        ),
    decreases rows.len(),
{
    let hashed = lookups.shown();
    let all = successes(rows);
    if rows.len() == 0 {
        lemma_no_rows(all, address);
        lemma_no_slots(hashed, all, address, last);
    } else {
        let rest = rows.drop_first();
        lemma_grouped_behind(rows);
        match rows[0] {
            Err(e) => {
                let later = slot_entries(lookups, rest, address, last);
                lemma_slot_successes(lookups, rest, address, last);
                lemma_results_join(seq![Err::<AccountStorageItem, E>(e)], later);
                lemma_single(Err::<AccountStorageItem, E>(e));
                assert(Seq::empty() + successes(later) =~= successes(later));
            },
            Ok(row) => if bytes_lt(address@, row.0@) {
                lemma_no_rows(all, address);
                lemma_no_slots(hashed, all, address, last);
            } else if row.0 != address {
                lemma_slot_successes(lookups, rest, address, last);
                lemma_other_row(hashed, all, address, last);
            } else if last == Some(row) {
                lemma_slot_successes(lookups, rest, address, last);
                lemma_own_row(hashed, all, address, last);
            } else {
                lemma_slot_successes(lookups, rest, address, Some(row));
                lemma_new_row(lookups, rows, address, last);
            },
        }
    }
}

proof fn lemma_new_row<E>(
    lookups: Lookups<E>,
    rows: Seq<Result<(Address, B256), E>>,
    address: Address,
    last: Option<(Address, B256)>,
)
    requires
        storages_grouped(successes(rows)),
        rows.len() > 0,
        rows[0] matches Ok(row) && row.0 == address && last != Some(row) && successes(
            slot_entries(lookups, rows.drop_first(), address, Some(row)),
        ) == slot_items(
            address,
            live_slots(lookups.shown(), successes(rows.drop_first()), address, Some(row)),
        ),
    ensures
        successes(slot_entries(lookups, rows, address, last)) == slot_items(
            address,
            live_slots(lookups.shown(), successes(rows), address, last),
        ),
{
    let row = rows[0]->Ok_0;
    let rest = rows.drop_first();
    let hashed = lookups.shown();
    law_bytes_lt_irreflexive(address@);
    lemma_grouped_behind(rows);
    lemma_own_row(hashed, successes(rows), address, last);
    lemma_slot_entry(lookups, row);
    lemma_results_join(
        slot_entry(lookups, row),
        slot_entries(lookups, rest, address, Some(row)),
    );
    let own = if hashed.live_slot(row) {
        seq![row.1]
    } else {
        Seq::empty()
    };
    let later = live_slots(hashed, successes(rest), address, Some(row));
    assert(slot_items(address, own + later) =~= slot_items(address, own) + slot_items(
        address,
        later,
    ));
}

/// A single result is a success or an error.
pub proof fn lemma_single<T, E>(result: Result<T, E>)
    ensures
        successes(seq![result]) == (match result {
            Ok(value) => seq![value],
            Err(_) => Seq::empty(),
        }),
        failures(seq![result]) == (match result {
            Ok(_) => Seq::empty(),
            Err(e) => seq![e],
        }),
{
    let none = seq![result].drop_first();
    assert(none =~= Seq::empty());
    assert(successes(none) =~= Seq::empty());
    assert(failures(none) =~= Seq::empty());
    assert(successes(seq![result]) =~= (match result {
        Ok(value) => seq![value],
        Err(_) => Seq::empty(),
    }));
    assert(failures(seq![result]) =~= (match result {
        Ok(_) => Seq::empty(),
        Err(e) => seq![e],
    }));
}

/// The rows of a larger address are all beyond.
pub proof fn lemma_beyond_rows<E>(
    rows: Seq<Result<(Address, B256), E>>,
    address: Address,
    larger: Address,
)
    requires
        bytes_lt(address@, larger@),
    ensures
        rows_of(successes(beyond(rows, address)), larger) == rows_of(successes(rows), larger),
    decreases rows.len(),
{
    if rows.len() == 0 || (rows[0] matches Ok(row) && bytes_lt(address@, row.0@)) {
        assert(beyond(rows, address) =~= rows);
    } else {
        let rest = rows.drop_first();
        lemma_beyond_first(rows, address);
        lemma_beyond_rows(rest, address, larger);
        if let Ok(row) = rows[0] {
            let all = successes(rows);
            assert(all[0] == row);
            assert(all.drop_first() =~= successes(rest));
            lemma_filter_first(all, is_of(larger));
            assert(rows_of(all, larger) =~= rows_of(successes(rest), larger));
        }
    }
}

/// Beyond an address the rows are in ascending order too.
pub proof fn lemma_grouped_beyond<E>(rows: Seq<Result<(Address, B256), E>>, address: Address)
    requires
        storages_grouped(successes(rows)),
    ensures
        storages_grouped(successes(beyond(rows, address))),
    decreases rows.len(),
{
    if rows.len() == 0 || (rows[0] matches Ok(row) && bytes_lt(address@, row.0@)) {
        assert(beyond(rows, address) =~= rows);
    } else {
        lemma_grouped_behind(rows);
        lemma_beyond_first(rows, address);
        lemma_grouped_beyond(rows.drop_first(), address);
    }
}

/// For larger addresses, only the rows beyond count.
proof fn lemma_beyond_items<E>(
    hashed: Hashed,
    rows: Seq<Result<(Address, B256), E>>,
    address: Address,
    accounts: Seq<Address>,
)
    requires
        forall|i: int| 0 <= i < accounts.len() ==> bytes_lt(address@, #[trigger] accounts[i]@),
    ensures
        items_of(hashed, successes(beyond(rows, address)), accounts) == items_of(
            hashed,
            successes(rows),
            accounts,
        ),
    decreases accounts.len(),
{
    if accounts.len() > 0 {
        let rest = accounts.drop_first();
        assert forall|i: int| 0 <= i < rest.len() implies bytes_lt(
            address@,
            #[trigger] rest[i]@,
        ) by {
            assert(rest[i] == accounts[i + 1]);
        }
        assert(bytes_lt(address@, accounts[0]@));
        lemma_beyond_rows(rows, address, accounts[0]);
        lemma_beyond_items(hashed, rows, address, rest);
    }
}

/// The live accounts, from the first row on.
pub proof fn lemma_live_accounts_first<E>(
    hashed: Hashed,
    accounts: Seq<Result<Address, E>>,
    last: Option<Address>,
)
    requires
        accounts.len() > 0,
    ensures
        live_accounts(hashed, successes(accounts), last) == (match accounts[0] {
            Err(_) => live_accounts(hashed, successes(accounts.drop_first()), last),
            Ok(address) => if last == Some(address) {
                live_accounts(hashed, successes(accounts.drop_first()), last)
            } else {
                (if hashed.live_account(address) {
                    seq![address]
                } else {
                    Seq::empty()
                }) + live_accounts(hashed, successes(accounts.drop_first()), Some(address))
            },
        }),
{
    if let Ok(address) = accounts[0] {
        let all = successes(accounts);
        let rest = successes(accounts.drop_first());
        assert(all[0] == address);
        assert(all.drop_first() =~= rest);
        if last != Some(address) {
            let unique = unrepeated(all, last);
            assert(unique.drop_first() =~= unrepeated(rest, Some(address)));
            lemma_filter_first(unique, hashed.keeps_account());
        }
    }
}

/// The items among the entries of some accounts.
proof fn lemma_entry_successes<E>(
    lookups: Lookups<E>,
    accounts: Seq<Result<Address, E>>,
    rows: Seq<Result<(Address, B256), E>>,
    last: Option<Address>,
)
    requires
        ordered_behind(accounts, last),
        storages_grouped(successes(rows)),
    ensures
        successes(entries_from(lookups, accounts, rows, last)) == items_of(
            lookups.shown(),
            successes(rows),
            live_accounts(lookups.shown(), successes(accounts), last),
        ),
    decreases accounts.len(),
{
    let hashed = lookups.shown();
    let live = live_accounts(hashed, successes(accounts), last);
    if accounts.len() == 0 {
        reveal(Seq::filter);
        assert(live =~= Seq::empty());
    } else {
        let rest = accounts.drop_first();
        lemma_ordered_behind(accounts, last);
        lemma_live_accounts_first(hashed, accounts, last);
        match accounts[0] {
            Err(e) => {
                lemma_entry_successes(lookups, rest, rows, last);
                lemma_single(Err::<AccountStorageItem, E>(e));
                lemma_results_join(
                    seq![Err::<AccountStorageItem, E>(e)],
                    entries_from(lookups, rest, rows, last),
                );
                assert(successes(entries_from(lookups, accounts, rows, last)) =~= items_of(
                    hashed,
                    successes(rows),
                    live,
                ));
            },
            Ok(address) => if last == Some(address) {
                lemma_entry_successes(lookups, rest, rows, last);
            } else {
                let behind = rows_behind(lookups, rows, address);
                let later = live_accounts(hashed, successes(rest), Some(address));
                if hashed.live_account(address) {
                    lemma_grouped_beyond(rows, address);
                    lemma_listed_behind(hashed, successes(rest), address);
                    lemma_beyond_items(hashed, rows, address, later);
                    assert((seq![address] + later).drop_first() =~= later);
                } else {
                    assert(Seq::<Address>::empty() + later =~= later);
                }
                lemma_entry_successes(lookups, rest, behind, Some(address));
                lemma_results_join(
                    account_entries(lookups, rows, address),
                    entries_from(lookups, rest, behind, Some(address)),
                );
                lemma_account_successes(lookups, rows, address);
                assert(successes(entries_from(lookups, accounts, rows, last)) =~= items_of(
                    hashed,
                    successes(rows),
                    live,
                ));
            },
        }
    }
}

/// The items among the entries of an account.
proof fn lemma_account_successes<E>(
    lookups: Lookups<E>,
    rows: Seq<Result<(Address, B256), E>>,
    address: Address,
)
    requires
        storages_grouped(successes(rows)),
    ensures
        successes(account_entries(lookups, rows, address)) == (if lookups.shown().live_account(
            address,
        ) {
            account_items(address, live_slots(lookups.shown(), successes(rows), address, None))
        } else {
            Seq::empty()
        }),
{
    match lookups.of_account(address) {
        Err(e) => {
            lemma_single(Err::<AccountStorageItem, E>(e));
        },
        Ok(false) => {},
        Ok(true) => {
            let account = Ok::<AccountStorageItem, E>(AccountStorageItem::Account(address));
            lemma_single(account);
            lemma_slot_successes(lookups, rows, address, None);
            lemma_results_join(seq![account], slot_entries(lookups, rows, address, None));
        },
    }
}

/// Over tables that are ordered by address, whatever cannot be read or looked up, the items of
/// the listing are those of the rows that can be read: a failing row changes nothing, and an
/// account or slot whose lookup fails counts as one that is not live.
pub proof fn law_items_ignore_failures<E>(lookups: Lookups<E>, rows: Rows<E>)
    requires
        accounts_sorted(rows.readable().accounts),
        storages_grouped(rows.readable().storages),
    ensures
        successes(entries(lookups, rows)) == listing(rows.readable(), lookups.shown()),
{
    lemma_entry_successes(lookups, rows.accounts, rows.storages, None);
}

} // verus!
