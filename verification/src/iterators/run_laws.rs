//! What a run of the plain listing hands out, said of the tables directly: which items, in which
//! order, and which errors.

use crate::bytes::{
    bytes_le, bytes_lt, law_bytes_lt_transitive, lemma_same_bytes, Address, B256,
};
use crate::hashing::keccak;
use crate::iterators::failing::{entries, failures, reach, successes, Lookups, Rows};
use crate::iterators::failing_counts::{
    account_answers, law_failures_are_handed_out_once, reached_rows, slot_answers, slot_failures,
};
use crate::iterators::failing_laws::law_items_ignore_failures;
use crate::iterators::listing::{
    accounts_sorted, is_of, live_accounts, rows_of, storages_grouped, unrepeated, Hashed,
};
use crate::iterators::listing_laws::{
    address_order, law_listing_is_ordered, law_live_accounts, lemma_accounts_ascending,
    lemma_filter_contains, lemma_unrepeated_contains, plain_order, row_order,
};
use crate::iterators::plain_order::{law_plain_entries, lemma_reach, Run};
use crate::iterators::state_laws::{
    law_listing_holds_the_live_state, lemma_failures_contain, lemma_successes_contain,
};
use crate::iterators::AccountStorageItem;
use vstd::prelude::*;

verus! {

/// An answer is among those of the accounts exactly where it is that of an account.
proof fn lemma_account_answer<E>(lookups: Lookups<E>, accounts: Seq<Address>, e: E)
    ensures
        account_answers(lookups, accounts, None).contains(Err::<bool, E>(e)) <==> exists|
            address: Address,
        | #[trigger]
            accounts.contains(address) && lookups.of_account(address) == Err::<bool, E>(e),
{
    let unique = unrepeated(accounts, None);
    let answers = account_answers(lookups, accounts, None);
    if answers.contains(Err::<bool, E>(e)) {
        let i = choose|i: int| 0 <= i < answers.len() && answers[i] == Err::<bool, E>(e);
        assert(unique.contains(unique[i]));
        lemma_unrepeated_contains(accounts, None, unique[i]);
        assert(accounts.contains(unique[i]) && lookups.of_account(unique[i]) == Err::<bool, E>(e));
    }
    if exists|address: Address| #[trigger]
        accounts.contains(address) && lookups.of_account(address) == Err::<bool, E>(e) {
        let address = choose|address: Address| #[trigger]
            accounts.contains(address) && lookups.of_account(address) == Err::<bool, E>(e);
        lemma_unrepeated_contains(accounts, None, address);
        let i = choose|i: int| 0 <= i < unique.len() && unique[i] == address;
        assert(answers[i] == Err::<bool, E>(e));
    }
}

/// An answer is among those of the slots of an account exactly where it is that of one of them.
proof fn lemma_slot_answer<E>(
    lookups: Lookups<E>,
    rows: Seq<(Address, B256)>,
    address: Address,
    e: E,
)
    ensures
        slot_answers(lookups, rows, address, None).contains(Err::<Option<B256>, E>(e)) <==> exists|
            slot: B256,
        | #[trigger]
            rows.contains((address, slot)) && lookups.of_slot((address, slot)) == Err::<
                Option<B256>,
                E,
            >(e),
{
    let own = rows_of(rows, address);
    let unique = unrepeated(own, None);
    let answers = slot_answers(lookups, rows, address, None);
    if answers.contains(Err::<Option<B256>, E>(e)) {
        let i = choose|i: int| 0 <= i < answers.len() && answers[i] == Err::<Option<B256>, E>(e);
        let row = unique[i];
        assert(unique.contains(row));
        lemma_unrepeated_contains(own, None, row);
        lemma_filter_contains(rows, is_of(address), row);
        assert(rows.contains((address, row.1)));
    }
    if exists|slot: B256| #[trigger]
        rows.contains((address, slot)) && lookups.of_slot((address, slot)) == Err::<
            Option<B256>,
            E,
        >(e) {
        let slot = choose|slot: B256| #[trigger]
            rows.contains((address, slot)) && lookups.of_slot((address, slot)) == Err::<
                Option<B256>,
                E,
            >(e);
        let row = (address, slot);
        lemma_filter_contains(rows, is_of(address), row);
        lemma_unrepeated_contains(own, None, row);
        let i = choose|i: int| 0 <= i < unique.len() && unique[i] == row;
        assert(answers[i] == Err::<Option<B256>, E>(e));
    }
}

/// An error of looking slots up is that of a slot of one of the accounts.
proof fn lemma_slot_failure<E>(
    lookups: Lookups<E>,
    rows: Seq<(Address, B256)>,
    accounts: Seq<Address>,
    e: E,
)
    ensures
        slot_failures(lookups, rows, accounts).contains(e) <==> exists|
            address: Address,
            slot: B256,
        |
            #![trigger rows.contains((address, slot))]
            accounts.contains(address) && rows.contains((address, slot)) && lookups.of_slot(
                (address, slot),
            ) == Err::<Option<B256>, E>(e),
    decreases accounts.len(),
{
    let all = slot_failures(lookups, rows, accounts);
    if accounts.len() > 0 {
        let rest = accounts.drop_first();
        let first = failures(slot_answers(lookups, rows, accounts[0], None));
        let later = slot_failures(lookups, rows, rest);
        lemma_slot_failure(lookups, rows, rest, e);
        lemma_slot_answer(lookups, rows, accounts[0], e);
        lemma_failures_contain(slot_answers(lookups, rows, accounts[0], None), e);
        assert(accounts.contains(accounts[0]));
        assert forall|address: Address| rest.contains(address) implies #[trigger]
            accounts.contains(address) by {
            let i = choose|i: int| 0 <= i < rest.len() && rest[i] == address;
            assert(accounts[i + 1] == address);
        }
        if all.contains(e) {
            let i = choose|i: int| 0 <= i < all.len() && all[i] == e;
            if i < first.len() {
                assert(first[i] == e);
                assert(first.contains(e));
            } else {
                assert(later[i - first.len()] == e);
                assert(later.contains(e));
            }
        }
        if exists|address: Address, slot: B256|
            #![trigger rows.contains((address, slot))]
            accounts.contains(address) && rows.contains((address, slot)) && lookups.of_slot(
                (address, slot),
            ) == Err::<Option<B256>, E>(e) {
            let (address, slot) = choose|address: Address, slot: B256|
                #![trigger rows.contains((address, slot))]
                accounts.contains(address) && rows.contains((address, slot)) && lookups.of_slot(
                    (address, slot),
                ) == Err::<Option<B256>, E>(e);
            let k = choose|k: int| 0 <= k < accounts.len() && accounts[k] == address;
            if k == 0 {
                assert(first.contains(e));
                let i = choose|i: int| 0 <= i < first.len() && first[i] == e;
                assert(all[i] == e);
            } else {
                assert(rest[k - 1] == address);
                assert(rest.contains(address));
                let i = choose|i: int| 0 <= i < later.len() && later[i] == e;
                assert(all[first.len() + i] == e);
            }
        }
    } else {
        assert(all.len() == 0);
    }
}

/// The rows before the first one of a larger address are not of larger addresses.
proof fn lemma_within_reach<E>(
    rows: Seq<Result<(Address, B256), E>>,
    address: Address,
    place: int,
)
    requires
        0 <= place < rows.len(),
    ensures
        place < reach(rows, address) <==> forall|i: int|
            0 <= i <= place ==> (#[trigger] rows[i] matches Ok(row) ==> !bytes_lt(
                address@,
                row.0@,
            )),
    decreases rows.len(),
{
    let rest = rows.drop_first();
    let larger = rows[0] matches Ok(row) && bytes_lt(address@, row.0@);
    if !larger {
        if place == 0 {
            assert(reach(rows, address) >= 1);
        } else {
            lemma_within_reach(rest, address, place - 1);
            if forall|i: int|
                0 <= i <= place ==> (#[trigger] rows[i] matches Ok(row) ==> !bytes_lt(
                    address@,
                    row.0@,
                )) {
                assert forall|i: int| 0 <= i <= place - 1 implies (#[trigger] rest[i] matches Ok(
                    row,
                ) ==> !bytes_lt(address@, row.0@)) by {
                    assert(rest[i] == rows[i + 1]);
                }
            }
            if forall|i: int|
                0 <= i <= place - 1 ==> (#[trigger] rest[i] matches Ok(row) ==> !bytes_lt(
                    address@,
                    row.0@,
                )) {
                assert forall|i: int| 0 <= i <= place implies (#[trigger] rows[i] matches Ok(row)
                    ==> !bytes_lt(address@, row.0@)) by {
                    if i > 0 {
                        assert(rest[i - 1] == rows[i]);
                    }
                }
            }
        }
    } else {
        assert(rows[0] matches Ok(row) && bytes_lt(address@, row.0@));
        assert(reach(rows, address) == 0);
    }
}

/// The last live account has the largest address of them.
proof fn lemma_last_is_largest(hashed: Hashed, accounts: Seq<Address>, address: Address)
    requires
        accounts_sorted(accounts),
        live_accounts(hashed, accounts, None).contains(address),
    ensures
        live_accounts(hashed, accounts, None).len() > 0,
        bytes_le(address@, live_accounts(hashed, accounts, None).last()@),
{
    let live = live_accounts(hashed, accounts, None);
    assert forall|i: int, j: int|
        #![trigger accounts[i], accounts[j]]
        0 <= i < j < accounts.len() implies accounts[i] == accounts[j] || address_order()(
        accounts[i],
        accounts[j],
    ) by {
        lemma_same_bytes(accounts[i], accounts[j]);
    }
    lemma_accounts_ascending(hashed, accounts);
    let i = choose|i: int| 0 <= i < live.len() && live[i] == address;
    if i < live.len() - 1 {
        assert(address_order()(live[i], live[live.len() - 1]));
    }
}

/// An error of the storage rows that are reached is that of a row before which none is of a larger
/// address than some live account.
proof fn lemma_reached_failure<E>(rows: Rows<E>, lookups: Lookups<E>, e: E)
    requires
        accounts_sorted(successes(rows.accounts)),
    ensures
        failures(
            reached_rows(
                rows.storages,
                live_accounts(lookups.shown(), successes(rows.accounts), None),
            ),
        ).contains(e) <==> exists|i: int, address: Address|
            #![trigger rows.storages[i], rows.accounts.contains(Ok::<Address, E>(address))]
            {
                &&& 0 <= i < rows.storages.len()
                &&& rows.storages[i] == Err::<(Address, B256), E>(e)
                &&& rows.accounts.contains(Ok::<Address, E>(address))
                &&& (lookups.account)(keccak(address@)) == Ok::<bool, E>(true)
                &&& forall|j: int|
                    0 <= j < i ==> (#[trigger] rows.storages[j] matches Ok(row) ==> !bytes_lt(
                        address@,
                        row.0@,
                    ))
            },
{
    let accounts = successes(rows.accounts);
    let live = live_accounts(lookups.shown(), accounts, None);
    let reached = reached_rows(rows.storages, live);
    lemma_failures_contain(reached, e);
    if reached.contains(Err::<(Address, B256), E>(e)) {
        let i = choose|i: int| 0 <= i < reached.len() && reached[i] == Err::<(Address, B256), E>(e);
        let address = live.last();
        assert(live[live.len() - 1] == address);
        assert(live.contains(address));
        law_live_accounts(lookups.shown(), accounts, address);
        lemma_successes_contain(rows.accounts, address);
        lemma_reach(rows.storages, address);
        assert(rows.storages[i] == Err::<(Address, B256), E>(e));
        lemma_within_reach(rows.storages, address, i);
        assert(rows.accounts.contains(Ok::<Address, E>(address)));
    }
    if exists|i: int, address: Address|
        #![trigger rows.storages[i], rows.accounts.contains(Ok::<Address, E>(address))]
        {
            &&& 0 <= i < rows.storages.len()
            &&& rows.storages[i] == Err::<(Address, B256), E>(e)
            &&& rows.accounts.contains(Ok::<Address, E>(address))
            &&& (lookups.account)(keccak(address@)) == Ok::<bool, E>(true)
            &&& forall|j: int|
                0 <= j < i ==> (#[trigger] rows.storages[j] matches Ok(row) ==> !bytes_lt(
                    address@,
                    row.0@,
                ))
        } {
        let (i, address) = choose|i: int, address: Address|
            #![trigger rows.storages[i], rows.accounts.contains(Ok::<Address, E>(address))]
            {
                &&& 0 <= i < rows.storages.len()
                &&& rows.storages[i] == Err::<(Address, B256), E>(e)
                &&& rows.accounts.contains(Ok::<Address, E>(address))
                &&& (lookups.account)(keccak(address@)) == Ok::<bool, E>(true)
                &&& forall|j: int|
                    0 <= j < i ==> (#[trigger] rows.storages[j] matches Ok(row) ==> !bytes_lt(
                        address@,
                        row.0@,
                    ))
            };
        lemma_successes_contain(rows.accounts, address);
        law_live_accounts(lookups.shown(), accounts, address);
        lemma_last_is_largest(lookups.shown(), accounts, address);
        let last = live.last();
        assert forall|j: int| 0 <= j <= i implies (#[trigger] rows.storages[j] matches Ok(row)
            ==> !bytes_lt(last@, row.0@)) by {
            if let Ok(row) = rows.storages[j] {
                if bytes_lt(last@, row.0@) && address@ != last@ {
                    law_bytes_lt_transitive(address@, last@, row.0@);
                }
            }
        }
        lemma_within_reach(rows.storages, last, i);
        lemma_reach(rows.storages, last);
        assert(reached[i] == Err::<(Address, B256), E>(e));
    }
}

/// The successes stand in the order of the results.
proof fn lemma_successes_ordered<T, E>(
    results: Seq<Result<T, E>>,
    before: spec_fn(T, T) -> bool,
)
    requires
        forall|i: int, j: int|
            #![trigger results[i], results[j]]
            0 <= i < j < results.len() && results[i] is Ok && results[j] is Ok ==> before(
                results[i]->Ok_0,
                results[j]->Ok_0,
            ),
    ensures
        forall|i: int, j: int|
            #![trigger successes(results)[i], successes(results)[j]]
            0 <= i < j < successes(results).len() ==> before(
                successes(results)[i],
                successes(results)[j],
            ),
    decreases results.len(),
{
    if results.len() > 0 {
        let rest = results.drop_first();
        let all = successes(results);
        let later = successes(rest);
        assert forall|i: int, j: int|
            #![trigger rest[i], rest[j]]
            0 <= i < j < rest.len() && rest[i] is Ok && rest[j] is Ok implies before(
            rest[i]->Ok_0,
            rest[j]->Ok_0,
        ) by {
            assert(rest[i] == results[i + 1]);
            assert(rest[j] == results[j + 1]);
        }
        lemma_successes_ordered(rest, before);
        assert forall|i: int, j: int|
            #![trigger all[i], all[j]]
            0 <= i < j < all.len() implies before(all[i], all[j]) by {
            if results[0] is Ok {
                assert(all[j] == later[j - 1]);
                if i == 0 {
                    assert(later.contains(all[j]));
                    lemma_successes_contain(rest, all[j]);
                    let k = choose|k: int|
                        0 <= k < rest.len() && rest[k] == Ok::<T, E>(all[j]);
                    assert(results[k + 1] == Ok::<T, E>(all[j]));
                    assert(results[0] is Ok && results[k + 1] is Ok);
                } else {
                    assert(all[i] == later[i - 1]);
                }
            } else {
                assert(all =~= later);
            }
        }
    }
}

/// Where the successes stand in an order, the results do.
proof fn lemma_results_ordered<T, E>(
    results: Seq<Result<T, E>>,
    before: spec_fn(T, T) -> bool,
    i: int,
    j: int,
)
    requires
        forall|i: int, j: int|
            #![trigger successes(results)[i], successes(results)[j]]
            0 <= i < j < successes(results).len() ==> before(
                successes(results)[i],
                successes(results)[j],
            ),
        0 <= i < j < results.len(),
        results[i] is Ok,
        results[j] is Ok,
    ensures
        before(results[i]->Ok_0, results[j]->Ok_0),
    decreases results.len(),
{
    let rest = results.drop_first();
    let all = successes(results);
    let later = successes(rest);
    if i == 0 {
        let value = results[j]->Ok_0;
        assert(rest[j - 1] == Ok::<T, E>(value));
        lemma_successes_contain(rest, value);
        let k = choose|k: int| 0 <= k < later.len() && later[k] == value;
        assert(all[0] == results[0]->Ok_0);
        assert(all[k + 1] == value);
    } else {
        assert forall|i: int, j: int|
            #![trigger later[i], later[j]]
            0 <= i < j < later.len() implies before(later[i], later[j]) by {
            if results[0] is Ok {
                assert(later[i] == all[i + 1]);
                assert(later[j] == all[j + 1]);
            } else {
                assert(later =~= all);
            }
        }
        lemma_results_ordered(rest, before, i - 1, j - 1);
    }
}

/// Over tables that are ordered by address, whatever cannot be read or looked up, a run of the
/// listing comes to its end. An account is handed out exactly where the account history holds its
/// address and the lookup of its digest finds it. A slot is handed out exactly where its account
/// is, the storage history holds it, and the lookup of its digest under that of the account finds
/// just this digest.
pub proof fn law_items_are_those_of_the_tables<E>(
    rows: Rows<E>,
    lookups: Lookups<E>,
    within: nat,
    address: Address,
    slot: B256,
)
    requires
        forall|i: int, j: int|
            #![trigger rows.accounts[i], rows.accounts[j]]
            0 <= i < j < rows.accounts.len() && rows.accounts[i] is Ok && rows.accounts[j] is Ok
                ==> rows.accounts[i] == rows.accounts[j] || bytes_lt(
                rows.accounts[i]->Ok_0@,
                rows.accounts[j]->Ok_0@,
            ),
        forall|i: int, j: int|
            #![trigger rows.storages[i], rows.storages[j]]
            0 <= i < j < rows.storages.len() && rows.storages[i] is Ok && rows.storages[j] is Ok
                ==> rows.storages[i]->Ok_0.0 == rows.storages[j]->Ok_0.0 || bytes_lt(
                rows.storages[i]->Ok_0.0@,
                rows.storages[j]->Ok_0.0@,
            ),
        within > 5 * rows.accounts.len() + 5 * rows.storages.len(),
    ensures
        Run::start(rows).handed_out(lookups, within) matches Some(out) && {
            &&& out.contains(Ok::<AccountStorageItem, E>(AccountStorageItem::Account(address)))
                <==> {
                &&& rows.accounts.contains(Ok::<Address, E>(address))
                &&& (lookups.account)(keccak(address@)) == Ok::<bool, E>(true)
            }
            &&& out.contains(
                Ok::<AccountStorageItem, E>(AccountStorageItem::StorageSlot(address, slot)),
            ) <==> {
                &&& rows.accounts.contains(Ok::<Address, E>(address))
                &&& (lookups.account)(keccak(address@)) == Ok::<bool, E>(true)
                &&& rows.storages.contains(Ok::<(Address, B256), E>((address, slot)))
                &&& (lookups.slot)(keccak(address@), keccak(slot@)) == Ok::<Option<B256>, E>(
                    Some(keccak(slot@)),
                )
            }
        },
{
    let out = entries(lookups, rows);
    let readable = rows.readable();
    lemma_premises_sorted(rows);
    law_plain_entries(rows, lookups, within);
    law_items_ignore_failures(lookups, rows);
    lemma_successes_contain(out, AccountStorageItem::Account(address));
    lemma_successes_contain(out, AccountStorageItem::StorageSlot(address, slot));
    law_listing_holds_the_live_state(readable, lookups.shown(), address, slot);
    lemma_successes_contain(rows.accounts, address);
    lemma_successes_contain(rows.storages, (address, slot));
}

/// What can be read of tables in the order of addresses stands in that order.
proof fn lemma_premises_sorted<E>(rows: Rows<E>)
    requires
        forall|i: int, j: int|
            #![trigger rows.accounts[i], rows.accounts[j]]
            0 <= i < j < rows.accounts.len() && rows.accounts[i] is Ok && rows.accounts[j] is Ok
                ==> rows.accounts[i] == rows.accounts[j] || bytes_lt(
                rows.accounts[i]->Ok_0@,
                rows.accounts[j]->Ok_0@,
            ),
        forall|i: int, j: int|
            #![trigger rows.storages[i], rows.storages[j]]
            0 <= i < j < rows.storages.len() && rows.storages[i] is Ok && rows.storages[j] is Ok
                ==> rows.storages[i]->Ok_0.0 == rows.storages[j]->Ok_0.0 || bytes_lt(
                rows.storages[i]->Ok_0.0@,
                rows.storages[j]->Ok_0.0@,
            ),
    ensures
        accounts_sorted(successes(rows.accounts)),
        storages_grouped(successes(rows.storages)),
{
    let by_address = |a: Address, b: Address| bytes_le(a@, b@);
    let by_row = |a: (Address, B256), b: (Address, B256)| bytes_le(a.0@, b.0@);
    lemma_successes_ordered(rows.accounts, by_address);
    lemma_successes_ordered(rows.storages, by_row);
    assert forall|i: int, j: int|
        #![trigger successes(rows.accounts)[i], successes(rows.accounts)[j]]
        0 <= i < j < successes(rows.accounts).len() implies bytes_le(
        successes(rows.accounts)[i]@,
        successes(rows.accounts)[j]@,
    ) by {
        assert(by_address(successes(rows.accounts)[i], successes(rows.accounts)[j]));
    }
    assert forall|i: int, j: int|
        #![trigger successes(rows.storages)[i], successes(rows.storages)[j]]
        0 <= i < j < successes(rows.storages).len() implies bytes_le(
        successes(rows.storages)[i].0@,
        successes(rows.storages)[j].0@,
    ) by {
        assert(by_row(successes(rows.storages)[i], successes(rows.storages)[j]));
    }
}

/// Over tables in key order, whatever cannot be read or looked up, of two items that a run of the
/// listing hands out the first one is of a smaller address, or of the same address and an account
/// before a slot, or a slot before one of a larger key. So no item is handed out twice.
pub proof fn law_items_are_handed_out_in_order<E>(
    rows: Rows<E>,
    lookups: Lookups<E>,
    within: nat,
    i: int,
    j: int,
)
    requires
        forall|i: int, j: int|
            #![trigger rows.accounts[i], rows.accounts[j]]
            0 <= i < j < rows.accounts.len() && rows.accounts[i] is Ok && rows.accounts[j] is Ok
                ==> rows.accounts[i] == rows.accounts[j] || bytes_lt(
                rows.accounts[i]->Ok_0@,
                rows.accounts[j]->Ok_0@,
            ),
        forall|i: int, j: int|
            #![trigger rows.storages[i], rows.storages[j]]
            0 <= i < j < rows.storages.len() && rows.storages[i] is Ok && rows.storages[j] is Ok
                ==> rows.storages[i] == rows.storages[j] || bytes_lt(
                rows.storages[i]->Ok_0.0@,
                rows.storages[j]->Ok_0.0@,
            ) || (rows.storages[i]->Ok_0.0 == rows.storages[j]->Ok_0.0 && bytes_lt(
                rows.storages[i]->Ok_0.1@,
                rows.storages[j]->Ok_0.1@,
            )),
        within > 5 * rows.accounts.len() + 5 * rows.storages.len(),
        0 <= i < j,
    ensures
        Run::start(rows).handed_out(lookups, within) matches Some(out) && (j < out.len() ==> match (
            out[i],
            out[j],
        ) {
            (
                Ok(AccountStorageItem::Account(a)),
                Ok(AccountStorageItem::Account(b)),
            ) => bytes_lt(a@, b@),
            (
                Ok(AccountStorageItem::Account(a)),
                Ok(AccountStorageItem::StorageSlot(b, _)),
            ) => a == b || bytes_lt(a@, b@),
            (
                Ok(AccountStorageItem::StorageSlot(a, _)),
                Ok(AccountStorageItem::Account(b)),
            ) => bytes_lt(a@, b@),
            (
                Ok(AccountStorageItem::StorageSlot(a, x)),
                Ok(AccountStorageItem::StorageSlot(b, y)),
            ) => bytes_lt(a@, b@) || (a == b && bytes_lt(x@, y@)),
            _ => true,
        }),
{
    let out = entries(lookups, rows);
    let readable = rows.readable();
    let hashed = lookups.shown();
    lemma_premises_sorted(rows);
    law_plain_entries(rows, lookups, within);
    law_items_ignore_failures(lookups, rows);
    let by_address = |a: Address, b: Address| a == b || bytes_lt(a@, b@);
    let by_row = |a: (Address, B256), b: (Address, B256)|
        a == b || bytes_lt(a.0@, b.0@) || (a.0 == b.0 && bytes_lt(a.1@, b.1@));
    lemma_successes_ordered(rows.accounts, by_address);
    lemma_successes_ordered(rows.storages, by_row);
    assert forall|p: int, q: int|
        #![trigger readable.accounts[p], readable.accounts[q]]
        0 <= p < q < readable.accounts.len() implies readable.accounts[p] == readable.accounts[q]
        || address_order()(readable.accounts[p], readable.accounts[q]) by {
        assert(by_address(successes(rows.accounts)[p], successes(rows.accounts)[q]));
    }
    assert forall|p: int, q: int|
        #![trigger readable.storages[p], readable.storages[q]]
        0 <= p < q < readable.storages.len() implies readable.storages[p] == readable.storages[q]
        || row_order()(readable.storages[p], readable.storages[q]) by {
        assert(by_row(successes(rows.storages)[p], successes(rows.storages)[q]));
    }
    law_listing_is_ordered(readable, hashed);
    if j < out.len() && out[i] is Ok && out[j] is Ok {
        lemma_results_ordered(out, plain_order(), i, j);
        assert(plain_order()(out[i]->Ok_0, out[j]->Ok_0));
    }
}

/// Over tables that are ordered by address, a run of the listing comes to its end, and an error is
/// handed out exactly where it is: that of an account row; that of looking up an account of the
/// account history; that of a storage row before which no row is of a larger address than some
/// live account; or that of looking up a slot that the storage history holds of a live account.
pub proof fn law_errors_are_those_of_the_tables<E>(
    rows: Rows<E>,
    lookups: Lookups<E>,
    within: nat,
    e: E,
)
    requires
        accounts_sorted(successes(rows.accounts)),
        storages_grouped(successes(rows.storages)),
        within > 5 * rows.accounts.len() + 5 * rows.storages.len(),
    ensures
        Run::start(rows).handed_out(lookups, within) matches Some(out) && (out.contains(
            Err::<AccountStorageItem, E>(e),
        ) <==> {
            ||| rows.accounts.contains(Err::<Address, E>(e))
            ||| exists|address: Address| #[trigger]
                rows.accounts.contains(Ok::<Address, E>(address)) && (lookups.account)(
                    keccak(address@),
                ) == Err::<bool, E>(e)
            ||| exists|i: int, address: Address|
                #![trigger rows.storages[i], rows.accounts.contains(Ok::<Address, E>(address))]
                {
                    &&& 0 <= i < rows.storages.len()
                    &&& rows.storages[i] == Err::<(Address, B256), E>(e)
                    &&& rows.accounts.contains(Ok::<Address, E>(address))
                    &&& (lookups.account)(keccak(address@)) == Ok::<bool, E>(true)
                    &&& forall|j: int|
                        0 <= j < i ==> (#[trigger] rows.storages[j] matches Ok(row) ==> !bytes_lt(
                            address@,
                            row.0@,
                        ))
                }
            ||| exists|address: Address, slot: B256|
                #![trigger rows.storages.contains(Ok::<(Address, B256), E>((address, slot)))]
                {
                    &&& rows.accounts.contains(Ok::<Address, E>(address))
                    &&& (lookups.account)(keccak(address@)) == Ok::<bool, E>(true)
                    &&& rows.storages.contains(Ok::<(Address, B256), E>((address, slot)))
                    &&& (lookups.slot)(keccak(address@), keccak(slot@)) == Err::<Option<B256>, E>(e)
                }
        }),
{
    broadcast use vstd::multiset::group_multiset_axioms;

    let out = entries(lookups, rows);
    let accounts = rows.readable().accounts;
    let storages = rows.readable().storages;
    let live = live_accounts(lookups.shown(), accounts, None);
    law_plain_entries(rows, lookups, within);
    law_failures_are_handed_out_once(lookups, rows);
    let (a, b) = (failures(rows.accounts), failures(account_answers(lookups, accounts, None)));
    let (c, d) = (
        failures(reached_rows(rows.storages, live)),
        slot_failures(lookups, storages, live),
    );
    failures(out).to_multiset_ensures();
    a.to_multiset_ensures();
    b.to_multiset_ensures();
    c.to_multiset_ensures();
    d.to_multiset_ensures();
    assert(failures(out).contains(e) <==> a.contains(e) || b.contains(e) || c.contains(e)
        || d.contains(e)) by {
        assert(failures(out).to_multiset().count(e) == a.to_multiset().count(e)
            + b.to_multiset().count(e) + c.to_multiset().count(e) + d.to_multiset().count(e));
        assert(a.contains(e) <==> a.to_multiset().count(e) > 0);
        assert(b.contains(e) <==> b.to_multiset().count(e) > 0);
        assert(c.contains(e) <==> c.to_multiset().count(e) > 0);
        assert(d.contains(e) <==> d.to_multiset().count(e) > 0);
        assert(failures(out).contains(e) <==> failures(out).to_multiset().count(e) > 0);
    }
    lemma_failures_contain(out, e);
    lemma_failures_contain(rows.accounts, e);
    lemma_failures_contain(account_answers(lookups, accounts, None), e);
    lemma_account_answer(lookups, accounts, e);
    lemma_reached_failure(rows, lookups, e);
    lemma_slot_failure(lookups, storages, live, e);
    assert forall|address: Address| accounts.contains(address) == rows.accounts.contains(
        Ok::<Address, E>(address),
    ) by {
        lemma_successes_contain(rows.accounts, address);
    }
    assert forall|row: (Address, B256)| storages.contains(row) == rows.storages.contains(
        Ok::<(Address, B256), E>(row),
    ) by {
        lemma_successes_contain(rows.storages, row);
    }
    assert forall|address: Address| #[trigger] live.contains(address) == (accounts.contains(address)
        && (lookups.account)(keccak(address@)) == Ok::<bool, E>(true)) by {
        law_live_accounts(lookups.shown(), accounts, address);
    }
    assert(b.contains(e) <==> exists|address: Address| #[trigger]
        rows.accounts.contains(Ok::<Address, E>(address)) && (lookups.account)(keccak(address@))
            == Err::<bool, E>(e)) by {
        if b.contains(e) {
            let address = choose|address: Address| #[trigger]
                accounts.contains(address) && lookups.of_account(address) == Err::<bool, E>(e);
            assert(rows.accounts.contains(Ok::<Address, E>(address)));
        }
        if exists|address: Address| #[trigger]
            rows.accounts.contains(Ok::<Address, E>(address)) && (lookups.account)(keccak(address@))
                == Err::<bool, E>(e) {
            let address = choose|address: Address| #[trigger]
                rows.accounts.contains(Ok::<Address, E>(address)) && (lookups.account)(
                    keccak(address@),
                ) == Err::<bool, E>(e);
            assert(accounts.contains(address));
        }
    }
    assert(d.contains(e) <==> exists|address: Address, slot: B256|
        #![trigger rows.storages.contains(Ok::<(Address, B256), E>((address, slot)))]
        {
            &&& rows.accounts.contains(Ok::<Address, E>(address))
            &&& (lookups.account)(keccak(address@)) == Ok::<bool, E>(true)
            &&& rows.storages.contains(Ok::<(Address, B256), E>((address, slot)))
            &&& (lookups.slot)(keccak(address@), keccak(slot@)) == Err::<Option<B256>, E>(e)
        }) by {
        if d.contains(e) {
            let (address, slot) = choose|address: Address, slot: B256|
                #![trigger storages.contains((address, slot))]
                live.contains(address) && storages.contains((address, slot)) && lookups.of_slot(
                    (address, slot),
                ) == Err::<Option<B256>, E>(e);
            assert(rows.storages.contains(Ok::<(Address, B256), E>((address, slot))));
        }
        if exists|address: Address, slot: B256|
            #![trigger rows.storages.contains(Ok::<(Address, B256), E>((address, slot)))]
            {
                &&& rows.accounts.contains(Ok::<Address, E>(address))
                &&& (lookups.account)(keccak(address@)) == Ok::<bool, E>(true)
                &&& rows.storages.contains(Ok::<(Address, B256), E>((address, slot)))
                &&& (lookups.slot)(keccak(address@), keccak(slot@)) == Err::<Option<B256>, E>(e)
            } {
            let (address, slot) = choose|address: Address, slot: B256|
                #![trigger rows.storages.contains(Ok::<(Address, B256), E>((address, slot)))]
                {
                    &&& rows.accounts.contains(Ok::<Address, E>(address))
                    &&& (lookups.account)(keccak(address@)) == Ok::<bool, E>(true)
                    &&& rows.storages.contains(Ok::<(Address, B256), E>((address, slot)))
                    &&& (lookups.slot)(keccak(address@), keccak(slot@)) == Err::<Option<B256>, E>(e)
                };
            assert(live.contains(address));
            assert(storages.contains((address, slot)));
        }
    }
}

} // verus!
