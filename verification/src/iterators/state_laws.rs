//! What a listing holds, and how results and rows are sorted out, said of the tables directly.

use crate::bytes::{bytes_lt, Address, B256};
use crate::hashing::keccak;
use crate::iterators::failing::{all_read, beyond, failures, reach, successes, Lookups};
use crate::iterators::failing_counts::reached_rows;
use crate::iterators::listing::{lemma_filter_first, listing, unrepeated, Hashed, History};
use crate::iterators::listing_laws::{law_listing_is_complete, law_listing_is_ordered, plain_order};
use crate::iterators::AccountStorageItem;
use vstd::prelude::*;

verus! {

/// An account is listed exactly where the account history holds its address and the hashed
/// accounts hold the digest of it. A slot is listed exactly where its account is, the storage
/// history holds it, and the hashed storages hold the digests of both.
pub proof fn law_listing_holds_the_live_state(
    history: History,
    hashed: Hashed,
    address: Address,
    slot: B256,
)
    ensures
        listing(history, hashed).contains(AccountStorageItem::Account(address)) <==> {
            &&& history.accounts.contains(address)
            &&& hashed.accounts.contains(keccak(address@))
        },
        listing(history, hashed).contains(AccountStorageItem::StorageSlot(address, slot)) <==> {
            &&& history.accounts.contains(address)
            &&& hashed.accounts.contains(keccak(address@))
            &&& history.storages.contains((address, slot))
            &&& hashed.storages.contains((keccak(address@), keccak(slot@)))
        },
{
    law_listing_is_complete(history, hashed, AccountStorageItem::Account(address));
    law_listing_is_complete(history, hashed, AccountStorageItem::StorageSlot(address, slot));
}

/// Over tables in key order, of two items of a listing the first one is of a smaller address, or
/// of the same address and an account before a slot, or a slot before one of a larger key.
pub proof fn law_listing_stands_in_order(history: History, hashed: Hashed, i: int, j: int)
    requires
        forall|i: int, j: int|
            #![trigger history.accounts[i], history.accounts[j]]
            0 <= i < j < history.accounts.len() ==> history.accounts[i] == history.accounts[j]
                || bytes_lt(history.accounts[i]@, history.accounts[j]@),
        forall|i: int, j: int|
            #![trigger history.storages[i], history.storages[j]]
            0 <= i < j < history.storages.len() ==> history.storages[i] == history.storages[j]
                || bytes_lt(history.storages[i].0@, history.storages[j].0@) || (
            history.storages[i].0 == history.storages[j].0 && bytes_lt(
                history.storages[i].1@,
                history.storages[j].1@,
            )),
        0 <= i < j < listing(history, hashed).len(),
    ensures
        match (listing(history, hashed)[i], listing(history, hashed)[j]) {
            (AccountStorageItem::Account(a), AccountStorageItem::Account(b)) => bytes_lt(a@, b@),
            (AccountStorageItem::Account(a), AccountStorageItem::StorageSlot(b, _)) => a == b
                || bytes_lt(a@, b@),
            (AccountStorageItem::StorageSlot(a, _), AccountStorageItem::Account(b)) => bytes_lt(
                a@,
                b@,
            ),
            (
                AccountStorageItem::StorageSlot(a, x),
                AccountStorageItem::StorageSlot(b, y),
            ) => bytes_lt(a@, b@) || (a == b && bytes_lt(x@, y@)),
        },
{
    law_listing_is_ordered(history, hashed);
    assert(plain_order()(listing(history, hashed)[i], listing(history, hashed)[j]));
}

/// Results are sorted out into successes and errors, each in its order, and none is left out.
pub proof fn law_results_are_sorted_out<T, E>(
    results: Seq<Result<T, E>>,
    is_success: spec_fn(Result<T, E>) -> bool,
    is_error: spec_fn(Result<T, E>) -> bool,
)
    requires
        forall|result: Result<T, E>| #[trigger] is_success(result) == (result is Ok),
        forall|result: Result<T, E>| #[trigger] is_error(result) == (result is Err),
    ensures
        successes(results).len() == results.filter(is_success).len(),
        failures(results).len() == results.filter(is_error).len(),
        forall|i: int|
            0 <= i < successes(results).len() ==> results.filter(is_success)[i] == Ok::<T, E>(
                #[trigger] successes(results)[i],
            ),
        forall|i: int|
            0 <= i < failures(results).len() ==> results.filter(is_error)[i] == Err::<T, E>(
                #[trigger] failures(results)[i],
            ),
    decreases results.len(),
{
    if results.len() == 0 {
        reveal(Seq::filter);
    } else {
        let rest = results.drop_first();
        law_results_are_sorted_out(rest, is_success, is_error);
        lemma_filter_first(results, is_success);
        lemma_filter_first(results, is_error);
        assert(is_success(results[0]) == (results[0] is Ok));
        assert(is_error(results[0]) == (results[0] is Err));
        assert forall|i: int| 0 <= i < successes(results).len() implies results.filter(
            is_success,
        )[i] == Ok::<T, E>(#[trigger] successes(results)[i]) by {
            if results[0] is Ok {
                if i > 0 {
                    assert(successes(results)[i] == successes(rest)[i - 1]);
                }
            } else {
                assert(successes(results)[i] == successes(rest)[i]);
            }
        }
        assert forall|i: int| 0 <= i < failures(results).len() implies results.filter(is_error)[i]
            == Err::<T, E>(#[trigger] failures(results)[i]) by {
            if results[0] is Err {
                if i > 0 {
                    assert(failures(results)[i] == failures(rest)[i - 1]);
                }
            } else {
                assert(failures(results)[i] == failures(rest)[i]);
            }
        }
    }
}

/// Values that were all read are successes, one for each.
pub proof fn law_all_read_are_successes<T, E>(values: Seq<T>)
    ensures
        all_read::<T, E>(values).len() == values.len(),
        forall|i: int|
            0 <= i < values.len() ==> all_read::<T, E>(values)[i] == Ok::<T, E>(
                #[trigger] values[i],
            ),
{
}

/// A row behind others is kept exactly where it differs from the row before it: the last of the
/// others, or `last` where there are none.
pub proof fn law_rows_are_kept_unless_repeated<T>(rows: Seq<T>, row: T, last: Option<T>)
    ensures
        unrepeated(Seq::<T>::empty(), last) == Seq::<T>::empty(),
        unrepeated(rows.push(row), last) == (if (rows.len() > 0 && rows.last() == row) || (
        rows.len() == 0 && last == Some(row)) {
            unrepeated(rows, last)
        } else {
            unrepeated(rows, last).push(row)
        }),
    decreases rows.len(),
{
    if rows.len() == 0 {
        assert(rows.push(row).drop_first() =~= Seq::empty());
        assert(rows =~= Seq::empty());
        assert(unrepeated(rows.push(row).drop_first(), Some(row)) =~= Seq::empty());
        assert(unrepeated(rows, last) =~= Seq::empty());
        if last != Some(row) {
            assert(unrepeated(rows.push(row), last) =~= unrepeated(rows, last).push(row));
        }
    } else {
        let rest = rows.drop_first();
        assert(rows.push(row).drop_first() =~= rest.push(row));
        let next = if last == Some(rows[0]) { last } else { Some(rows[0]) };
        law_rows_are_kept_unless_repeated(rest, row, next);
        assert(rows.push(row)[0] == rows[0]);
        if rest.len() > 0 {
            assert(rest.last() == rows.last());
        } else {
            assert(rows.last() == rows[0]);
        }
        assert(unrepeated(rows.push(row), last) =~= (if rows.last() == row {
            unrepeated(rows, last)
        } else {
            unrepeated(rows, last).push(row)
        }));
    }
}

/// The storage rows that are reached are those before the first row of a larger address than that
/// of the last account; without accounts none is.
pub proof fn law_reached_rows_end_at_a_larger_address<E>(
    rows: Seq<Result<(Address, B256), E>>,
    accounts: Seq<Address>,
    count: int,
)
    requires
        accounts.len() > 0,
        0 <= count <= rows.len(),
        forall|i: int|
            0 <= i < count ==> (#[trigger] rows[i] matches Ok(row) ==> !bytes_lt(
                accounts.last()@,
                row.0@,
            )),
        count < rows.len() ==> (rows[count] matches Ok(row) && bytes_lt(
            accounts.last()@,
            row.0@,
        )),
    ensures
        reached_rows(rows, accounts) == rows.take(count),
        reached_rows(rows, Seq::empty()) == Seq::<Result<(Address, B256), E>>::empty(),
        reach(rows, accounts.last()) == count,
        beyond(rows, accounts.last()) == rows.skip(count),
{
    lemma_reach_is(rows, accounts.last(), count);
}

proof fn lemma_reach_is<E>(rows: Seq<Result<(Address, B256), E>>, address: Address, count: int)
    requires
        0 <= count <= rows.len(),
        forall|i: int|
            0 <= i < count ==> (#[trigger] rows[i] matches Ok(row) ==> !bytes_lt(address@, row.0@)),
        count < rows.len() ==> (rows[count] matches Ok(row) && bytes_lt(address@, row.0@)),
    ensures
        reach(rows, address) == count,
    decreases rows.len(),
{
    if rows.len() > 0 && count > 0 {
        let rest = rows.drop_first();
        assert forall|i: int| 0 <= i < count - 1 implies (#[trigger] rest[i] matches Ok(row)
            ==> !bytes_lt(address@, row.0@)) by {
            assert(rest[i] == rows[i + 1]);
        }
        assert(rows[0] matches Ok(row) ==> !bytes_lt(address@, row.0@));
        lemma_reach_is(rest, address, count - 1);
    }
}

/// What the lookups show: an account's digest where the lookup of it finds it, and a slot's digest
/// where the lookup of it finds just this one. Accounts and slots are looked up by their digests.
pub proof fn law_lookups_show_what_they_find<E>(
    lookups: Lookups<E>,
    account: B256,
    slot: B256,
    row: (Address, B256),
)
    ensures
        lookups.shown().accounts.contains(account) <==> (lookups.account)(account) == Ok::<
            bool,
            E,
        >(true),
        lookups.shown().storages.contains((account, slot)) <==> (lookups.slot)(account, slot)
            == Ok::<Option<B256>, E>(Some(slot)),
        lookups.of_account(row.0) == (lookups.account)(keccak(row.0@)),
        lookups.of_slot(row) == (lookups.slot)(keccak(row.0@), keccak(row.1@)),
{
}

/// An error is among the failures exactly where it is among the results.
pub proof fn lemma_failures_contain<T, E>(results: Seq<Result<T, E>>, e: E)
    ensures
        failures(results).contains(e) <==> results.contains(Err::<T, E>(e)),
    decreases results.len(),
{
    if results.len() > 0 {
        let rest = results.drop_first();
        lemma_failures_contain(rest, e);
        let all = failures(results);
        if all.contains(e) {
            if let Err(first) = results[0] {
                let i = choose|i: int| 0 <= i < all.len() && all[i] == e;
                if i == 0 {
                    assert(results[0] == Err::<T, E>(e));
                } else {
                    assert(failures(rest)[i - 1] == e);
                }
            }
            if failures(rest).contains(e) {
                let k = choose|k: int| 0 <= k < rest.len() && rest[k] == Err::<T, E>(e);
                assert(results[k + 1] == Err::<T, E>(e));
            }
        }
        if results.contains(Err::<T, E>(e)) {
            let k = choose|k: int| 0 <= k < results.len() && results[k] == Err::<T, E>(e);
            if k == 0 {
                assert(all[0] == e);
            } else {
                assert(rest[k - 1] == Err::<T, E>(e));
                let i = choose|i: int| 0 <= i < failures(rest).len() && failures(rest)[i] == e;
                if results[0] is Err {
                    assert(all[i + 1] == e);
                } else {
                    assert(all[i] == e);
                }
            }
        }
    }
}

/// A value is among the successes exactly where it is among the results.
pub proof fn lemma_successes_contain<T, E>(results: Seq<Result<T, E>>, value: T)
    ensures
        successes(results).contains(value) <==> results.contains(Ok::<T, E>(value)),
    decreases results.len(),
{
    if results.len() > 0 {
        let rest = results.drop_first();
        lemma_successes_contain(rest, value);
        let all = successes(results);
        if all.contains(value) {
            if let Ok(first) = results[0] {
                let i = choose|i: int| 0 <= i < all.len() && all[i] == value;
                if i == 0 {
                    assert(results[0] == Ok::<T, E>(value));
                } else {
                    assert(successes(rest)[i - 1] == value);
                }
            }
            if successes(rest).contains(value) {
                let k = choose|k: int| 0 <= k < rest.len() && rest[k] == Ok::<T, E>(value);
                assert(results[k + 1] == Ok::<T, E>(value));
            }
        }
        if results.contains(Ok::<T, E>(value)) {
            let k = choose|k: int| 0 <= k < results.len() && results[k] == Ok::<T, E>(value);
            if k == 0 {
                assert(all[0] == value);
            } else {
                assert(rest[k - 1] == Ok::<T, E>(value));
                let i = choose|i: int|
                    0 <= i < successes(rest).len() && successes(rest)[i] == value;
                if results[0] is Ok {
                    assert(all[i + 1] == value);
                } else {
                    assert(all[i] == value);
                }
            }
        }
    }
}

} // verus!
