//! What holds of whole runs of the plain listing.

use crate::bytes::{
    bytes_le, bytes_lt, law_bytes_lt_irreflexive, law_bytes_lt_transitive, lemma_same_bytes,
    Address, B256,
};
use crate::hashing::keccak;
use crate::iterators::failing::{
    account_entries, all_read, entries, entries_from, failures, law_lookups_show_tables,
    lemma_all_read, lemma_none_failed, lemma_results_join, rows_behind, slot_entries, slot_entry,
    successes, Lookups, Rows,
};
use crate::iterators::failing_counts::{
    account_answers, law_failures_are_handed_out_once, reached_rows, slot_answers, slot_failures,
};
use crate::iterators::failing_laws::{law_items_ignore_failures, lemma_single};
use crate::iterators::listing::{
    accounts_sorted, law_exact_entry_is_live, listing, live_accounts, storages_grouped, Hashed,
    History,
};
use crate::iterators::listing_laws::item_address;
use crate::iterators::plain::{
    rows_past, rows_to_come, Answer, Peeked, Pending, PlainIterator, Step,
};
use crate::iterators::plain_order::{
    law_plain_entries, later_rows, lemma_ordered_behind, lemma_reach, next_row, ordered_behind, Run,
};
use crate::iterators::AccountStorageItem;
use vstd::prelude::*;

verus! {

/// Where no result is an error there are no errors.
proof fn lemma_no_failures<T, E>(results: Seq<Result<T, E>>)
    requires
        forall|i: int| 0 <= i < results.len() ==> #[trigger] results[i] is Ok,
    ensures
        failures(results) == Seq::<E>::empty(),
    decreases results.len(),
{
    if results.len() > 0 {
        let rest = results.drop_first();
        assert forall|i: int| 0 <= i < rest.len() implies #[trigger] rest[i] is Ok by {
            assert(rest[i] == results[i + 1]);
        }
        lemma_no_failures(rest);
        assert(results[0] is Ok);
    }
}

/// Where no lookup of a slot fails, there are no such errors.
proof fn lemma_no_slot_failures<E>(
    lookups: Lookups<E>,
    rows: Seq<(Address, B256)>,
    accounts: Seq<Address>,
)
    requires
        lookups.slots_found(),
    ensures
        slot_failures(lookups, rows, accounts) == Seq::<E>::empty(),
    decreases accounts.len(),
{
    if accounts.len() > 0 {
        let answers = slot_answers(lookups, rows, accounts[0], None);
        assert forall|i: int| 0 <= i < answers.len() implies #[trigger] answers[i] is Ok by {
        }
        lemma_no_failures(answers);
        lemma_no_slot_failures(lookups, rows, accounts.drop_first());
        assert(slot_failures(lookups, rows, accounts) =~= Seq::empty());
    }
}

/// Where no lookup of an account fails, there are no such errors.
proof fn lemma_no_account_failures<E>(lookups: Lookups<E>, accounts: Seq<Address>)
    requires
        lookups.accounts_found(),
    ensures
        failures(account_answers(lookups, accounts, None)) == Seq::<E>::empty(),
{
    let answers = account_answers(lookups, accounts, None);
    assert forall|i: int| 0 <= i < answers.len() implies #[trigger] answers[i] is Ok by {
    }
    lemma_no_failures(answers);
}

/// Over tables that are ordered by address, and of which some rows cannot be read, a run of the
/// listing comes to its end. Its items are, in order, those of the same tables without the failing
/// rows. Each failing row of the account history is handed out once, and each failing row of the
/// storage history that is reached: those before the first row of a larger address than the last
/// live account.
pub proof fn law_failing_rows<E>(
    rows: Rows<E>,
    hashed: Hashed,
    lookups: Lookups<E>,
    within: nat,
)
    requires
        accounts_sorted(rows.readable().accounts),
        storages_grouped(rows.readable().storages),
        lookups.tells(hashed),
        lookups.accounts_found(),
        lookups.slots_found(),
        within > 5 * rows.accounts.len() + 5 * rows.storages.len(),
    ensures
        Run::start(rows).handed_out(lookups, within) matches Some(out) && {
            let live = live_accounts(hashed, rows.readable().accounts, None);
            &&& successes(out) == listing(rows.readable(), hashed)
            &&& failures(out).to_multiset() == failures(rows.accounts).to_multiset().add(
                failures(reached_rows(rows.storages, live)).to_multiset(),
            )
        },
{
    broadcast use vstd::multiset::group_multiset_axioms;

    let live = live_accounts(hashed, rows.readable().accounts, None);
    law_plain_entries(rows, lookups, within);
    law_lookups_show_tables(lookups, hashed);
    law_items_ignore_failures(lookups, rows);
    law_failures_are_handed_out_once(lookups, rows);
    lemma_no_account_failures(lookups, rows.readable().accounts);
    lemma_no_slot_failures(lookups, rows.readable().storages, live);
    Seq::<E>::empty().to_multiset_ensures();
    assert(failures(entries(lookups, rows)).to_multiset() =~= failures(
        rows.accounts,
    ).to_multiset().add(failures(reached_rows(rows.storages, live)).to_multiset()));
}

/// Over tables that are ordered by address, and that can be read and looked up without errors, a
/// run of the listing comes to its end, and hands out every live account of the account history
/// in the order of the rows, once for each run of equal rows, and behind each account its live
/// slots.
pub proof fn law_plain_listing<E>(
    history: History,
    hashed: Hashed,
    lookups: Lookups<E>,
    within: nat,
)
    requires
        accounts_sorted(history.accounts),
        storages_grouped(history.storages),
        lookups.tells(hashed),
        lookups.accounts_found(),
        lookups.slots_found(),
        within > 5 * history.accounts.len() + 5 * history.storages.len(),
    ensures
        Run::start(history.rows()).handed_out(lookups, within) == Some(
            all_read::<AccountStorageItem, E>(listing(history, hashed)),
        ),
{
    broadcast use vstd::multiset::group_multiset_axioms;

    let rows = history.rows::<E>();
    lemma_all_read::<Address, E>(history.accounts);
    lemma_all_read::<(Address, B256), E>(history.storages);
    assert(rows.readable() == history);
    law_plain_entries(rows, lookups, within);
    law_failing_rows(rows, hashed, lookups, within);
    let out = entries(lookups, rows);
    let reached = reached_rows(rows.storages, live_accounts(hashed, history.accounts, None));
    assert forall|i: int| 0 <= i < reached.len() implies #[trigger] reached[i] is Ok by {
        let live = live_accounts(hashed, history.accounts, None);
        lemma_reach(rows.storages, live.last());
    }
    lemma_no_failures(reached);
    Seq::<E>::empty().to_multiset_ensures();
    failures(out).to_multiset_ensures();
    assert(failures(out).to_multiset().len() == 0);
    lemma_none_failed(out);
}

/// The entry is an item of an account.
pub open spec fn is_item_of<E>(entry: Result<AccountStorageItem, E>, address: Address) -> bool {
    entry matches Ok(item) && item_address(item) == address
}

/// The entry is an item of a larger address.
pub open spec fn is_item_behind<E>(entry: Result<AccountStorageItem, E>, address: Address) -> bool {
    entry matches Ok(item) && bytes_lt(address@, item_address(item)@)
}

/// The entry is an item of a smaller address.
pub open spec fn is_item_before<E>(entry: Result<AccountStorageItem, E>, address: Address) -> bool {
    entry matches Ok(item) && bytes_lt(item_address(item)@, address@)
}

/// No row fails.
spec fn none_fails<T, E>(rows: Seq<Result<T, E>>) -> bool {
    forall|i: int| 0 <= i < rows.len() ==> #[trigger] rows[i] is Ok
}

proof fn lemma_none_fails_behind<T, E>(rows: Seq<Result<T, E>>)
    requires
        none_fails(rows),
        rows.len() > 0,
    ensures
        none_fails(rows.drop_first()),
        rows[0] is Ok,
{
    assert forall|i: int| 0 <= i < rows.drop_first().len() implies #[trigger]
        rows.drop_first()[i] is Ok by {
        assert(rows.drop_first()[i] == rows[i + 1]);
    }
}

/// Without failures, the entries of an account's slots are its items.
proof fn lemma_slot_entries_of<E>(
    lookups: Lookups<E>,
    rows: Seq<Result<(Address, B256), E>>,
    address: Address,
    last: Option<(Address, B256)>,
)
    requires
        none_fails(rows),
        lookups.slots_found(),
    ensures
        forall|i: int|
            0 <= i < slot_entries(lookups, rows, address, last).len() ==> is_item_of(
                #[trigger] slot_entries(lookups, rows, address, last)[i],
                address,
            ),
    decreases rows.len(),
{
    if rows.len() > 0 {
        let rest = rows.drop_first();
        lemma_none_fails_behind(rows);
        let row = rows[0]->Ok_0;
        lemma_slot_entries_of(lookups, rest, address, last);
        lemma_slot_entries_of(lookups, rest, address, Some(row));
        assert(lookups.of_slot((address, row.1)) is Ok);
        let all = slot_entries(lookups, rows, address, last);
        let same = slot_entries(lookups, rest, address, last);
        let later = slot_entries(lookups, rest, address, Some(row));
        let own = slot_entry(lookups, (address, row.1));
        assert forall|i: int| 0 <= i < all.len() implies is_item_of(#[trigger] all[i], address) by {
            if row.0 != address || last == Some(row) {
                assert(all == same);
                assert(is_item_of(same[i], address));
            } else {
                assert(all == own + later);
                if i >= own.len() {
                    assert(is_item_of(later[i - own.len()], address));
                }
            }
        }
    }
}

/// Without failures, the entries of an account are its items.
proof fn lemma_account_entries_of<E>(
    lookups: Lookups<E>,
    rows: Seq<Result<(Address, B256), E>>,
    address: Address,
)
    requires
        none_fails(rows),
        lookups.slots_found(),
        lookups.of_account(address) is Ok,
    ensures
        forall|i: int|
            0 <= i < account_entries(lookups, rows, address).len() ==> is_item_of(
                #[trigger] account_entries(lookups, rows, address)[i],
                address,
            ),
        none_fails(rows_behind(lookups, rows, address)),
{
    lemma_slot_entries_of(lookups, rows, address, None);
    lemma_reach(rows, address);
    let behind = rows_behind(lookups, rows, address);
    assert forall|i: int| 0 <= i < behind.len() implies #[trigger] behind[i] is Ok by {
    }
}

/// Only the lookup of one account fails.
spec fn only_fails<E>(
    lookups: Lookups<E>,
    accounts: Seq<Result<Address, E>>,
    failing: Address,
) -> bool {
    &&& none_fails(accounts)
    &&& forall|i: int|
        #![trigger accounts[i]]
        0 <= i < accounts.len() && accounts[i]->Ok_0 != failing ==> lookups.of_account(
            accounts[i]->Ok_0,
        ) is Ok
}

proof fn lemma_only_fails_behind<E>(
    lookups: Lookups<E>,
    accounts: Seq<Result<Address, E>>,
    failing: Address,
)
    requires
        only_fails(lookups, accounts, failing),
        accounts.len() > 0,
    ensures
        only_fails(lookups, accounts.drop_first(), failing),
        accounts[0] is Ok,
        accounts[0]->Ok_0 != failing ==> lookups.of_account(accounts[0]->Ok_0) is Ok,
{
    lemma_none_fails_behind(accounts);
    let rest = accounts.drop_first();
    assert forall|i: int|
        #![trigger rest[i]]
        0 <= i < rest.len() && rest[i]->Ok_0 != failing implies lookups.of_account(
        rest[i]->Ok_0,
    ) is Ok by {
        assert(rest[i] == accounts[i + 1]);
    }
}

/// Behind the failing account all entries are items of larger addresses.
proof fn lemma_entries_behind<E>(
    lookups: Lookups<E>,
    accounts: Seq<Result<Address, E>>,
    rows: Seq<Result<(Address, B256), E>>,
    last: Address,
    failing: Address,
)
    requires
        ordered_behind(accounts, Some(last)),
        only_fails(lookups, accounts, failing),
        bytes_le(failing@, last@),
        none_fails(rows),
        lookups.slots_found(),
    ensures
        forall|i: int|
            0 <= i < entries_from(lookups, accounts, rows, Some(last)).len() ==> is_item_behind(
                #[trigger] entries_from(lookups, accounts, rows, Some(last))[i],
                failing,
            ),
    decreases accounts.len(),
{
    if accounts.len() > 0 {
        let rest = accounts.drop_first();
        lemma_ordered_behind(accounts, Some(last));
        lemma_only_fails_behind(lookups, accounts, failing);
        let address = accounts[0]->Ok_0;
        assert(accounts[0] == Ok::<Address, E>(address));
        if address == last {
            lemma_entries_behind(lookups, rest, rows, last, failing);
            assert(entries_from(lookups, accounts, rows, Some(last)) == entries_from(
                lookups,
                rest,
                rows,
                Some(last),
            ));
        } else {
            lemma_same_bytes(address, last);
            if failing@ != last@ {
                law_bytes_lt_transitive(failing@, last@, address@);
            }
            law_bytes_lt_irreflexive(failing@);
            lemma_account_entries_of(lookups, rows, address);
            let own = account_entries(lookups, rows, address);
            let behind = rows_behind(lookups, rows, address);
            let later = entries_from(lookups, rest, behind, Some(address));
            lemma_entries_behind(lookups, rest, behind, address, failing);
            let all = entries_from(lookups, accounts, rows, Some(last));
            assert(all == own + later);
            assert forall|i: int| 0 <= i < all.len() implies is_item_behind(
                #[trigger] all[i],
                failing,
            ) by {
                if i < own.len() {
                    assert(is_item_of(own[i], address));
                } else {
                    assert(is_item_behind(later[i - own.len()], failing));
                }
            }
        }
    }
}

/// Where the error of the failing account stands among the entries.
proof fn lemma_failed_lookup_place<E>(
    lookups: Lookups<E>,
    accounts: Seq<Result<Address, E>>,
    rows: Seq<Result<(Address, B256), E>>,
    last: Option<Address>,
    failing: Address,
    e: E,
) -> (place: int)
    requires
        ordered_behind(accounts, last),
        only_fails(lookups, accounts, failing),
        accounts.contains(Ok::<Address, E>(failing)),
        last != Some(failing),
        lookups.of_account(failing) == Err::<bool, E>(e),
        none_fails(rows),
        lookups.slots_found(),
    ensures
        ({
            let all = entries_from(lookups, accounts, rows, last);
            &&& 0 <= place < all.len()
            &&& all[place] == Err::<AccountStorageItem, E>(e)
            &&& forall|i: int| 0 <= i < place ==> is_item_before(#[trigger] all[i], failing)
            &&& forall|i: int| place < i < all.len() ==> is_item_behind(#[trigger] all[i], failing)
        }),
    decreases accounts.len(),
{
    let rest = accounts.drop_first();
    let all = entries_from(lookups, accounts, rows, last);
    let at = choose|i: int| 0 <= i < accounts.len() && accounts[i] == Ok::<Address, E>(failing);
    lemma_ordered_behind(accounts, last);
    lemma_only_fails_behind(lookups, accounts, failing);
    let address = accounts[0]->Ok_0;
    assert(accounts[0] == Ok::<Address, E>(address));
    if address == failing {
        let later = entries_from(lookups, rest, rows, Some(failing));
        lemma_entries_behind(lookups, rest, rows, failing, failing);
        assert(all == seq![Err::<AccountStorageItem, E>(e)] + later);
        assert forall|i: int| 0 < i < all.len() implies is_item_behind(
            #[trigger] all[i],
            failing,
        ) by {
            assert(is_item_behind(later[i - 1], failing));
        }
        0
    } else {
        assert(rest[at - 1] == Ok::<Address, E>(failing));
        if last == Some(address) {
            lemma_failed_lookup_place(lookups, rest, rows, last, failing, e)
        } else {
            lemma_failing_behind(rest, address, failing);
            lemma_account_entries_of(lookups, rows, address);
            let own = account_entries(lookups, rows, address);
            let behind = rows_behind(lookups, rows, address);
            let later = entries_from(lookups, rest, behind, Some(address));
            let place = lemma_failed_lookup_place(
                lookups,
                rest,
                behind,
                Some(address),
                failing,
                e,
            );
            assert(all == own + later);
            assert forall|i: int| 0 <= i < own.len() + place implies is_item_before(
                #[trigger] all[i],
                failing,
            ) by {
                if i < own.len() {
                    assert(is_item_of(own[i], address));
                } else {
                    assert(is_item_before(later[i - own.len()], failing));
                }
            }
            assert forall|i: int| own.len() + place < i < all.len() implies is_item_behind(
                #[trigger] all[i],
                failing,
            ) by {
                assert(is_item_behind(later[i - own.len()], failing));
            }
            own.len() + place
        }
    }
}

/// An account that comes later, and is another one, has a larger address.
proof fn lemma_failing_behind<E>(
    accounts: Seq<Result<Address, E>>,
    last: Address,
    later: Address,
)
    requires
        ordered_behind(accounts, Some(last)),
        accounts.contains(Ok::<Address, E>(later)),
        later != last,
    ensures
        bytes_lt(last@, later@),
    decreases accounts.len(),
{
    let at = choose|i: int| 0 <= i < accounts.len() && accounts[i] == Ok::<Address, E>(later);
    lemma_ordered_behind(accounts, Some(last));
    lemma_same_bytes(last, later);
    if at > 0 {
        assert(accounts.drop_first()[at - 1] == Ok::<Address, E>(later));
        lemma_failing_behind(accounts.drop_first(), last, later);
    }
}

/// Over tables that are ordered by address and can be read without errors, where the lookup of
/// one account fails and no other does, a run of the listing comes to its end. The error is handed
/// out once, in the place of the account: all items before it are of smaller addresses, and all
/// behind it of larger ones. So nothing of that account is listed, and the items are those that
/// are listed where the account is not live.
pub proof fn law_failed_account_lookup<E>(
    history: History,
    hashed: Hashed,
    lookups: Lookups<E>,
    failing: Address,
    e: E,
    within: nat,
)
    requires
        accounts_sorted(history.accounts),
        storages_grouped(history.storages),
        history.accounts.contains(failing),
        forall|i: int|
            0 <= i < history.accounts.len() && keccak((#[trigger] history.accounts[i])@) == keccak(
                failing@,
            ) ==> history.accounts[i] == failing,
        lookups.tells(hashed),
        lookups.of_account(failing) == Err::<bool, E>(e),
        forall|hash: B256|
            hash != keccak(failing@) ==> #[trigger] (lookups.account)(hash) is Ok,
        lookups.slots_found(),
        within > 5 * history.accounts.len() + 5 * history.storages.len(),
    ensures
        Run::start(history.rows()).handed_out(lookups, within) matches Some(out) && {
            &&& failures(out) == seq![e]
            &&& successes(out) == listing(
                history,
                Hashed { accounts: hashed.accounts.remove(keccak(failing@)), ..hashed },
            )
            &&& exists|place: int|
                {
                    &&& 0 <= place < out.len()
                    &&& #[trigger] out[place] == Err::<AccountStorageItem, E>(e)
                    &&& forall|i: int| 0 <= i < place ==> is_item_before(#[trigger] out[i], failing)
                    &&& forall|i: int|
                        place < i < out.len() ==> is_item_behind(#[trigger] out[i], failing)
                    &&& forall|i: int|
                        0 <= i < place ==> match #[trigger] out[i] {
                            Ok(AccountStorageItem::Account(address)) => bytes_lt(
                                address@,
                                failing@,
                            ),
                            Ok(AccountStorageItem::StorageSlot(address, _)) => bytes_lt(
                                address@,
                                failing@,
                            ),
                            Err(_) => false,
                        }
                    &&& forall|i: int|
                        place < i < out.len() ==> match #[trigger] out[i] {
                            Ok(AccountStorageItem::Account(address)) => bytes_lt(
                                failing@,
                                address@,
                            ),
                            Ok(AccountStorageItem::StorageSlot(address, _)) => bytes_lt(
                                failing@,
                                address@,
                            ),
                            Err(_) => false,
                        }
                }
        },
{
    let rows = history.rows::<E>();
    let out = entries(lookups, rows);
    let without = Hashed { accounts: hashed.accounts.remove(keccak(failing@)), ..hashed };
    lemma_all_read::<Address, E>(history.accounts);
    lemma_all_read::<(Address, B256), E>(history.storages);
    assert(rows.readable() == history);
    law_plain_entries(rows, lookups, within);
    law_items_ignore_failures(lookups, rows);
    assert(lookups.shown() == without) by {
        assert forall|hash: B256|
            lookups.shown().accounts.contains(hash) == without.accounts.contains(hash) by {
            if hash != keccak(failing@) {
                assert((lookups.account)(hash) is Ok);
            }
        }
        assert forall|hashes: (B256, B256)|
            lookups.shown().storages.contains(hashes) == without.storages.contains(hashes) by {
            let entry = (lookups.slot)(hashes.0, hashes.1);
            assert(entry is Ok);
            law_exact_entry_is_live(hashed, hashes.0, hashes.1, entry->Ok_0);
        }
        assert(lookups.shown().accounts =~= without.accounts);
        assert(lookups.shown().storages =~= without.storages);
    }
    assert(only_fails(lookups, rows.accounts, failing)) by {
        assert forall|i: int|
            #![trigger rows.accounts[i]]
            0 <= i < rows.accounts.len() && rows.accounts[i]->Ok_0 != failing implies
            lookups.of_account(rows.accounts[i]->Ok_0) is Ok by {
            assert(rows.accounts[i]->Ok_0 == history.accounts[i]);
        }
    }
    let at = choose|i: int| 0 <= i < history.accounts.len() && history.accounts[i] == failing;
    assert(rows.accounts[at] == Ok::<Address, E>(failing));
    let place = lemma_failed_lookup_place(
        lookups,
        rows.accounts,
        rows.storages,
        None,
        failing,
        e,
    );
    lemma_one_failure(out, place, e);
    assert forall|i: int| 0 <= i < place implies match #[trigger] out[i] {
        Ok(AccountStorageItem::Account(address)) => bytes_lt(address@, failing@),
        Ok(AccountStorageItem::StorageSlot(address, _)) => bytes_lt(address@, failing@),
        Err(_) => false,
    } by {
        assert(is_item_before(out[i], failing));
    }
    assert forall|i: int| place < i < out.len() implies match #[trigger] out[i] {
        Ok(AccountStorageItem::Account(address)) => bytes_lt(failing@, address@),
        Ok(AccountStorageItem::StorageSlot(address, _)) => bytes_lt(failing@, address@),
        Err(_) => false,
    } by {
        assert(is_item_behind(out[i], failing));
    }
    assert(out[place] == Err::<AccountStorageItem, E>(e));
}

proof fn lemma_one_failure<T, E>(results: Seq<Result<T, E>>, place: int, e: E)
    requires
        0 <= place < results.len(),
        results[place] == Err::<T, E>(e),
        forall|i: int| 0 <= i < results.len() && i != place ==> #[trigger] results[i] is Ok,
    ensures
        failures(results) == seq![e],
{
    let before = results.take(place);
    let after = results.skip(place + 1);
    let error = seq![Err::<T, E>(e)];
    assert(results =~= before + (error + after));
    lemma_results_join(error, after);
    lemma_results_join(before, error + after);
    lemma_single(Err::<T, E>(e));
    lemma_no_failures(before);
    lemma_no_failures(after);
    assert(failures(results) =~= seq![e]);
}

/// How the rows of an address are passed over, with the rows that are read for it: the listing
/// as it stands when a row comes next that is not of the address, or none, and the rows that are
/// left unread.
pub open spec fn passed_over<E>(
    listing: PlainIterator<E>,
    unread: Seq<Result<(Address, B256), E>>,
    address: Address,
) -> (PlainIterator<E>, Seq<Result<(Address, B256), E>>)
    decreases unread.len(), (if listing.peeked is Row { 1nat } else { 0nat }),
{
    match listing.peeked {
        Peeked::Row(row_address, _) if row_address == address => passed_over(
            listing.consumed(),
            unread,
            address,
        ),
        Peeked::Empty => {
            let ahead = PlainIterator {
                peeked: PlainIterator::row_ahead(next_row(unread)),
                ..listing
            };
            if unread.len() == 0 {
                (ahead, unread)
            } else {
                passed_over(ahead, unread.drop_first(), address)
            }
        },
        _ => (listing, unread),
    }
}

/// How passing over the rows of an address goes on when each row that is asked for is handed
/// back: where it ends, and the rows that are left unread.
pub open spec fn passing_driven<E>(
    at: (PlainIterator<E>, Step<E>),
    unread: Seq<Result<(Address, B256), E>>,
    address: Address,
    within: nat,
) -> Option<((PlainIterator<E>, Step<E>), Seq<Result<(Address, B256), E>>)>
    decreases within,
{
    if at.0.pending != Pending::PassedRow(address) {
        Some((at, unread))
    } else if within == 0 {
        None
    } else {
        passing_driven(
            at.0.answered(Answer::StorageRow(next_row(unread))),
            later_rows(unread),
            address,
            (within - 1) as nat,
        )
    }
}

/// Passing over the rows of an address leaves exactly the rows from the first one on that is not
/// of the address. So passing over them a second time changes nothing: neither the listing nor
/// the rows that are still to come.
pub proof fn law_passing_twice_changes_nothing<E>(
    listing: PlainIterator<E>,
    unread: Seq<Result<(Address, B256), E>>,
    address: Address,
)
    requires
        listing.peeked is Exhausted ==> unread.len() == 0,
    ensures
        ({
            let (once, left) = passed_over(listing, unread, address);
            &&& rows_to_come(once, left) == rows_past(rows_to_come(listing, unread), address)
            &&& passed_over(once, left, address) == (once, left)
            &&& once.passing(address) == once.resumed()
        }),
    decreases unread.len(), (if listing.peeked is Row { 1nat } else { 0nat }),
{
    let rows = rows_to_come(listing, unread);
    match listing.peeked {
        Peeked::Row(row_address, slot) => {
            assert(rows[0] == Ok::<(Address, B256), E>((row_address, slot)));
            assert(rows.drop_first() =~= unread);
            if row_address == address {
                law_passing_twice_changes_nothing(listing.consumed(), unread, address);
            }
        },
        Peeked::Empty => {
            let ahead = PlainIterator {
                peeked: PlainIterator::row_ahead(next_row(unread)),
                ..listing
            };
            if unread.len() > 0 {
                assert(rows_to_come(ahead, unread.drop_first()) =~= unread);
                law_passing_twice_changes_nothing(ahead, unread.drop_first(), address);
            }
        },
        _ => {},
    }
}

/// When each row that is asked for is handed back, passing over the rows of an address comes to
/// its end, and the listing goes on from where the rows are passed over.
pub proof fn law_passing_goes_past<E>(
    listing: PlainIterator<E>,
    unread: Seq<Result<(Address, B256), E>>,
    address: Address,
    within: nat,
)
    requires
        within > unread.len(),
    ensures
        ({
            let (once, left) = passed_over(listing, unread, address);
            passing_driven(listing.passing(address), unread, address, within) == Some(
                (once.resumed(), left),
            )
        }),
    decreases within,
{
    let at = listing.passing(address);
    match listing.peeked {
        Peeked::Row(row_address, _) if row_address != address => {
            lemma_resumed_elsewhere(listing, address);
        },
        Peeked::Exhausted => {
            lemma_resumed_elsewhere(listing, address);
        },
        Peeked::Failed(_) => {
            lemma_resumed_elsewhere(listing, address);
        },
        _ => {
            let ahead = PlainIterator {
                peeked: PlainIterator::row_ahead(next_row(unread)),
                ..at.0
            };
            let same = PlainIterator { pending: listing.pending, ..ahead };
            assert(at.0.answered(Answer::StorageRow(next_row(unread))) == ahead.passing(address));
            lemma_pending_ignored(ahead, listing.pending, later_rows(unread), address);
            if unread.len() == 0 {
                lemma_resumed_elsewhere(ahead, address);
                assert(passing_driven(
                    ahead.passing(address),
                    unread,
                    address,
                    (within - 1) as nat,
                ) == Some((ahead.passing(address), unread)));
                assert(ahead.passing(address) == same.resumed());
                if listing.peeked is Row {
                    assert(passed_over(listing, unread, address) == passed_over(
                        listing.consumed(),
                        unread,
                        address,
                    ));
                }
            } else {
                law_passing_goes_past(ahead, unread.drop_first(), address, (within - 1) as nat);
                if listing.peeked is Row {
                    assert(passed_over(listing, unread, address) == passed_over(
                        listing.consumed(),
                        unread,
                        address,
                    ));
                }
            }
        },
    }
}

/// Going on from a row that is not of the address does not pass over the address.
proof fn lemma_resumed_elsewhere<E>(listing: PlainIterator<E>, address: Address)
    requires
        !(listing.peeked is Empty),
        listing.peeked matches Peeked::Row(row_address, _) ==> row_address != address,
    ensures
        listing.resumed().0.pending != Pending::PassedRow(address),
        listing.passing(address) == listing.resumed(),
{
}

/// What the listing waited for makes no difference to where it stands when the rows are passed.
proof fn lemma_pending_ignored<E>(
    listing: PlainIterator<E>,
    pending: Pending,
    unread: Seq<Result<(Address, B256), E>>,
    address: Address,
)
    ensures
        ({
            let (a, a_left) = passed_over(listing, unread, address);
            let (b, b_left) = passed_over(PlainIterator { pending, ..listing }, unread, address);
            &&& b == (PlainIterator { pending, ..a })
            &&& a_left == b_left
            &&& a.resumed() == b.resumed()
        }),
    decreases unread.len(), (if listing.peeked is Row { 1nat } else { 0nat }),
{
    match listing.peeked {
        Peeked::Row(row_address, _) if row_address == address => {
            lemma_pending_ignored(listing.consumed(), pending, unread, address);
        },
        Peeked::Empty => {
            let ahead = PlainIterator {
                peeked: PlainIterator::row_ahead(next_row(unread)),
                ..listing
            };
            if unread.len() > 0 {
                lemma_pending_ignored(ahead, pending, unread.drop_first(), address);
            }
        },
        _ => {},
    }
}

} // verus!
