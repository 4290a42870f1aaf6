//! Which errors a listing hands out, and how often.

use crate::bytes::{bytes_lt, law_bytes_lt_transitive, Address, B256};
use crate::iterators::failing::{
    account_entries, beyond, entries, entries_from, failures, lemma_results_join, reach,
    rows_behind, slot_entries, slot_entry, successes, Lookups, Rows,
};
use crate::iterators::failing_laws::{
    lemma_beyond_rows, lemma_grouped_behind, lemma_grouped_beyond, lemma_live_accounts_first,
    lemma_no_rows, lemma_single, lemma_slot_entry,
};
use crate::iterators::listing::{
    accounts_sorted, is_of, lemma_filter_first, lemma_listed_behind, live_accounts, rows_of,
    storages_grouped, unrepeated,
};
use crate::iterators::plain_order::{
    lemma_beyond_first, lemma_ordered_behind, lemma_reach, ordered_behind,
};
use crate::iterators::AccountStorageItem;
use vstd::multiset::Multiset;
use vstd::prelude::*;
use vstd::seq_lib::lemma_multiset_commutative;

verus! {

/// What the lookups of some accounts give, each account once for each run of equal rows.
pub open spec fn account_answers<E>(
    lookups: Lookups<E>,
    accounts: Seq<Address>,
    last: Option<Address>,
) -> Seq<Result<bool, E>> {
    unrepeated(accounts, last).map_values(|address: Address| lookups.of_account(address))
}

/// What the lookups of the slots of one account give, each slot once for each run of equal rows.
pub open spec fn slot_answers<E>(
    lookups: Lookups<E>,
    rows: Seq<(Address, B256)>,
    address: Address,
    last: Option<(Address, B256)>,
) -> Seq<Result<Option<B256>, E>> {
    unrepeated(rows_of(rows, address), last).map_values(
        |row: (Address, B256)| lookups.of_slot(row),
    )
}

/// The errors of looking up the slots of some accounts.
pub open spec fn slot_failures<E>(
    lookups: Lookups<E>,
    rows: Seq<(Address, B256)>,
    accounts: Seq<Address>,
) -> Seq<E>
    decreases accounts.len(),
{
    if accounts.len() == 0 {
        Seq::empty()
    } else {
        failures(slot_answers(lookups, rows, accounts[0], None)) + slot_failures(
            lookups,
            rows,
            accounts.drop_first(),
        )
    }
}

/// The storage rows that are reached when the slots of some accounts are listed: those before the
/// first one of a larger address than the last account.
pub open spec fn reached_rows<E>(
    rows: Seq<Result<(Address, B256), E>>,
    accounts: Seq<Address>,
) -> Seq<Result<(Address, B256), E>> {
    if accounts.len() == 0 {
        Seq::empty()
    } else {
        rows.take(reach(rows, accounts.last()) as int)
    }
}

/// The errors of some results, as often as they occur.
pub open spec fn failure_counts<T, E>(results: Seq<Result<T, E>>) -> Multiset<E> {
    failures(results).to_multiset()
}

/// The errors of results one behind the other add up.
proof fn lemma_counts_join<T, E>(a: Seq<Result<T, E>>, b: Seq<Result<T, E>>)
    ensures
        failure_counts(a + b) == failure_counts(a).add(failure_counts(b)),
{
    lemma_results_join(a, b);
    lemma_multiset_commutative(failures(a), failures(b));
}

/// Nothing has no errors.
proof fn lemma_counts_empty<T, E>()
    ensures
        failure_counts(Seq::<Result<T, E>>::empty()) == Multiset::<E>::empty(),
{
    let none = failures(Seq::<Result<T, E>>::empty());
    none.to_multiset_ensures();
    assert(none.to_multiset() =~= Multiset::empty());
}

/// The slot answers, from the first row on.
proof fn lemma_slot_answers_first<E>(
    lookups: Lookups<E>,
    rows: Seq<(Address, B256)>,
    address: Address,
    last: Option<(Address, B256)>,
)
    requires
        rows.len() > 0,
    ensures
        slot_answers(lookups, rows, address, last) == (if rows[0].0 != address || last == Some(
            rows[0],
        ) {
            slot_answers(lookups, rows.drop_first(), address, last)
        } else {
            seq![lookups.of_slot(rows[0])] + slot_answers(
                lookups,
                rows.drop_first(),
                address,
                Some(rows[0]),
            )
        }),
{
    let own = rows_of(rows, address);
    let rest = rows_of(rows.drop_first(), address);
    lemma_filter_first(rows, is_of(address));
    if rows[0].0 != address {
        assert(own =~= rest);
    } else {
        assert(own[0] == rows[0]);
        assert(own.drop_first() =~= rest);
        if last != Some(rows[0]) {
            assert(slot_answers(lookups, rows, address, last) =~= seq![lookups.of_slot(rows[0])]
                + slot_answers(lookups, rows.drop_first(), address, Some(rows[0])));
        }
    }
}

/// The errors among the entries of an account: of the rows that are reached, and of the lookups.
proof fn lemma_slot_counts<E>(
    lookups: Lookups<E>,
    rows: Seq<Result<(Address, B256), E>>,
    address: Address,
    last: Option<(Address, B256)>,
)
    requires
        storages_grouped(successes(rows)),
    ensures
        failure_counts(slot_entries(lookups, rows, address, last)) == failure_counts(
            rows.take(reach(rows, address) as int),
        ).add(failure_counts(slot_answers(lookups, successes(rows), address, last))),
    decreases rows.len(),
{
    broadcast use vstd::multiset::group_multiset_axioms;

    let all = successes(rows);
    let reached = rows.take(reach(rows, address) as int);
    let answers = slot_answers(lookups, all, address, last);
    lemma_counts_empty::<AccountStorageItem, E>();
    lemma_counts_empty::<(Address, B256), E>();
    lemma_counts_empty::<Option<B256>, E>();
    if rows.len() == 0 || (rows[0] matches Ok(row) && bytes_lt(address@, row.0@)) {
        if rows.len() > 0 {
            lemma_grouped_behind(rows);
        }
        lemma_no_rows(all, address);
        assert(reached =~= Seq::empty());
        assert(answers =~= Seq::empty());
        assert(failure_counts(slot_entries(lookups, rows, address, last)) =~= failure_counts(
            reached,
        ).add(failure_counts(answers)));
    } else {
        let rest = rows.drop_first();
        let rest_reached = rest.take(reach(rest, address) as int);
        lemma_grouped_behind(rows);
        lemma_beyond_first(rows, address);
        lemma_reach(rest, address);
        assert(reached =~= seq![rows[0]] + rest_reached);
        lemma_counts_join(seq![rows[0]], rest_reached);
        lemma_single(rows[0]);
        match rows[0] {
            Err(e) => {
                lemma_slot_counts(lookups, rest, address, last);
                lemma_single(Err::<AccountStorageItem, E>(e));
                lemma_counts_join(
                    seq![Err::<AccountStorageItem, E>(e)],
                    slot_entries(lookups, rest, address, last),
                );
                assert(failure_counts(slot_entries(lookups, rows, address, last))
                    =~= failure_counts(reached).add(failure_counts(answers)));
            },
            Ok(row) => {
                assert(failures(seq![rows[0]]) == failures(
                    Seq::<Result<(Address, B256), E>>::empty(),
                ));
                lemma_slot_answers_first(lookups, all, address, last);
                if row.0 != address || last == Some(row) {
                    lemma_slot_counts(lookups, rest, address, last);
                } else {
                    lemma_slot_counts(lookups, rest, address, Some(row));
                    lemma_slot_entry(lookups, row);
                    lemma_counts_join(
                        slot_entry(lookups, row),
                        slot_entries(lookups, rest, address, Some(row)),
                    );
                    lemma_counts_join(
                        seq![lookups.of_slot(row)],
                        slot_answers(lookups, successes(rest), address, Some(row)),
                    );
                }
                assert(failure_counts(slot_entries(lookups, rows, address, last))
                    =~= failure_counts(reached).add(failure_counts(answers)));
            },
        }
    }
}

/// What is reached with a larger address is what is reached with a smaller one, and more.
proof fn lemma_reach_split<E>(
    rows: Seq<Result<(Address, B256), E>>,
    address: Address,
    larger: Address,
)
    requires
        bytes_lt(address@, larger@),
    ensures
        reach(rows, larger) == reach(rows, address) + reach(beyond(rows, address), larger),
    decreases rows.len(),
{
    if rows.len() == 0 || (rows[0] matches Ok(row) && bytes_lt(address@, row.0@)) {
        assert(beyond(rows, address) =~= rows);
    } else {
        lemma_beyond_first(rows, address);
        lemma_reach_split(rows.drop_first(), address, larger);
        if let Ok(row) = rows[0] {
            if bytes_lt(larger@, row.0@) {
                law_bytes_lt_transitive(address@, larger@, row.0@);
            }
        }
    }
}

/// The rows that are reached with one account more in front.
proof fn lemma_reached_first<E>(
    rows: Seq<Result<(Address, B256), E>>,
    address: Address,
    later: Seq<Address>,
)
    requires
        forall|i: int| 0 <= i < later.len() ==> bytes_lt(address@, #[trigger] later[i]@),
    ensures
        reached_rows(rows, seq![address] + later) == rows.take(reach(rows, address) as int)
            + reached_rows(beyond(rows, address), later),
{
    let own = rows.take(reach(rows, address) as int);
    let rest = beyond(rows, address);
    lemma_reach(rows, address);
    if later.len() == 0 {
        assert(reached_rows(rows, seq![address] + later) =~= own + reached_rows(rest, later));
    } else {
        let last = later.last();
        assert(last == later[later.len() - 1]);
        assert((seq![address] + later).last() == last);
        lemma_reach_split(rows, address, last);
        lemma_reach(rest, last);
        assert(reached_rows(rows, seq![address] + later) =~= own + reached_rows(rest, later));
    }
}

/// For larger addresses, only the rows beyond are looked up.
proof fn lemma_beyond_slot_failures<E>(
    lookups: Lookups<E>,
    rows: Seq<Result<(Address, B256), E>>,
    address: Address,
    accounts: Seq<Address>,
)
    requires
        forall|i: int| 0 <= i < accounts.len() ==> bytes_lt(address@, #[trigger] accounts[i]@),
    ensures
        slot_failures(lookups, successes(beyond(rows, address)), accounts) == slot_failures(
            lookups,
            successes(rows),
            accounts,
        ),
    decreases accounts.len(),
{
    if accounts.len() > 0 {
        let rest = accounts.drop_first();
        assert forall|i: int| 0 <= i < rest.len() implies bytes_lt(
            address@,
            #[trigger] rest[i]@,
        ) by {
            assert(rest[i] == accounts[i + 1]);
        }
        assert(bytes_lt(address@, accounts[0]@));
        lemma_beyond_rows(rows, address, accounts[0]);
        lemma_beyond_slot_failures(lookups, rows, address, rest);
    }
}

/// The account answers, from the first row on.
proof fn lemma_account_answers_first<E>(
    lookups: Lookups<E>,
    accounts: Seq<Address>,
    last: Option<Address>,
)
    requires
        accounts.len() > 0,
    ensures
        account_answers(lookups, accounts, last) == (if last == Some(accounts[0]) {
            account_answers(lookups, accounts.drop_first(), last)
        } else {
            seq![lookups.of_account(accounts[0])] + account_answers(
                lookups,
                accounts.drop_first(),
                Some(accounts[0]),
            )
        }),
{
    if last != Some(accounts[0]) {
        assert(account_answers(lookups, accounts, last) =~= seq![lookups.of_account(accounts[0])]
            + account_answers(lookups, accounts.drop_first(), Some(accounts[0])));
    }
}

/// The errors that are due for some accounts.
spec fn counts_due<E>(
    lookups: Lookups<E>,
    accounts: Seq<Result<Address, E>>,
    rows: Seq<Result<(Address, B256), E>>,
    last: Option<Address>,
) -> Multiset<E> {
    let live = live_accounts(lookups.shown(), successes(accounts), last);
    failure_counts(accounts).add(
        failure_counts(account_answers(lookups, successes(accounts), last)),
    ).add(failure_counts(reached_rows(rows, live))).add(
        slot_failures(lookups, successes(rows), live).to_multiset(),
    )
}

proof fn lemma_entry_counts<E>(
    lookups: Lookups<E>,
    accounts: Seq<Result<Address, E>>,
    rows: Seq<Result<(Address, B256), E>>,
    last: Option<Address>,
)
    requires
        ordered_behind(accounts, last),
        storages_grouped(successes(rows)),
    ensures
        failure_counts(entries_from(lookups, accounts, rows, last)) == counts_due(
            lookups,
            accounts,
            rows,
            last,
        ),
    decreases accounts.len(),
{
    broadcast use vstd::multiset::group_multiset_axioms;

    let hashed = lookups.shown();
    let all = successes(accounts);
    let live = live_accounts(hashed, all, last);
    lemma_counts_empty::<AccountStorageItem, E>();
    lemma_counts_empty::<Address, E>();
    lemma_counts_empty::<bool, E>();
    lemma_counts_empty::<(Address, B256), E>();
    if accounts.len() == 0 {
        assert(live =~= Seq::empty()) by {
            reveal(Seq::filter);
        }
        assert(accounts =~= Seq::empty());
        assert(account_answers(lookups, all, last) =~= Seq::empty());
        Seq::<E>::empty().to_multiset_ensures();
        assert(failure_counts(entries_from(lookups, accounts, rows, last)) =~= counts_due(
            lookups,
            accounts,
            rows,
            last,
        ));
    } else {
        let rest = accounts.drop_first();
        lemma_ordered_behind(accounts, last);
        lemma_live_accounts_first(hashed, accounts, last);
        assert(accounts =~= seq![accounts[0]] + rest);
        lemma_counts_join(seq![accounts[0]], rest);
        lemma_single(accounts[0]);
        match accounts[0] {
            Err(e) => {
                lemma_entry_counts(lookups, rest, rows, last);
                lemma_single(Err::<AccountStorageItem, E>(e));
                lemma_counts_join(
                    seq![Err::<AccountStorageItem, E>(e)],
                    entries_from(lookups, rest, rows, last),
                );
                assert(failure_counts(entries_from(lookups, accounts, rows, last)) =~= counts_due(
                    lookups,
                    accounts,
                    rows,
                    last,
                ));
            },
            Ok(address) => {
                assert(all[0] == address);
                assert(all.drop_first() =~= successes(rest));
                lemma_account_answers_first(lookups, all, last);
                assert(failures(seq![accounts[0]]) == failures(
                    Seq::<Result<Address, E>>::empty(),
                ));
                if last == Some(address) {
                    lemma_entry_counts(lookups, rest, rows, last);
                    assert(failure_counts(entries_from(lookups, accounts, rows, last))
                        =~= counts_due(lookups, accounts, rows, last));
                } else {
                    if hashed.live_account(address) {
                        lemma_grouped_beyond(rows, address);
                    }
                    lemma_entry_counts(
                        lookups,
                        rest,
                        rows_behind(lookups, rows, address),
                        Some(address),
                    );
                    lemma_counts_new_account(lookups, accounts, rows, last);
                }
            },
        }
    }
}

proof fn lemma_counts_new_account<E>(
    lookups: Lookups<E>,
    accounts: Seq<Result<Address, E>>,
    rows: Seq<Result<(Address, B256), E>>,
    last: Option<Address>,
)
    requires
        ordered_behind(accounts, last),
        storages_grouped(successes(rows)),
        accounts.len() > 0,
        accounts[0] matches Ok(address) && last != Some(address) && failure_counts(
            entries_from(
                lookups,
                accounts.drop_first(),
                rows_behind(lookups, rows, address),
                Some(address),
            ),
        ) == counts_due(
            lookups,
            accounts.drop_first(),
            rows_behind(lookups, rows, address),
            Some(address),
        ),
    ensures
        failure_counts(entries_from(lookups, accounts, rows, last)) == counts_due(
            lookups,
            accounts,
            rows,
            last,
        ),
{
    broadcast use vstd::multiset::group_multiset_axioms;

    let hashed = lookups.shown();
    let all = successes(accounts);
    let rest = accounts.drop_first();
    let address = accounts[0]->Ok_0;
    let behind = rows_behind(lookups, rows, address);
    let later = live_accounts(hashed, successes(rest), Some(address));
    let answer = lookups.of_account(address);
    lemma_counts_empty::<AccountStorageItem, E>();
    lemma_counts_empty::<Address, E>();
    lemma_counts_empty::<bool, E>();
    assert(accounts =~= seq![accounts[0]] + rest);
    lemma_counts_join(seq![accounts[0]], rest);
    lemma_single(accounts[0]);
    assert(failures(seq![accounts[0]]) == failures(Seq::<Result<Address, E>>::empty()));
    lemma_ordered_behind(accounts, last);
    lemma_live_accounts_first(hashed, accounts, last);
    assert(all[0] == address);
    assert(all.drop_first() =~= successes(rest));
    lemma_account_answers_first(lookups, all, last);
    lemma_counts_join(
        seq![answer],
        account_answers(lookups, successes(rest), Some(address)),
    );
    lemma_single(answer);
    lemma_counts_join(
        account_entries(lookups, rows, address),
        entries_from(lookups, rest, behind, Some(address)),
    );
    match answer {
        Err(e) => {
            lemma_single(Err::<AccountStorageItem, E>(e));
            assert(Seq::<Address>::empty() + later =~= later);
        },
        Ok(false) => {
            assert(Seq::<Address>::empty() + later =~= later);
        },
        Ok(true) => {
            let account = Ok::<AccountStorageItem, E>(AccountStorageItem::Account(address));
            lemma_single(account);
            assert(failures(seq![account]) == failures(
                Seq::<Result<AccountStorageItem, E>>::empty(),
            ));
            lemma_slot_counts(lookups, rows, address, None);
            lemma_counts_join(seq![account], slot_entries(lookups, rows, address, None));
            lemma_listed_behind(hashed, successes(rest), address);
            lemma_reached_first(rows, address, later);
            lemma_counts_join(
                rows.take(reach(rows, address) as int),
                reached_rows(behind, later),
            );
            lemma_beyond_slot_failures(lookups, rows, address, later);
            assert((seq![address] + later).drop_first() =~= later);
            lemma_multiset_commutative(
                failures(slot_answers(lookups, successes(rows), address, None)),
                slot_failures(lookups, successes(rows), later),
            );
        },
    }
    assert(failure_counts(entries_from(lookups, accounts, rows, last)) =~= counts_due(
        lookups,
        accounts,
        rows,
        last,
    ));
}

/// Over tables that are ordered by address, a listing hands out each of these errors once, and no
/// other: that of each account row that cannot be read; that of each storage row that cannot be
/// read and is reached, which are those before the first row of a larger address than the last
/// live account; that of each failing lookup of an account, and of a slot of a live account, once
/// for each run of equal rows.
pub proof fn law_failures_are_handed_out_once<E>(lookups: Lookups<E>, rows: Rows<E>)
    requires
        accounts_sorted(rows.readable().accounts),
        storages_grouped(rows.readable().storages),
    ensures
        ({
            let readable = rows.readable();
            let live = live_accounts(lookups.shown(), readable.accounts, None);
            failures(entries(lookups, rows)).to_multiset() == failures(
                rows.accounts,
            ).to_multiset().add(
                failures(account_answers(lookups, readable.accounts, None)).to_multiset(),
            ).add(failures(reached_rows(rows.storages, live)).to_multiset()).add(
                slot_failures(lookups, readable.storages, live).to_multiset(),
            )
        }),
{
    lemma_entry_counts(lookups, rows.accounts, rows.storages, None);
}

} // verus!
