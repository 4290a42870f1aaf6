//! What a whole run of the plain listing yields.

use crate::bytes::{
    bytes_le, bytes_lt, law_bytes_lt_asymmetric, law_bytes_lt_irreflexive, law_bytes_lt_total,
    law_bytes_lt_transitive, lemma_same_bytes, Address, B256,
};
use crate::iterators::failing::{
    account_entries, beyond, entries, entries_from, reach, rows_behind, slot_entries, slot_entry,
    successes, Lookups, Rows,
};
use crate::iterators::listing::accounts_sorted;
use crate::iterators::plain::{Answer, Peeked, Pending, PlainIterator, State, Step};
use crate::iterators::AccountStorageItem;
use vstd::prelude::*;

verus! {

/// A run of the listing over the tables: where the iterator stands, what it asked for or handed
/// out last, and the rows that were not read yet.
pub struct Run<E> {
    pub iterator: PlainIterator<E>,
    pub step: Step<E>,
    pub unread: Rows<E>,
}

/// What reading the next of some rows gives.
pub open spec fn next_row<T, E>(rows: Seq<Result<T, E>>) -> Result<Option<T>, E> {
    if rows.len() == 0 {
        Ok(None)
    } else {
        match rows[0] {
            Ok(row) => Ok(Some(row)),
            Err(e) => Err(e),
        }
    }
}

/// The rows behind the next one.
pub open spec fn later_rows<T, E>(rows: Seq<Result<T, E>>) -> Seq<Result<T, E>> {
    if rows.len() == 0 {
        rows
    } else {
        rows.drop_first()
    }
}

impl<E> Run<E> {
    /// The run behind the first call for an item.
    pub open spec fn start(rows: Rows<E>) -> Self {
        let (iterator, step) = (PlainIterator::<E> {
            last_account_addr: None,
            last_storage_slot: None,
            peeked: Peeked::Empty,
            state: State::Account,
            pending: Pending::Nothing,
        }).asked();
        Run { iterator, step, unread: rows }
    }

    /// The run behind the answer to what was asked for, or behind the call for another item.
    pub open spec fn driven(self, lookups: Lookups<E>) -> Self {
        let (answer, unread) = match self.step {
            Step::NextAccountRow => (
                Some(Answer::AccountRow(next_row(self.unread.accounts))),
                Rows { accounts: later_rows(self.unread.accounts), ..self.unread },
            ),
            Step::SeekAccount(hash) => (
                Some(Answer::Account((lookups.account)(hash))),
                self.unread,
            ),
            Step::NextStorageRow => (
                Some(Answer::StorageRow(next_row(self.unread.storages))),
                Rows { storages: later_rows(self.unread.storages), ..self.unread },
            ),
            Step::SeekSlot(account, slot) => (
                Some(Answer::Slot((lookups.slot)(account, slot))),
                self.unread,
            ),
            _ => (None, self.unread),
        };
        let (iterator, step) = match answer {
            Some(answer) => self.iterator.answered(answer),
            None => self.iterator.asked(),
        };
        Run { iterator, step, unread }
    }

    /// What is handed out from here to the end of the listing, items and errors, or `None` where
    /// the end is not reached within the given number of answers and calls.
    pub open spec fn handed_out(self, lookups: Lookups<E>, within: nat) -> Option<
        Seq<Result<AccountStorageItem, E>>,
    >
        decreases within,
    {
        if self.step is Done {
            Some(Seq::empty())
        } else if within == 0 {
            None
        } else {
            match self.driven(lookups).handed_out(lookups, (within - 1) as nat) {
                Some(later) => Some(self.entry() + later),
                None => None,
            }
        }
    }

    /// What the last step hands out.
    pub open spec fn entry(self) -> Seq<Result<AccountStorageItem, E>> {
        match self.step {
            Step::Item(item) => seq![Ok::<AccountStorageItem, E>(item)],
            Step::Failed(e) => seq![Err::<AccountStorageItem, E>(e)],
            _ => Seq::empty(),
        }
    }

    /// The storage rows that were not used yet: the one that was read ahead, and those not read.
    spec fn rows(self) -> Seq<Result<(Address, B256), E>> {
        match self.iterator.peeked {
            Peeked::Row(address, slot) => seq![Ok::<(Address, B256), E>((address, slot))]
                + self.unread.storages,
            Peeked::Failed(e) => seq![Err::<(Address, B256), E>(e)] + self.unread.storages,
            _ => self.unread.storages,
        }
    }

    /// The entries that are due from the state that the iterator is in.
    spec fn later(self, lookups: Lookups<E>) -> Seq<Result<AccountStorageItem, E>> {
        let accounts = self.unread.accounts;
        let last = self.iterator.last_account_addr;
        match self.iterator.state {
            State::End => Seq::empty(),
            State::Account => entries_from(lookups, accounts, self.rows(), last),
            State::StorageSlot(address) => slot_entries(
                lookups,
                self.rows(),
                address,
                self.iterator.last_storage_slot,
            ) + entries_from(lookups, accounts, beyond(self.rows(), address), last),
        }
    }

    /// The entries that are due.
    spec fn due(self, lookups: Lookups<E>) -> Seq<Result<AccountStorageItem, E>> {
        match self.iterator.pending {
            Pending::Account(address) => account_entries(lookups, self.rows(), address)
                + entries_from(
                lookups,
                self.unread.accounts,
                rows_behind(lookups, self.rows(), address),
                Some(address),
            ),
            Pending::Slot(address, slot) => slot_entry(lookups, (address, slot)) + self.later(
                lookups,
            ),
            _ => self.entry() + self.later(lookups),
        }
    }

    /// The state of the iterator fits the rows that are left.
    spec fn state_fits(self) -> bool {
        let it = self.iterator;
        &&& ordered_behind(self.unread.accounts, it.last_account_addr)
        &&& it.state matches State::StorageSlot(address) ==> it.last_account_addr == Some(address)
        &&& it.last_storage_slot matches Some((address, _)) ==> {
            &&& it.last_account_addr matches Some(last)
            &&& bytes_le(address@, last@)
        }
        &&& it.peeked is Exhausted ==> self.unread.storages.len() == 0
    }

    /// What the iterator waits for fits its state.
    spec fn pending_fits(self) -> bool {
        let it = self.iterator;
        &&& !(it.pending is Nothing) ==> self.step == it.request()
        &&& match it.pending {
            Pending::Nothing => {
                ||| self.step is Item && !(it.state is End)
                ||| self.step is Failed && !(it.state is End)
                ||| self.step is Done && it.state is End
            },
            Pending::AccountRow => it.state is Account,
            Pending::Account(address) => {
                &&& it.state is Account
                &&& it.last_account_addr == Some(address)
                &&& it.last_storage_slot matches Some((other, _)) ==> other != address
            },
            Pending::StorageRow => it.peeked is Empty && it.state is StorageSlot,
            Pending::PassedRow(address) => {
                &&& it.peeked is Empty
                &&& !(it.state is End)
                &&& it.last_account_addr matches Some(last)
                &&& it.state is Account ==> address == last
                &&& it.state is StorageSlot ==> bytes_lt(address@, last@)
            },
            Pending::Slot(address, slot) => {
                &&& it.peeked is Empty
                &&& it.state == State::StorageSlot(address)
                &&& it.last_storage_slot == Some((address, slot))
            },
        }
    }

    /// How many answers and calls the run takes at most.
    spec fn effort(self) -> nat {
        self.read_effort() + self.step_effort()
    }

    spec fn read_effort(self) -> nat {
        5 * self.unread.accounts.len() + 5 * self.unread.storages.len() + (
        if self.iterator.peeked is Row || self.iterator.peeked is Failed {
            2nat
        } else {
            0nat
        })
    }

    spec fn step_effort(self) -> nat {
        match self.step {
            Step::Done => 0,
            Step::NextAccountRow => 1,
            Step::NextStorageRow => 2,
            Step::Item(_) => 3,
            Step::Failed(_) => 3,
            Step::SeekAccount(_) => 4,
            Step::SeekSlot(_, _) => 4,
        }
    }
}

/// The accounts that can be read are in ascending order, and none stands before `last`.
pub open spec fn ordered_behind<E>(accounts: Seq<Result<Address, E>>, last: Option<Address>) -> bool {
    &&& accounts_sorted(successes(accounts))
    &&& last matches Some(last) ==> forall|i: int|
        0 <= i < successes(accounts).len() ==> bytes_le(last@, #[trigger] successes(accounts)[i]@)
}

/// Behind the first row the accounts are still in order.
pub proof fn lemma_ordered_behind<E>(accounts: Seq<Result<Address, E>>, last: Option<Address>)
    requires
        ordered_behind(accounts, last),
        accounts.len() > 0,
    ensures
        ordered_behind(accounts.drop_first(), last),
        accounts[0] matches Ok(address) ==> {
            &&& ordered_behind(accounts.drop_first(), Some(address))
            &&& last matches Some(last) ==> bytes_le(last@, address@)
        },
{
    let all = successes(accounts);
    let rest = successes(accounts.drop_first());
    if let Ok(address) = accounts[0] {
        assert(all[0] == address);
        assert forall|i: int| 0 <= i < rest.len() implies bytes_le(address@, #[trigger] rest[i]@)
            && (last matches Some(l) ==> bytes_le(l@, rest[i]@)) by {
            assert(rest[i] == all[i + 1]);
        }
        assert forall|i: int, j: int|
            #![trigger rest[i], rest[j]]
            0 <= i < j < rest.len() implies bytes_le(rest[i]@, rest[j]@) by {
            assert(rest[i] == all[i + 1]);
            assert(rest[j] == all[j + 1]);
        }
    }
}

/// A first row of a smaller address makes no difference to an account.
pub proof fn lemma_smaller_row<E>(
    lookups: Lookups<E>,
    rows: Seq<Result<(Address, B256), E>>,
    address: Address,
    last: Option<(Address, B256)>,
)
    requires
        rows.len() > 0,
        rows[0] matches Ok((row_address, _)) && bytes_lt(row_address@, address@),
    ensures
        slot_entries(lookups, rows, address, last) == slot_entries(
            lookups,
            rows.drop_first(),
            address,
            last,
        ),
        beyond(rows, address) == beyond(rows.drop_first(), address),
{
    let row_address = rows[0]->Ok_0.0;
    law_bytes_lt_asymmetric(row_address@, address@);
    law_bytes_lt_irreflexive(address@);
    lemma_beyond_first(rows, address);
}

/// A first row that is not of a larger address is not beyond.
pub proof fn lemma_beyond_first<E>(rows: Seq<Result<(Address, B256), E>>, address: Address)
    requires
        rows.len() > 0,
        rows[0] matches Ok((row_address, _)) ==> !bytes_lt(address@, row_address@),
    ensures
        reach(rows, address) == 1 + reach(rows.drop_first(), address),
        beyond(rows, address) == beyond(rows.drop_first(), address),
{
    lemma_reach(rows.drop_first(), address);
    assert(beyond(rows, address) =~= beyond(rows.drop_first(), address));
}

/// No more rows stand before a larger address than there are.
pub proof fn lemma_reach<E>(rows: Seq<Result<(Address, B256), E>>, address: Address)
    ensures
        reach(rows, address) <= rows.len(),
    decreases rows.len(),
{
    if rows.len() > 0 {
        lemma_reach(rows.drop_first(), address);
    }
}

/// A first row of an address that was passed makes no difference to the accounts behind it.
pub proof fn lemma_passed_row<E>(
    lookups: Lookups<E>,
    accounts: Seq<Result<Address, E>>,
    rows: Seq<Result<(Address, B256), E>>,
    last: Address,
)
    requires
        ordered_behind(accounts, Some(last)),
        rows.len() > 0,
        rows[0] matches Ok((row_address, _)) && bytes_le(row_address@, last@),
    ensures
        entries_from(lookups, accounts, rows, Some(last)) == entries_from(
            lookups,
            accounts,
            rows.drop_first(),
            Some(last),
        ),
    decreases accounts.len(),
{
    if accounts.len() > 0 {
        let rest = accounts.drop_first();
        let row_address = rows[0]->Ok_0.0;
        lemma_ordered_behind(accounts, Some(last));
        match accounts[0] {
            Err(_) => {
                lemma_passed_row(lookups, rest, rows, last);
            },
            Ok(address) => if address == last {
                lemma_passed_row(lookups, rest, rows, last);
            } else {
                lemma_same_bytes(address, last);
                if row_address@ != last@ {
                    law_bytes_lt_transitive(row_address@, last@, address@);
                }
                lemma_smaller_row(lookups, rows, address, None);
                lemma_passed_row(lookups, rest, rows, address);
            },
        }
    }
}

/// The last row does not count where it holds another address than the account's.
proof fn lemma_last_of_another<E>(
    lookups: Lookups<E>,
    rows: Seq<Result<(Address, B256), E>>,
    address: Address,
    last: (Address, B256),
)
    requires
        last.0 != address,
    ensures
        slot_entries(lookups, rows, address, Some(last)) == slot_entries(
            lookups,
            rows,
            address,
            None,
        ),
    decreases rows.len(),
{
    if rows.len() > 0 {
        lemma_last_of_another(lookups, rows.drop_first(), address, last);
    }
}

/// The run with the given iterator and step in place of its own.
spec fn with_step<E>(run: Run<E>, to: (PlainIterator<E>, Step<E>)) -> Run<E> {
    Run { iterator: to.0, step: to.1, unread: run.unread }
}

/// Going on from a state keeps what is due.
proof fn lemma_resumed<E>(run: Run<E>, lookups: Lookups<E>)
    requires
        run.state_fits(),
    ensures
        ({
            let next = with_step(run, run.iterator.resumed());
            &&& next.state_fits()
            &&& next.pending_fits()
            &&& next.due(lookups) == run.later(lookups)
            &&& next.effort() <= run.read_effort() + (if run.iterator.peeked is Exhausted {
                1nat
            } else {
                2nat
            })
        }),
{
    let next = with_step(run, run.iterator.resumed());
    let it = run.iterator;
    let rows = run.rows();
    if let State::StorageSlot(address) = it.state {
        match it.peeked {
            Peeked::Exhausted => {
                assert(beyond(rows, address) =~= rows);
                assert(next.due(lookups) =~= run.later(lookups));
            },
            Peeked::Failed(e) => {
                assert(rows.drop_first() =~= next.rows());
                lemma_beyond_first(rows, address);
                assert(next.due(lookups) =~= run.later(lookups));
            },
            Peeked::Row(row_address, slot) => {
                assert(rows[0] == Ok::<(Address, B256), E>((row_address, slot)));
                assert(rows.drop_first() =~= run.unread.storages);
                if bytes_lt(row_address@, address@) {
                    lemma_smaller_row(lookups, rows, address, it.last_storage_slot);
                    assert(next.due(lookups) =~= run.later(lookups));
                } else if bytes_lt(address@, row_address@) {
                    assert(beyond(rows, address) =~= rows);
                    assert(next.due(lookups) =~= run.later(lookups));
                } else {
                    law_bytes_lt_total(row_address@, address@);
                    lemma_same_bytes(row_address, address);
                    lemma_beyond_first(rows, address);
                    assert(next.due(lookups) =~= run.later(lookups));
                }
            },
            Peeked::Empty => {
                assert(next.due(lookups) =~= run.later(lookups));
            },
        }
    } else {
        assert(next.due(lookups) =~= run.later(lookups));
    }
}

/// Passing over the rows of an address that is not listed keeps what is due.
proof fn lemma_passing<E>(run: Run<E>, address: Address, lookups: Lookups<E>)
    requires
        run.state_fits(),
        !(run.iterator.state is End),
        run.iterator.last_account_addr matches Some(last) && {
            &&& run.iterator.state is Account ==> address == last
            &&& run.iterator.state is StorageSlot ==> bytes_lt(address@, last@)
        },
    ensures
        ({
            let next = with_step(run, run.iterator.passing(address));
            &&& next.state_fits()
            &&& next.pending_fits()
            &&& next.due(lookups) == run.later(lookups)
            &&& next.effort() <= run.read_effort() + (if run.iterator.peeked is Exhausted {
                1nat
            } else {
                2nat
            })
        }),
{
    let next = with_step(run, run.iterator.passing(address));
    match run.iterator.peeked {
        Peeked::Empty => {
            assert(next.due(lookups) =~= run.later(lookups));
        },
        Peeked::Row(row_address, _) if row_address == address => {
            let rows = run.rows();
            assert(rows.drop_first() =~= next.rows());
            if let State::StorageSlot(current) = run.iterator.state {
                lemma_smaller_row(lookups, rows, current, run.iterator.last_storage_slot);
            } else {
                lemma_passed_row(lookups, run.unread.accounts, rows, address);
            }
            assert(next.due(lookups) =~= run.later(lookups));
        },
        _ => {
            lemma_resumed(run, lookups);
        },
    }
}

/// The answer to a request for an account row keeps what is due.
proof fn lemma_account_row<E>(run: Run<E>, lookups: Lookups<E>)
    requires
        run.state_fits(),
        run.pending_fits(),
        run.iterator.pending is AccountRow,
    ensures
        run.driven(lookups).state_fits(),
        run.driven(lookups).pending_fits(),
        run.driven(lookups).due(lookups) == run.due(lookups),
        run.driven(lookups).effort() < run.effort(),
{
    let next = run.driven(lookups);
    let rows = run.unread.accounts;
    let last = run.iterator.last_account_addr;
    assert(next.rows() == run.rows());
    if rows.len() > 0 {
        lemma_ordered_behind(rows, last);
        if let Ok(address) = rows[0] {
            if last != Some(address) {
                if let Some((slot_address, _)) = run.iterator.last_storage_slot {
                    let l = last->Some_0;
                    lemma_same_bytes(l, address);
                    if slot_address == address {
                        law_bytes_lt_asymmetric(l@, address@);
                    } else if slot_address@ != l@ {
                        law_bytes_lt_transitive(slot_address@, l@, address@);
                    }
                }
            }
        }
    }
    assert(next.due(lookups) =~= run.due(lookups));
}

/// Every answer, and every call for another item, keeps what is due.
proof fn lemma_driven<E>(run: Run<E>, lookups: Lookups<E>)
    requires
        run.state_fits(),
        run.pending_fits(),
        !(run.step is Done),
    ensures
        run.driven(lookups).state_fits(),
        run.driven(lookups).pending_fits(),
        run.due(lookups) == run.entry() + run.driven(lookups).due(lookups),
        run.driven(lookups).effort() < run.effort(),
{
    let next = run.driven(lookups);
    let it = run.iterator;
    match it.pending {
        Pending::Nothing => {
            lemma_resumed(run, lookups);
        },
        Pending::AccountRow => {
            lemma_account_row(run, lookups);
            assert(run.entry() + next.due(lookups) =~= next.due(lookups));
        },
        Pending::Account(address) => {
            match lookups.of_account(address) {
                Ok(true) => {
                    if let Some(last) = it.last_storage_slot {
                        lemma_last_of_another(lookups, run.rows(), address, last);
                    }
                },
                Ok(false) => {
                    lemma_passing(run, address, lookups);
                },
                Err(_) => {},
            }
            assert(run.due(lookups) =~= run.entry() + next.due(lookups));
        },
        Pending::StorageRow => {
            let ahead = row_read(run);
            assert(ahead.rows() =~= run.rows());
            lemma_resumed(ahead, lookups);
            assert(run.due(lookups) =~= run.entry() + next.due(lookups));
        },
        Pending::PassedRow(address) => {
            let ahead = row_read(run);
            assert(ahead.rows() =~= run.rows());
            lemma_passing(ahead, address, lookups);
            assert(run.due(lookups) =~= run.entry() + next.due(lookups));
        },
        Pending::Slot(address, slot) => {
            lemma_resumed(run, lookups);
            assert(run.due(lookups) =~= run.entry() + next.due(lookups));
        },
    }
}

/// The run with the next storage row read ahead.
spec fn row_read<E>(run: Run<E>) -> Run<E> {
    Run {
        iterator: PlainIterator {
            peeked: PlainIterator::row_ahead(next_row(run.unread.storages)),
            ..run.iterator
        },
        unread: Rows { storages: later_rows(run.unread.storages), ..run.unread },
        ..run
    }
}

/// What is due is handed out.
proof fn lemma_handed_out<E>(run: Run<E>, lookups: Lookups<E>, within: nat)
    requires
        run.state_fits(),
        run.pending_fits(),
        within >= run.effort(),
    ensures
        run.handed_out(lookups, within) == Some(run.due(lookups)),
    decreases within,
{
    if run.step is Done {
        assert(run.due(lookups) =~= Seq::empty());
    } else {
        lemma_driven(run, lookups);
        lemma_handed_out(run.driven(lookups), lookups, (within - 1) as nat);
    }
}

/// Where the accounts that can be read are in ascending order, a run of the listing comes to its
/// end, whatever else cannot be read or looked up, and hands out exactly the entries of the
/// tables, errors included. No error ends the listing.
pub proof fn law_plain_entries<E>(rows: Rows<E>, lookups: Lookups<E>, within: nat)
    requires
        accounts_sorted(successes(rows.accounts)),
        within > 5 * rows.accounts.len() + 5 * rows.storages.len(),
    ensures
        Run::start(rows).handed_out(lookups, within) == Some(entries(lookups, rows)),
{
    let run = Run::start(rows);
    lemma_handed_out(run, lookups, within);
    assert(run.due(lookups) =~= entries(lookups, rows));
}

} // verus!
