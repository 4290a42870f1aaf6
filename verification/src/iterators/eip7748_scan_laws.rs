//! What a whole scan finds.

use crate::bytes::{Address, B256};
use crate::iterators::eip7748_scan::{ScanPending, ScanState, ScanStep};
use crate::iterators::failing::{all_read, successes, Lookups, Rows};
use crate::iterators::listing::{lemma_filter_first, live_accounts, unrepeated, History};
use crate::iterators::plain::Answer;
use crate::iterators::plain_order::{later_rows, next_row};
use vstd::prelude::*;

verus! {

/// A scan of the tables: where it stands, what it asked for last, and the rows that were not read
/// yet.
pub struct ScanRun<E> {
    pub state: ScanState,
    pub step: ScanStep<E>,
    pub unread: Rows<E>,
}

impl<E> ScanRun<E> {
    /// The scan before its first answer.
    pub open spec fn start(rows: Rows<E>) -> Self {
        ScanRun { state: ScanState::start(), step: ScanState::start().request(), unread: rows }
    }

    /// The answer to what the scan asked for, and the rows that are left behind it.
    pub open spec fn found(self, lookups: Lookups<E>) -> (Option<Answer<E>>, Rows<E>) {
        match self.step {
            ScanStep::NextAccountRow => (
                Some(Answer::AccountRow(next_row(self.unread.accounts))),
                Rows { accounts: later_rows(self.unread.accounts), ..self.unread },
            ),
            ScanStep::SeekAccount(_, hash) => (
                Some(Answer::Account((lookups.account)(hash))),
                self.unread,
            ),
            ScanStep::NextStorageRow => (
                Some(Answer::StorageRow(next_row(self.unread.storages))),
                Rows { storages: later_rows(self.unread.storages), ..self.unread },
            ),
            ScanStep::SeekSlot(account, slot) => (
                Some(Answer::Slot((lookups.slot)(account, slot))),
                self.unread,
            ),
            _ => (None, self.unread),
        }
    }

    /// The scan behind the answer to what it asked for.
    pub open spec fn driven(self, lookups: Lookups<E>) -> Self {
        let (answer, unread) = self.found(lookups);
        match answer {
            Some(answer) => {
                let (state, step) = self.state.answered(answer);
                ScanRun { state, step, unread }
            },
            None => self,
        }
    }

    /// How the scan ends: with what it found, or with the error for which it was given up; `None`
    /// where the end is not reached within the given number of answers.
    pub open spec fn ended(self, lookups: Lookups<E>, within: nat) -> Option<Result<ScanState, E>>
        decreases within,
    {
        match self.step {
            ScanStep::Done => Some(Ok(self.state)),
            ScanStep::Failed(e) => Some(Err(e)),
            _ => if within == 0 {
                None
            } else {
                self.driven(lookups).ended(lookups, (within - 1) as nat)
            },
        }
    }

    /// The accounts that are reported as progress from here to the end of the scan.
    pub open spec fn reported(self, lookups: Lookups<E>, within: nat) -> Seq<Address>
        decreases within,
    {
        let now = match self.step {
            ScanStep::SeekAccount(address, _) => seq![address],
            _ => Seq::empty(),
        };
        if self.step is Done || self.step is Failed || within == 0 {
            now
        } else {
            now + self.driven(lookups).reported(lookups, (within - 1) as nat)
        }
    }

    /// A row of the storage history is asked for from here to the end of the scan.
    pub open spec fn reads_storages(self, lookups: Lookups<E>, within: nat) -> bool
        decreases within,
    {
        self.step is NextStorageRow || (!(self.step is Done) && !(self.step is Failed) && within > 0
            && self.driven(lookups).reads_storages(lookups, (within - 1) as nat))
    }

    /// The accounts that will be reported.
    spec fn reports_due(self, lookups: Lookups<E>) -> Seq<Address> {
        let later = reported_accounts(lookups, self.unread.accounts, self.state.last_account);
        match self.state.pending {
            ScanPending::AccountRow => later,
            ScanPending::Account(address) => if lookups.of_account(address) is Ok {
                seq![address] + later
            } else {
                seq![address]
            },
            _ => Seq::empty(),
        }
    }

    /// The error of the account history for which the scan will be given up.
    spec fn account_failure_due(self, lookups: Lookups<E>) -> Option<E> {
        let later = account_failure(lookups, self.unread.accounts, self.state.last_account);
        match self.state.pending {
            ScanPending::AccountRow => later,
            ScanPending::Account(address) => first_of(
                error_of(lookups.of_account(address)),
                later,
            ),
            _ => None,
        }
    }

    /// The accounts that will be found when the scan is at its end.
    spec fn accounts_due(self, lookups: Lookups<E>) -> Seq<Address> {
        let later = live_accounts(
            lookups.shown(),
            successes(self.unread.accounts),
            self.state.last_account,
        );
        match self.state.pending {
            ScanPending::AccountRow => self.state.accounts + later,
            ScanPending::Account(address) => if lookups.shown().live_account(address) {
                self.state.accounts + (seq![address] + later)
            } else {
                self.state.accounts + later
            },
            _ => self.state.accounts,
        }
    }

    /// The rows that will be found when the scan is at its end.
    spec fn rows_due(self, lookups: Lookups<E>) -> Seq<(Address, B256)> {
        let later = unrepeated(successes(self.unread.storages), self.state.last_row).filter(
            lookups.shown().keeps_slot(),
        );
        match self.state.pending {
            ScanPending::Slot(address, slot) => if lookups.shown().live_slot((address, slot)) {
                self.state.rows + (seq![(address, slot)] + later)
            } else {
                self.state.rows + later
            },
            ScanPending::Done => self.state.rows,
            _ => self.state.rows + later,
        }
    }

    /// The error for which the scan will be given up.
    spec fn failure_due(self, lookups: Lookups<E>) -> Option<E> {
        let in_storages = storage_failure(lookups, self.unread.storages, self.state.last_row);
        let in_accounts = first_of(
            account_failure(lookups, self.unread.accounts, self.state.last_account),
            in_storages,
        );
        match self.state.pending {
            ScanPending::AccountRow => in_accounts,
            ScanPending::Account(address) => first_of(
                error_of(lookups.of_account(address)),
                in_accounts,
            ),
            ScanPending::StorageRow => in_storages,
            ScanPending::Slot(address, slot) => first_of(
                error_of(lookups.of_slot((address, slot))),
                in_storages,
            ),
            _ => None,
        }
    }

    /// How many answers the scan takes at most.
    spec fn effort(self) -> nat {
        2 * self.unread.accounts.len() + 2 * self.unread.storages.len() + (
        match self.state.pending {
            ScanPending::Done => 0nat,
            ScanPending::Stopped => 0,
            ScanPending::StorageRow => 1,
            ScanPending::Slot(_, _) => 2,
            ScanPending::AccountRow => 2,
            ScanPending::Account(_) => 3,
        })
    }
}

/// The error of a result.
pub open spec fn error_of<T, E>(result: Result<T, E>) -> Option<E> {
    match result {
        Ok(_) => None,
        Err(e) => Some(e),
    }
}

/// The first of two errors.
pub open spec fn first_of<E>(first: Option<E>, second: Option<E>) -> Option<E> {
    match first {
        Some(e) => Some(e),
        None => second,
    }
}

/// The first error of the account history: a row that cannot be read, or an account, not repeated,
/// whose lookup fails. `last` is the last account before the first.
pub open spec fn account_failure<E>(
    lookups: Lookups<E>,
    accounts: Seq<Result<Address, E>>,
    last: Option<Address>,
) -> Option<E>
    decreases accounts.len(),
{
    if accounts.len() == 0 {
        None
    } else {
        let rest = accounts.drop_first();
        match accounts[0] {
            Err(e) => Some(e),
            Ok(address) => if last == Some(address) {
                account_failure(lookups, rest, last)
            } else {
                first_of(
                    error_of(lookups.of_account(address)),
                    account_failure(lookups, rest, Some(address)),
                )
            },
        }
    }
}

/// The first error of the storage history: a row that cannot be read, or a slot, not repeated,
/// whose lookup fails. `last` is the last row before the first.
pub open spec fn storage_failure<E>(
    lookups: Lookups<E>,
    rows: Seq<Result<(Address, B256), E>>,
    last: Option<(Address, B256)>,
) -> Option<E>
    decreases rows.len(),
{
    if rows.len() == 0 {
        None
    } else {
        let rest = rows.drop_first();
        match rows[0] {
            Err(e) => Some(e),
            Ok(row) => if last == Some(row) {
                storage_failure(lookups, rest, last)
            } else {
                first_of(
                    error_of(lookups.of_slot(row)),
                    storage_failure(lookups, rest, Some(row)),
                )
            },
        }
    }
}

/// The accounts that are looked up, each once for each run of equal rows, up to the first error.
/// `last` is the last account before the first.
pub open spec fn reported_accounts<E>(
    lookups: Lookups<E>,
    accounts: Seq<Result<Address, E>>,
    last: Option<Address>,
) -> Seq<Address>
    decreases accounts.len(),
{
    if accounts.len() == 0 {
        Seq::empty()
    } else {
        let rest = accounts.drop_first();
        match accounts[0] {
            Err(_) => Seq::empty(),
            Ok(address) => if last == Some(address) {
                reported_accounts(lookups, rest, last)
            } else if lookups.of_account(address) is Err {
                seq![address]
            } else {
                seq![address] + reported_accounts(lookups, rest, Some(address))
            },
        }
    }
}

/// The first error of a scan.
pub open spec fn scan_failure<E>(lookups: Lookups<E>, rows: Rows<E>) -> Option<E> {
    first_of(
        account_failure(lookups, rows.accounts, None),
        storage_failure(lookups, rows.storages, None),
    )
}

/// Every answer keeps what will be found, up to the first error.
proof fn lemma_scan_driven<E>(run: ScanRun<E>, lookups: Lookups<E>)
    requires
        run.step == run.state.request::<E>(),
        !(run.state.pending is Done),
        !(run.state.pending is Stopped),
    ensures
        ({
            let next = run.driven(lookups);
            match next.step {
                ScanStep::Failed(e) => run.failure_due(lookups) == Some(e),
                _ => {
                    &&& next.step == next.state.request::<E>()
                    &&& !(next.state.pending is Stopped)
                    &&& next.failure_due(lookups) == run.failure_due(lookups)
                    &&& next.accounts_due(lookups) == run.accounts_due(lookups)
                    &&& next.rows_due(lookups) == run.rows_due(lookups)
                    &&& next.effort() < run.effort()
                },
            }
        }),
{
    let next = run.driven(lookups);
    let state = run.state;
    let hashed = lookups.shown();
    match state.pending {
        ScanPending::AccountRow => {
            let rows = successes(run.unread.accounts);
            if run.unread.accounts.len() == 0 {
                reveal(Seq::filter);
                assert(state.accounts + live_accounts(hashed, rows, state.last_account)
                    =~= state.accounts);
            } else if let Ok(address) = run.unread.accounts[0] {
                let rest = successes(run.unread.accounts.drop_first());
                assert(rows.drop_first() =~= rest);
                if state.last_account != Some(address) {
                    let unique = unrepeated(rows, state.last_account);
                    assert(unique.drop_first() =~= unrepeated(rest, Some(address)));
                    lemma_filter_first(unique, hashed.keeps_account());
                }
                assert(next.accounts_due(lookups) =~= run.accounts_due(lookups));
            }
        },
        ScanPending::Account(address) => {
            assert(lookups.of_account(address) is Ok ==> next.accounts_due(lookups)
                =~= run.accounts_due(lookups));
        },
        ScanPending::StorageRow => {
            let rows = successes(run.unread.storages);
            if run.unread.storages.len() == 0 {
                reveal(Seq::filter);
                assert(state.rows + unrepeated(rows, state.last_row).filter(hashed.keeps_slot())
                    =~= state.rows);
            } else if let Ok(row) = run.unread.storages[0] {
                let rest = successes(run.unread.storages.drop_first());
                assert(rows.drop_first() =~= rest);
                if state.last_row != Some(row) {
                    let unique = unrepeated(rows, state.last_row);
                    assert(unique.drop_first() =~= unrepeated(rest, Some(row)));
                    lemma_filter_first(unique, hashed.keeps_slot());
                }
                assert(next.rows_due(lookups) =~= run.rows_due(lookups));
            }
        },
        ScanPending::Slot(address, slot) => {
            assert(lookups.of_slot((address, slot)) is Ok ==> next.rows_due(lookups)
                =~= run.rows_due(lookups));
        },
        _ => {},
    }
}

proof fn lemma_scan_ended<E>(run: ScanRun<E>, lookups: Lookups<E>, within: nat)
    requires
        run.step == run.state.request::<E>(),
        !(run.state.pending is Stopped),
        within >= run.effort(),
    ensures
        match run.failure_due(lookups) {
            Some(e) => run.ended(lookups, within) == Some(Err::<ScanState, E>(e)),
            None => run.ended(lookups, within) matches Some(Ok(state)) && {
                &&& state.pending is Done
                &&& state.accounts == run.accounts_due(lookups)
                &&& state.rows == run.rows_due(lookups)
            },
        },
    decreases within,
{
    if !(run.state.pending is Done) {
        lemma_scan_driven(run, lookups);
        let next = run.driven(lookups);
        if !(next.step is Failed) {
            lemma_scan_ended(next, lookups, (within - 1) as nat);
        }
    }
}

/// A scan comes to its end. Where a row cannot be read or a lookup fails, it is given up with the
/// first such error. Else it finds every live account of the account history and every live slot
/// of the storage history, in the order of the rows, once for each run of equal rows.
pub proof fn law_scan_finds_live_items<E>(rows: Rows<E>, lookups: Lookups<E>, within: nat)
    requires
        within >= 2 * rows.accounts.len() + 2 * rows.storages.len() + 2,
    ensures
        match scan_failure(lookups, rows) {
            Some(e) => ScanRun::start(rows).ended(lookups, within) == Some(
                Err::<ScanState, E>(e),
            ),
            None => ScanRun::start(rows).ended(lookups, within) matches Some(Ok(state)) && {
                &&& state.pending is Done
                &&& state.accounts == live_accounts(
                    lookups.shown(),
                    rows.readable().accounts,
                    None,
                )
                &&& state.rows == unrepeated(rows.readable().storages, None).filter(
                    lookups.shown().keeps_slot(),
                )
            },
        },
{
    let run = ScanRun::start(rows);
    lemma_scan_ended(run, lookups, within);
    assert(run.accounts_due(lookups) =~= live_accounts(
        lookups.shown(),
        rows.readable().accounts,
        None,
    ));
    assert(run.rows_due(lookups) =~= unrepeated(rows.readable().storages, None).filter(
        lookups.shown().keeps_slot(),
    ));
}

/// What is reported, and whether a storage row is read, from any point of a scan.
proof fn lemma_scan_reports<E>(run: ScanRun<E>, lookups: Lookups<E>, within: nat)
    requires
        run.step == run.state.request::<E>(),
        !(run.state.pending is Stopped),
        within >= run.effort(),
    ensures
        run.reported(lookups, within) == run.reports_due(lookups),
        run.account_failure_due(lookups) is Some ==> !run.reads_storages(lookups, within),
    decreases within,
{
    if !(run.state.pending is Done) {
        lemma_scan_driven(run, lookups);
        let next = run.driven(lookups);
        if next.step is Failed {
            assert(next.reported(lookups, (within - 1) as nat) == Seq::<Address>::empty());
            assert(!next.reads_storages(lookups, (within - 1) as nat));
        } else {
            lemma_scan_reports(next, lookups, (within - 1) as nat);
        }
        assert(run.reported(lookups, within) =~= run.reports_due(lookups));
    }
}

/// Without an error, every account is looked up.
proof fn lemma_all_reported<E>(
    lookups: Lookups<E>,
    accounts: Seq<Result<Address, E>>,
    last: Option<Address>,
)
    requires
        account_failure(lookups, accounts, last) is None,
    ensures
        reported_accounts(lookups, accounts, last) == unrepeated(successes(accounts), last),
    decreases accounts.len(),
{
    if accounts.len() > 0 {
        let rest = accounts.drop_first();
        if let Ok(address) = accounts[0] {
            assert(successes(accounts)[0] == address);
            assert(successes(accounts).drop_first() =~= successes(rest));
            if last == Some(address) {
                lemma_all_reported(lookups, rest, last);
            } else {
                lemma_all_reported(lookups, rest, Some(address));
            }
        }
    }
}

/// A scan reports the accounts that it looks up, in the order of the rows, once for each run of
/// equal rows: all accounts where the account history has no error, else those up to the first
/// one. After an error of the account history no storage row is read.
pub proof fn law_scan_reports_accounts<E>(rows: Rows<E>, lookups: Lookups<E>, within: nat)
    requires
        within >= 2 * rows.accounts.len() + 2 * rows.storages.len() + 2,
    ensures
        ScanRun::start(rows).reported(lookups, within) == reported_accounts(
            lookups,
            rows.accounts,
            None,
        ),
        match account_failure(lookups, rows.accounts, None) {
            None => ScanRun::start(rows).reported(lookups, within) == unrepeated(
                rows.readable().accounts,
                None,
            ),
            Some(_) => !ScanRun::start(rows).reads_storages(lookups, within),
        },
{
    lemma_scan_reports(ScanRun::start(rows), lookups, within);
    if account_failure(lookups, rows.accounts, None) is None {
        lemma_all_reported(lookups, rows.accounts, None);
    }
}

/// What is reported of accounts before a row that cannot be read.
proof fn lemma_unreadable_row<E>(
    lookups: Lookups<E>,
    before: Seq<Address>,
    behind: Seq<Result<Address, E>>,
    last: Option<Address>,
)
    requires
        lookups.accounts_found(),
        behind.len() > 0,
        behind[0] is Err,
    ensures
        ({
            let accounts = all_read::<Address, E>(before) + behind;
            &&& reported_accounts(lookups, accounts, last) == unrepeated(before, last)
            &&& account_failure(lookups, accounts, last) == error_of(behind[0])
        }),
    decreases before.len(),
{
    let accounts = all_read::<Address, E>(before) + behind;
    if before.len() == 0 {
        assert(accounts =~= behind);
    } else {
        let rest = before.drop_first();
        assert(accounts.drop_first() =~= all_read::<Address, E>(rest) + behind);
        assert(lookups.of_account(before[0]) is Ok);
        lemma_unreadable_row(lookups, rest, behind, last);
        lemma_unreadable_row(lookups, rest, behind, Some(before[0]));
    }
}

/// Where a row of the account history cannot be read, and no lookup of an account fails, the scan
/// is given up with the error of that row. It has then reported the accounts before the row, each
/// once for each run of equal rows, and read no storage row.
pub proof fn law_unreadable_account_row<E>(
    before: Seq<Address>,
    e: E,
    behind: Seq<Result<Address, E>>,
    storages: Seq<Result<(Address, B256), E>>,
    lookups: Lookups<E>,
    within: nat,
)
    requires
        lookups.accounts_found(),
        within >= 2 * (before.len() + 1 + behind.len()) + 2 * storages.len() + 2,
    ensures
        ({
            let accounts = all_read::<Address, E>(before) + (seq![Err::<Address, E>(e)] + behind);
            let run = ScanRun::start(Rows { accounts, storages });
            &&& run.ended(lookups, within) == Some(Err::<ScanState, E>(e))
            &&& run.reported(lookups, within) == unrepeated(before, None)
            &&& !run.reads_storages(lookups, within)
        }),
{
    let from = seq![Err::<Address, E>(e)] + behind;
    let rows = Rows { accounts: all_read::<Address, E>(before) + from, storages };
    lemma_unreadable_row(lookups, before, from, None);
    law_scan_reports_accounts(rows, lookups, within);
    law_scan_finds_live_items(rows, lookups, within);
}

/// Where every row can be read and no lookup fails, a scan has no error.
pub proof fn lemma_no_scan_failure<E>(lookups: Lookups<E>, history: History)
    requires
        lookups.accounts_found(),
        lookups.slots_found(),
    ensures
        scan_failure(lookups, history.rows()) == None::<E>,
{
    lemma_no_account_failure(lookups, history.accounts, None);
    lemma_no_storage_failure(lookups, history.storages, None);
}

proof fn lemma_no_account_failure<E>(
    lookups: Lookups<E>,
    accounts: Seq<Address>,
    last: Option<Address>,
)
    requires
        lookups.accounts_found(),
    ensures
        account_failure(lookups, all_read(accounts), last) == None::<E>,
    decreases accounts.len(),
{
    if accounts.len() > 0 {
        let rest = accounts.drop_first();
        assert(all_read::<Address, E>(accounts).drop_first() =~= all_read(rest));
        lemma_no_account_failure(lookups, rest, last);
        lemma_no_account_failure(lookups, rest, Some(accounts[0]));
        assert(lookups.of_account(accounts[0]) is Ok);
    }
}

proof fn lemma_no_storage_failure<E>(
    lookups: Lookups<E>,
    rows: Seq<(Address, B256)>,
    last: Option<(Address, B256)>,
)
    requires
        lookups.slots_found(),
    ensures
        storage_failure(lookups, all_read(rows), last) == None::<E>,
    decreases rows.len(),
{
    if rows.len() > 0 {
        let rest = rows.drop_first();
        assert(all_read::<(Address, B256), E>(rows).drop_first() =~= all_read(rest));
        lemma_no_storage_failure(lookups, rest, last);
        lemma_no_storage_failure(lookups, rest, Some(rows[0]));
        assert(lookups.of_slot(rows[0]) is Ok);
    }
}

/// A scan that has ended, or was given up, stays as it is.
pub proof fn law_scan_end_is_final<E>(state: ScanState, answer: Answer<E>)
    requires
        state.pending is Done || state.pending is Stopped,
    ensures
        state.answered(answer) == (state, state.request::<E>()),
{
}

} // verus!
