//! Listing the state in plain order: accounts by address, and the slots of each by slot key.
//!
//! The plain addresses and slots come from two history tables, which hold a row for every account
//! and slot that was ever touched, and several rows where the history of one is sharded. Two
//! hashed tables tell which of them are live. The iterator decides which row to read and which
//! key to look up next; whoever drives it reads the tables and hands the answers back.

use crate::bytes::{bytes_equal, bytes_less, bytes_lt, Address, B256};
use crate::hashing::{keccak, keccak256};
use crate::iterators::AccountStorageItem;
use vstd::prelude::*;

verus! {

/// What the listing works on.
#[derive(Clone, Copy)]
pub enum State {
    /// The next account has to be found.
    Account,
    /// The slots of this account are being listed.
    StorageSlot(Address),
    /// Every account was listed.
    End,
}

/// The row of the storage history that was read ahead.
pub enum Peeked<E> {
    /// No row was read ahead.
    Empty,
    /// The storage history has no more rows.
    Exhausted,
    /// Reading the row failed.
    Failed(E),
    /// The row's address and slot.
    Row(Address, B256),
}

/// What the iterator waits for.
#[derive(Clone, Copy)]
pub enum Pending {
    /// To be asked for the next item.
    Nothing,
    /// The next row of the account history.
    AccountRow,
    /// Whether this account is live.
    Account(Address),
    /// The next row of the storage history.
    StorageRow,
    /// The next row of the storage history, while the rows of this address are passed over.
    PassedRow(Address),
    /// Whether this slot of this account is live.
    Slot(Address, B256),
}

/// What the iterator asks for, or hands out.
pub enum Step<E> {
    /// Read the next row of the account history.
    NextAccountRow,
    /// Look up this key in the table of hashed accounts.
    SeekAccount(B256),
    /// Read the next row of the storage history.
    NextStorageRow,
    /// In the table of hashed storages, look up the entries of this account for the first one
    /// whose slot hash is not less than this one.
    SeekSlot(B256, B256),
    /// The next item.
    Item(AccountStorageItem),
    /// An error that came with an answer.
    Failed(E),
    /// The listing has ended.
    Done,
}

/// What was found in the tables.
pub enum Answer<E> {
    /// The address of the next row of the account history, or `None` behind the last row.
    AccountRow(Result<Option<Address>, E>),
    /// Whether the key was found in the table of hashed accounts.
    Account(Result<bool, E>),
    /// The address and slot of the next row of the storage history, or `None` behind the last.
    StorageRow(Result<Option<(Address, B256)>, E>),
    /// The slot hash of the entry that was found in the table of hashed storages.
    Slot(Result<Option<B256>, E>),
}

/// Iterates all current accounts and their storage slots in plain (address-sorted) order.
pub struct PlainIterator<E> {
    pub last_account_addr: Option<Address>,
    pub last_storage_slot: Option<(Address, B256)>,
    pub peeked: Peeked<E>,
    pub state: State,
    pub pending: Pending,
}

impl<E> PlainIterator<E> {
    /// The row that an answer puts ahead.
    pub open spec fn row_ahead(row: Result<Option<(Address, B256)>, E>) -> Peeked<E> {
        match row {
            Ok(Some((address, slot))) => Peeked::Row(address, slot),
            Ok(None) => Peeked::Exhausted,
            Err(e) => Peeked::Failed(e),
        }
    }

    /// What the iterator asks for while it waits for an answer.
    pub open spec fn request(self) -> Step<E> {
        match self.pending {
            Pending::Nothing => Step::Done,
            Pending::AccountRow => Step::NextAccountRow,
            Pending::Account(address) => Step::SeekAccount(keccak(address@)),
            Pending::StorageRow => Step::NextStorageRow,
            Pending::PassedRow(_) => Step::NextStorageRow,
            Pending::Slot(address, slot) => Step::SeekSlot(keccak(address@), keccak(slot@)),
        }
    }

    /// The iterator as it waits for the given answer, and what it asks for.
    pub open spec fn asking(self, pending: Pending) -> (Self, Step<E>) {
        let asking = PlainIterator { pending, ..self };
        (asking, asking.request())
    }

    /// The iterator as it hands something out.
    pub open spec fn handing_out(self, step: Step<E>) -> (Self, Step<E>) {
        (PlainIterator { pending: Pending::Nothing, ..self }, step)
    }

    /// How the listing goes on from where it stands.
    ///
    /// The slots of the current account are those rows of the storage history that hold its
    /// address, as far as they stand together: rows of smaller addresses are passed over, and a
    /// row of a larger one, or the end of the rows, ends the account. A row that repeats the one
    /// before it is another shard of the same slot.
    pub open spec fn resumed(self) -> (Self, Step<E>) {
        match self.state {
            State::End => self.handing_out(Step::Done),
            State::Account => self.asking(Pending::AccountRow),
            State::StorageSlot(address) => match self.peeked {
                Peeked::Empty => self.asking(Pending::StorageRow),
                Peeked::Exhausted => self.account_ended(),
                Peeked::Failed(e) => self.consumed().handing_out(Step::Failed(e)),
                Peeked::Row(row_address, slot) => if bytes_lt(row_address@, address@) {
                    self.consumed().asking(Pending::PassedRow(row_address))
                } else if bytes_lt(address@, row_address@) {
                    self.account_ended()
                } else if self.last_storage_slot == Some((row_address, slot)) {
                    self.consumed().asking(Pending::StorageRow)
                } else {
                    PlainIterator {
                        last_storage_slot: Some((row_address, slot)),
                        ..self.consumed()
                    }.asking(Pending::Slot(row_address, slot))
                },
            },
        }
    }

    /// The iterator without the row that was read ahead.
    pub open spec fn consumed(self) -> Self {
        PlainIterator { peeked: Peeked::Empty, ..self }
    }

    /// The slots of the current account are listed: the next account has to be found.
    pub open spec fn account_ended(self) -> (Self, Step<E>) {
        PlainIterator { state: State::Account, ..self }.asking(Pending::AccountRow)
    }

    /// The iterator without the row that was read ahead, where it is one of `address`.
    pub open spec fn past(self, address: Address) -> Self {
        match self.peeked {
            Peeked::Row(row_address, _) if row_address == address => self.consumed(),
            _ => self,
        }
    }

    /// How the listing goes on while the storage rows of `address` are passed over: as long as no
    /// row is ahead, the next one is asked for.
    pub open spec fn passing(self, address: Address) -> (Self, Step<E>) {
        if self.past(address).peeked is Empty {
            self.past(address).asking(Pending::PassedRow(address))
        } else {
            self.past(address).resumed()
        }
    }

    /// How the listing goes on when the next item is asked for.
    pub open spec fn asked(self) -> (Self, Step<E>) {
        if self.pending is Nothing {
            self.resumed()
        } else {
            (self, self.request())
        }
    }

    /// How the listing goes on with an answer.
    ///
    /// A row of the account history that repeats the address before it is another shard of the
    /// same account. An account that is not live is left out, with the storage rows of its
    /// address. A slot is live where the entry that was found holds exactly its hash. An error
    /// is handed out, and the listing goes on behind it. An answer that was not asked for changes
    /// nothing.
    pub open spec fn answered(self, answer: Answer<E>) -> (Self, Step<E>) {
        match (self.pending, answer) {
            (Pending::AccountRow, Answer::AccountRow(row)) => match row {
                Err(e) => self.handing_out(Step::Failed(e)),
                Ok(None) => PlainIterator { state: State::End, ..self }.handing_out(Step::Done),
                Ok(Some(address)) => if self.last_account_addr == Some(address) {
                    self.asking(Pending::AccountRow)
                } else {
                    PlainIterator { last_account_addr: Some(address), ..self }.asking(
                        Pending::Account(address),
                    )
                },
            },
            (Pending::Account(address), Answer::Account(found)) => match found {
                Err(e) => self.handing_out(Step::Failed(e)),
                Ok(false) => self.passing(address),
                Ok(true) => PlainIterator {
                    state: State::StorageSlot(address),
                    ..self
                }.handing_out(Step::Item(AccountStorageItem::Account(address))),
            },
            (Pending::StorageRow, Answer::StorageRow(row)) => PlainIterator {
                peeked: Self::row_ahead(row),
                ..self
            }.resumed(),
            (Pending::PassedRow(address), Answer::StorageRow(row)) => PlainIterator {
                peeked: Self::row_ahead(row),
                ..self
            }.passing(address),
            (Pending::Slot(address, slot), Answer::Slot(found)) => match found {
                Err(e) => self.handing_out(Step::Failed(e)),
                Ok(entry) => if entry == Some(keccak(slot@)) {
                    self.handing_out(Step::Item(AccountStorageItem::StorageSlot(address, slot)))
                } else {
                    self.resumed()
                },
            },
            _ => self.asked(),
        }
    }

    /// Starts a listing at the first rows of the two histories.
    pub fn new() -> (listing: Self)
        ensures
            listing == (PlainIterator::<E> {
                last_account_addr: None,
                last_storage_slot: None,
                peeked: Peeked::Empty,
                state: State::Account,
                pending: Pending::Nothing,
            }),
    {
        PlainIterator {
            last_account_addr: None,
            last_storage_slot: None,
            peeked: Peeked::Empty,
            state: State::Account,
            pending: Pending::Nothing,
        }
    }

    /// Asks for the next item. Where an answer is still due, the request for it is repeated.
    pub fn next(&mut self) -> (step: Step<E>)
        ensures
            (*final(self), step) == old(self).asked(),
    {
        match self.pending {
            Pending::Nothing => self.resume(),
            _ => self.repeat_request(),
        }
    }

    /// Hands back what was found in the tables.
    pub fn answer(&mut self, answer: Answer<E>) -> (step: Step<E>)
        ensures
            (*final(self), step) == old(self).answered(answer),
    {
        match (self.pending, answer) {
            (Pending::AccountRow, Answer::AccountRow(row)) => match row {
                Err(e) => self.hand_out(Step::Failed(e)),
                Ok(None) => {
                    self.state = State::End;
                    self.hand_out(Step::Done)
                },
                Ok(Some(address)) => {
                    let repeated = match &self.last_account_addr {
                        Some(last) => bytes_equal(last, &address),
                        None => false,
                    };
                    if repeated {
                        self.ask(Pending::AccountRow)
                    } else {
                        self.last_account_addr = Some(address);
                        self.ask(Pending::Account(address))
                    }
                },
            },
            (Pending::Account(address), Answer::Account(found)) => match found {
                Err(e) => self.hand_out(Step::Failed(e)),
                Ok(false) => self.pass(address),
                Ok(true) => {
                    self.state = State::StorageSlot(address);
                    self.hand_out(Step::Item(AccountStorageItem::Account(address)))
                },
            },
            (Pending::StorageRow, Answer::StorageRow(row)) => {
                self.read_ahead(row);
                self.resume()
            },
            (Pending::PassedRow(address), Answer::StorageRow(row)) => {
                self.read_ahead(row);
                self.pass(address)
            },
            (Pending::Slot(address, slot), Answer::Slot(found)) => match found {
                Err(e) => self.hand_out(Step::Failed(e)),
                Ok(entry) => {
                    let live = match entry {
                        Some(hash) => bytes_equal(&hash, &keccak256(&slot)),
                        None => false,
                    };
                    if live {
                        self.hand_out(Step::Item(AccountStorageItem::StorageSlot(address, slot)))
                    } else {
                        self.resume()
                    }
                },
            },
            _ => self.next(),
        }
    }

    /// Goes on from where the listing stands.
    fn resume(&mut self) -> (step: Step<E>)
        ensures
            (*final(self), step) == old(self).resumed(),
    {
        match self.state {
            State::End => self.hand_out(Step::Done),
            State::Account => self.ask(Pending::AccountRow),
            State::StorageSlot(address) => {
                match self.consume() {
                    Peeked::Empty => self.ask(Pending::StorageRow),
                    Peeked::Exhausted => {
                        self.peeked = Peeked::Exhausted;
                        self.end_account()
                    },
                    Peeked::Failed(e) => self.hand_out(Step::Failed(e)),
                    Peeked::Row(row_address, slot) => {
                        if bytes_less(&row_address, &address) {
                            return self.ask(Pending::PassedRow(row_address));
                        }
                        if bytes_less(&address, &row_address) {
                            self.peeked = Peeked::Row(row_address, slot);
                            return self.end_account();
                        }
                        let repeated = match &self.last_storage_slot {
                            Some((last_address, last_slot)) => bytes_equal(
                                last_address,
                                &row_address,
                            ) && bytes_equal(last_slot, &slot),
                            None => false,
                        };
                        if repeated {
                            self.ask(Pending::StorageRow)
                        } else {
                            self.last_storage_slot = Some((row_address, slot));
                            self.ask(Pending::Slot(row_address, slot))
                        }
                    },
                }
            },
        }
    }

    /// Passes over the storage rows of `address`, as far as they were read. Tells whether they are
    /// all passed: else the next row has to be read, and passed over in turn.
    ///
    /// Whatever rows were not read yet, only rows of the address are passed over, and all of them
    /// that come next where the answer is true. A second call changes nothing.
    pub fn advance_storage_past(&mut self, address: Address) -> (passed: bool)
        ensures
            *final(self) == old(self).past(address),
            final(self).past(address) == *final(self),
            passed == !(final(self).peeked is Empty),
            match old(self).peeked {
                Peeked::Row(row_address, _) if row_address == address => {
                    *final(self) == (PlainIterator { peeked: Peeked::Empty, ..*old(self) })
                },
                _ => *final(self) == *old(self),
            },
            forall|unread: Seq<Result<(Address, B256), E>>|
                rows_past(#[trigger] rows_to_come(*final(self), unread), address) == rows_past(
                    rows_to_come(*old(self), unread),
                    address,
                ),
            passed && !(final(self).peeked is Exhausted) ==> forall|
                unread: Seq<Result<(Address, B256), E>>,
            | #[trigger]
                rows_to_come(*final(self), unread) == rows_past(
                    rows_to_come(*old(self), unread),
                    address,
                ),
    {
        let passed = match &self.peeked {
            Peeked::Empty => false,
            Peeked::Row(row_address, _) => !bytes_equal(row_address, &address),
            _ => true,
        };
        if !passed {
            self.peeked = Peeked::Empty;
        }
        proof {
            assert forall|unread: Seq<Result<(Address, B256), E>>|
                rows_past(#[trigger] rows_to_come(*self, unread), address) == rows_past(
                    rows_to_come(*old(self), unread),
                    address,
                ) by {
                let rows = rows_to_come(*old(self), unread);
                if old(self).peeked is Row {
                    assert(rows.drop_first() =~= unread);
                }
            }
        }
        passed
    }

    /// Goes on while the storage rows of `address` are passed over.
    fn pass(&mut self, address: Address) -> (step: Step<E>)
        ensures
            (*final(self), step) == old(self).passing(address),
    {
        if self.advance_storage_past(address) {
            self.resume()
        } else {
            self.ask(Pending::PassedRow(address))
        }
    }

    /// Takes the row that was read ahead.
    fn consume(&mut self) -> (row: Peeked<E>)
        ensures
            row == old(self).peeked,
            *final(self) == old(self).consumed(),
    {
        let mut row = Peeked::Empty;
        core::mem::swap(&mut self.peeked, &mut row);
        row
    }

    /// Keeps a row of the storage history ahead.
    fn read_ahead(&mut self, row: Result<Option<(Address, B256)>, E>)
        ensures
            *final(self) == (PlainIterator { peeked: Self::row_ahead(row), ..*old(self) }),
    {
        self.peeked = match row {
            Ok(Some((address, slot))) => Peeked::Row(address, slot),
            Ok(None) => Peeked::Exhausted,
            Err(e) => Peeked::Failed(e),
        };
    }

    /// Turns to the next account.
    fn end_account(&mut self) -> (step: Step<E>)
        ensures
            (*final(self), step) == old(self).account_ended(),
    {
        self.state = State::Account;
        self.ask(Pending::AccountRow)
    }

    /// Hands something out.
    fn hand_out(&mut self, step: Step<E>) -> (handed: Step<E>)
        ensures
            (*final(self), handed) == old(self).handing_out(step),
    {
        self.pending = Pending::Nothing;
        step
    }

    /// Waits for an answer.
    fn ask(&mut self, pending: Pending) -> (step: Step<E>)
        ensures
            (*final(self), step) == old(self).asking(pending),
    {
        self.pending = pending;
        self.repeat_request()
    }

    /// Asks for the answer that is due.
    fn repeat_request(&self) -> (step: Step<E>)
        ensures
            step == self.request(),
    {
        match self.pending {
            Pending::Nothing => Step::Done,
            Pending::AccountRow => Step::NextAccountRow,
            Pending::Account(address) => Step::SeekAccount(keccak256(&address)),
            Pending::StorageRow => Step::NextStorageRow,
            Pending::PassedRow(_) => Step::NextStorageRow,
            Pending::Slot(address, slot) => Step::SeekSlot(keccak256(&address), keccak256(&slot)),
        }
    }
}

/// The storage rows that are still to come: the one that was read ahead, and those not read.
pub open spec fn rows_to_come<E>(
    listing: PlainIterator<E>,
    unread: Seq<Result<(Address, B256), E>>,
) -> Seq<Result<(Address, B256), E>> {
    match listing.peeked {
        Peeked::Row(address, slot) => seq![Ok::<(Address, B256), E>((address, slot))] + unread,
        Peeked::Failed(e) => seq![Err::<(Address, B256), E>(e)] + unread,
        _ => unread,
    }
}

/// Some rows without those of an address that come first.
pub open spec fn rows_past<E>(rows: Seq<Result<(Address, B256), E>>, address: Address) -> Seq<
    Result<(Address, B256), E>,
>
    decreases rows.len(),
{
    if rows.len() > 0 && (rows[0] matches Ok(row) && row.0 == address) {
        rows_past(rows.drop_first(), address)
    } else {
        rows
    }
}

/// A listing that has ended stays as it is, and says again and again that it has ended.
pub proof fn law_end_is_final<E>(listing: PlainIterator<E>, answer: Answer<E>)
    ensures
        ({
            let (after, step) = listing.asked();
            step is Done ==> after.asked() == (after, Step::<E>::Done)
        }),
        ({
            let (after, step) = listing.answered(answer);
            step is Done ==> after.asked() == (after, Step::<E>::Done)
        }),
{
}

} // verus!
