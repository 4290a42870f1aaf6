//! Collecting the live accounts and slots for the EIP-7748 listing.
//!
//! The account history is read first, and every account is looked up in the table of hashed
//! accounts. Then the storage history is read, and every slot is looked up in the table of hashed
//! storages. The scan decides which row to read and which key to look up next; whoever drives it
//! reads the tables and hands the answers back.

use crate::byte_map::{distinct_keys, has_key, ByteMap};
use crate::bytes::{bytes_equal, Address, B256};
use crate::hashing::{keccak, keccak256};
use crate::iterators::listing::{is_of, slot_of_row};
use crate::iterators::plain::Answer;
use vstd::prelude::*;

verus! {

/// What a scan waits for.
#[derive(Clone, Copy)]
pub enum ScanPending {
    /// The next row of the account history.
    AccountRow,
    /// Whether this account is live.
    Account(Address),
    /// The next row of the storage history.
    StorageRow,
    /// Whether this slot of this account is live.
    Slot(Address, B256),
    /// Nothing: everything was scanned.
    Done,
    /// Nothing: the scan was given up.
    Stopped,
}

/// What a scan asks for, or how it ended.
pub enum ScanStep<E> {
    /// Read the next row of the account history.
    NextAccountRow,
    /// Report this account as progress, and look it up in the table of hashed accounts under this
    /// key.
    SeekAccount(Address, B256),
    /// Read the next row of the storage history.
    NextStorageRow,
    /// In the table of hashed storages, look up the entries of this account for the first one
    /// whose slot hash is not less than this one.
    SeekSlot(B256, B256),
    /// An error that came with an answer: the scan is given up.
    Failed(E),
    /// Everything was scanned.
    Done,
    /// The scan was given up before.
    Stopped,
}

/// What a scan has found so far, and what it waits for.
pub struct ScanState {
    /// The live accounts, in the order in which they were found.
    pub accounts: Seq<Address>,
    /// The live slots, in the order in which they were found.
    pub rows: Seq<(Address, B256)>,
    /// The address of the last row of the account history.
    pub last_account: Option<Address>,
    /// The last row of the storage history.
    pub last_row: Option<(Address, B256)>,
    pub pending: ScanPending,
}

impl ScanState {
    /// A scan before its first row.
    pub open spec fn start() -> Self {
        ScanState {
            accounts: Seq::empty(),
            rows: Seq::empty(),
            last_account: None,
            last_row: None,
            pending: ScanPending::AccountRow,
        }
    }

    /// What the scan asks for while it waits for an answer.
    pub open spec fn request<E>(self) -> ScanStep<E> {
        match self.pending {
            ScanPending::AccountRow => ScanStep::NextAccountRow,
            ScanPending::Account(address) => ScanStep::SeekAccount(address, keccak(address@)),
            ScanPending::StorageRow => ScanStep::NextStorageRow,
            ScanPending::Slot(address, slot) => ScanStep::SeekSlot(keccak(address@), keccak(slot@)),
            ScanPending::Done => ScanStep::Done,
            ScanPending::Stopped => ScanStep::Stopped,
        }
    }

    /// The scan as it waits for the given answer, and what it asks for.
    pub open spec fn asking<E>(self, pending: ScanPending) -> (Self, ScanStep<E>) {
        let asking = ScanState { pending, ..self };
        (asking, asking.request())
    }

    /// The scan as it is given up.
    pub open spec fn failed<E>(self, e: E) -> (Self, ScanStep<E>) {
        (ScanState { pending: ScanPending::Stopped, ..self }, ScanStep::Failed(e))
    }

    /// How the scan goes on with an answer.
    ///
    /// A row that repeats the one before it is another shard of the same account or slot. An
    /// account is live where it was found, and a slot where the entry that was found holds
    /// exactly its hash. An answer that was not asked for changes nothing.
    pub open spec fn answered<E>(self, answer: Answer<E>) -> (Self, ScanStep<E>) {
        match (self.pending, answer) {
            (ScanPending::AccountRow, Answer::AccountRow(row)) => match row {
                Err(e) => self.failed(e),
                Ok(None) => self.asking(ScanPending::StorageRow),
                Ok(Some(address)) => if self.last_account == Some(address) {
                    self.asking(ScanPending::AccountRow)
                } else {
                    ScanState { last_account: Some(address), ..self }.asking(
                        ScanPending::Account(address),
                    )
                },
            },
            (ScanPending::Account(address), Answer::Account(found)) => match found {
                Err(e) => self.failed(e),
                Ok(false) => self.asking(ScanPending::AccountRow),
                Ok(true) => ScanState {
                    accounts: self.accounts.push(address),
                    ..self
                }.asking(ScanPending::AccountRow),
            },
            (ScanPending::StorageRow, Answer::StorageRow(row)) => match row {
                Err(e) => self.failed(e),
                Ok(None) => self.asking(ScanPending::Done),
                Ok(Some((address, slot))) => if self.last_row == Some((address, slot)) {
                    self.asking(ScanPending::StorageRow)
                } else {
                    ScanState { last_row: Some((address, slot)), ..self }.asking(
                        ScanPending::Slot(address, slot),
                    )
                },
            },
            (ScanPending::Slot(address, slot), Answer::Slot(found)) => match found {
                Err(e) => self.failed(e),
                Ok(entry) => if entry == Some(keccak(slot@)) {
                    ScanState { rows: self.rows.push((address, slot)), ..self }.asking(
                        ScanPending::StorageRow,
                    )
                } else {
                    self.asking(ScanPending::StorageRow)
                },
            },
            _ => (self, self.request()),
        }
    }
}

/// The slots of one address among some rows.
pub open spec fn slots_in(rows: Seq<(Address, B256)>, address: Address) -> Seq<B256> {
    rows.filter(is_of(address)).map_values(slot_of_row())
}

/// What a map holds for an address.
pub open spec fn collected(entries: Seq<(Address, Vec<B256>)>, address: Address) -> Seq<B256> {
    if has_key(entries, address) {
        let place = choose|i: int| 0 <= i < entries.len() && (#[trigger] entries[i]).0 == address;
        entries[place].1@
    } else {
        Seq::empty()
    }
}

/// The keys of some pairs.
pub open spec fn keys_of<const N: usize>(pairs: Seq<([u8; N], B256)>) -> Seq<[u8; N]> {
    pairs.map_values(|pair: ([u8; N], B256)| pair.0)
}

/// Every key stands beside its hash.
pub open spec fn beside_hashes<const N: usize>(pairs: Seq<([u8; N], B256)>) -> bool {
    forall|i: int| 0 <= i < pairs.len() ==> (#[trigger] pairs[i]).1 == keccak(pairs[i].0@)
}

/// A scan for the live accounts and slots.
pub struct Eip7748Scan {
    addr_with_hash: Vec<(Address, B256)>,
    last_addr: Option<Address>,
    storage_map: ByteMap<20, Vec<B256>>,
    last_slot: Option<(Address, B256)>,
    pending: ScanPending,
    rows: Ghost<Seq<(Address, B256)>>,
}

impl View for Eip7748Scan {
    type V = ScanState;

    closed spec fn view(&self) -> ScanState {
        ScanState {
            accounts: keys_of(self.addr_with_hash@),
            rows: self.rows@,
            last_account: self.last_addr,
            last_row: self.last_slot,
            pending: self.pending,
        }
    }
}

impl Eip7748Scan {
    /// Every account stands beside its hash, and every slot under its address.
    pub closed spec fn wf(&self) -> bool {
        &&& beside_hashes(self.addr_with_hash@)
        &&& self.storage_map.wf()
        &&& forall|address: Address| #[trigger]
            collected(self.storage_map@, address) == slots_in(self.rows@, address)
    }

    /// Starts a scan at the first rows of the two histories.
    pub fn new() -> (scan: Self)
        ensures
            scan.wf(),
            scan@ == ScanState::start(),
            scan@.accounts.len() == 0,
            scan@.rows.len() == 0,
            scan@.last_account is None,
            scan@.last_row is None,
            scan@.pending is AccountRow,
    {
        reveal(Seq::filter);
        let scan = Eip7748Scan {
            addr_with_hash: Vec::new(),
            last_addr: None,
            storage_map: ByteMap::new(),
            last_slot: None,
            pending: ScanPending::AccountRow,
            rows: Ghost(Seq::empty()),
        };
        assert forall|address: Address| #[trigger]
            collected(scan.storage_map@, address) == slots_in(scan.rows@, address) by {
            assert(slots_in(scan.rows@, address) =~= Seq::empty());
        }
        assert(keys_of(scan.addr_with_hash@) =~= Seq::empty());
        scan
    }

    /// Asks for the answer that is due, or tells how the scan ended.
    pub fn request<E>(&self) -> (step: ScanStep<E>)
        ensures
            step == self@.request::<E>(),
    {
        match self.pending {
            ScanPending::AccountRow => ScanStep::NextAccountRow,
            ScanPending::Account(address) => ScanStep::SeekAccount(address, keccak256(&address)),
            ScanPending::StorageRow => ScanStep::NextStorageRow,
            ScanPending::Slot(address, slot) => ScanStep::SeekSlot(
                keccak256(&address),
                keccak256(&slot),
            ),
            ScanPending::Done => ScanStep::Done,
            ScanPending::Stopped => ScanStep::Stopped,
        }
    }

    /// Hands back what was found in the tables.
    pub fn answer<E>(&mut self, answer: Answer<E>) -> (step: ScanStep<E>)
        requires
            old(self).wf(),
        ensures
            final(self).wf(),
            (final(self)@, step) == old(self)@.answered(answer),
    {
        match (self.pending, answer) {
            (ScanPending::AccountRow, Answer::AccountRow(row)) => match row {
                Err(e) => self.fail(e),
                Ok(None) => self.ask(ScanPending::StorageRow),
                Ok(Some(address)) => {
                    let repeated = match &self.last_addr {
                        Some(last) => bytes_equal(last, &address),
                        None => false,
                    };
                    if repeated {
                        self.ask(ScanPending::AccountRow)
                    } else {
                        self.last_addr = Some(address);
                        self.ask(ScanPending::Account(address))
                    }
                },
            },
            (ScanPending::Account(address), Answer::Account(found)) => match found {
                Err(e) => self.fail(e),
                Ok(found) => {
                    if found {
                        let hash = keccak256(&address);
                        self.addr_with_hash.push((address, hash));
                        assert(keys_of(self.addr_with_hash@) =~= keys_of(
                            old(self).addr_with_hash@,
                        ).push(address));
                    }
                    self.ask(ScanPending::AccountRow)
                },
            },
            (ScanPending::StorageRow, Answer::StorageRow(row)) => match row {
                Err(e) => self.fail(e),
                Ok(None) => self.ask(ScanPending::Done),
                Ok(Some((address, slot))) => {
                    let repeated = match &self.last_slot {
                        Some((last_address, last_slot)) => bytes_equal(last_address, &address)
                            && bytes_equal(last_slot, &slot),
                        None => false,
                    };
                    if repeated {
                        self.ask(ScanPending::StorageRow)
                    } else {
                        self.last_slot = Some((address, slot));
                        self.ask(ScanPending::Slot(address, slot))
                    }
                },
            },
            (ScanPending::Slot(address, slot), Answer::Slot(found)) => match found {
                Err(e) => self.fail(e),
                Ok(entry) => {
                    let live = match entry {
                        Some(hash) => bytes_equal(&hash, &keccak256(&slot)),
                        None => false,
                    };
                    if live {
                        self.keep_slot(address, slot);
                    }
                    self.ask(ScanPending::StorageRow)
                },
            },
            _ => self.request(),
        }
    }

    /// Waits for an answer.
    fn ask<E>(&mut self, pending: ScanPending) -> (step: ScanStep<E>)
        requires
            old(self).wf(),
        ensures
            final(self).wf(),
            (final(self)@, step) == old(self)@.asking::<E>(pending),
    {
        self.pending = pending;
        self.request()
    }

    /// Gives the scan up.
    fn fail<E>(&mut self, e: E) -> (step: ScanStep<E>)
        requires
            old(self).wf(),
        ensures
            final(self).wf(),
            (final(self)@, step) == old(self)@.failed(e),
    {
        self.pending = ScanPending::Stopped;
        ScanStep::Failed(e)
    }

    /// Keeps a live slot.
    fn keep_slot(&mut self, address: Address, slot: B256)
        requires
            old(self).wf(),
        ensures
            final(self).wf(),
            final(self)@ == (ScanState { rows: old(self)@.rows.push((address, slot)), ..old(self)@ }),
    {
        let ghost before = *self;
        let ghost mut at: int = before.storage_map@.len() as int;
        match self.storage_map.find(&address) {
            Some(place) => {
                proof {
                    at = place as int;
                }
                self.storage_map.value_mut(place).push(slot);
            },
            None => {
                let mut slots: Vec<B256> = Vec::new();
                slots.push(slot);
                self.storage_map.push(address, slots);
            },
        }
        proof {
            self.rows@ = before.rows@.push((address, slot));
            before.storage_map.lemma_wf();
            self.storage_map.lemma_wf();
            let old_entries = before.storage_map@;
            let entries = self.storage_map@;
            assert forall|other: Address| #[trigger]
                collected(entries, other) == slots_in(self.rows@, other) by {
                assert(collected(old_entries, other) == slots_in(before.rows@, other));
                lemma_slots_in_push(before.rows@, (address, slot), other);
                assert(entries[at].0 == address);
                lemma_collected(entries, at);
                if at < old_entries.len() {
                    lemma_collected(old_entries, at);
                }
                if other != address {
                    if has_key(old_entries, other) {
                        let k = choose|k: int|
                            0 <= k < old_entries.len() && (#[trigger] old_entries[k]).0 == other;
                        assert(entries[k] == old_entries[k]);
                        lemma_collected(entries, k);
                        lemma_collected(old_entries, k);
                    } else if has_key(entries, other) {
                        let k = choose|k: int|
                            0 <= k < entries.len() && (#[trigger] entries[k]).0 == other;
                        assert(old_entries[k] == entries[k]);
                    }
                }
            }
        }
    }

    /// Hands out what was found: the accounts beside their hashes, and the slots of each address.
    pub(crate) fn into_parts(self) -> (parts: (Vec<(Address, B256)>, ByteMap<20, Vec<B256>>))
        requires
            self.wf(),
        ensures
            beside_hashes(parts.0@),
            keys_of(parts.0@) == self@.accounts,
            parts.1.wf(),
            forall|address: Address| #[trigger]
                collected(parts.1@, address) == slots_in(self@.rows, address),
    {
        (self.addr_with_hash, self.storage_map)
    }
}

/// A row that is added counts for its address only.
proof fn lemma_slots_in_push(rows: Seq<(Address, B256)>, row: (Address, B256), address: Address)
    ensures
        slots_in(rows.push(row), address) == (if row.0 == address {
            slots_in(rows, address).push(row.1)
        } else {
            slots_in(rows, address)
        }),
{
    reveal(Seq::filter);
    assert(rows.push(row).drop_last() =~= rows);
    assert(slots_in(rows.push(row), address) =~= (if row.0 == address {
        slots_in(rows, address).push(row.1)
    } else {
        slots_in(rows, address)
    }));
}

/// Where a key occurs only once, what is collected for it stands at its place.
pub proof fn lemma_collected(entries: Seq<(Address, Vec<B256>)>, place: int)
    requires
        distinct_keys(entries),
        0 <= place < entries.len(),
    ensures
        collected(entries, entries[place].0) == entries[place].1@,
{
    let address = entries[place].0;
    let chosen = choose|i: int| 0 <= i < entries.len() && (#[trigger] entries[i]).0 == address;
    assert(entries[chosen].0 == address);
    if chosen < place {
        assert(entries[chosen].0 != entries[place].0);
    }
    if place < chosen {
        assert(entries[place].0 != entries[chosen].0);
    }
}

} // verus!
