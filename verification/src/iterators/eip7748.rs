//! Listing the state in EIP-7748 order: accounts sorted by keccak256(address), and the slots of
//! each sorted by keccak256(slot).
//!
//! The live accounts and slots are collected first, by a scan of the tables. Then they are sorted,
//! and handed out from memory.

use crate::byte_map::{has_key, ByteMap};
use crate::bytes::{bytes_le, Address, B256};
use crate::hashing::{keccak, keccak256, sort_by_digest};
use crate::iterators::eip7748_scan::{
    beside_hashes, collected, keys_of, lemma_collected, slots_in, Eip7748Scan,
};
use crate::iterators::plain::State;
use crate::iterators::{items_with, slot_items, AccountStorageItem};
use vstd::prelude::*;

verus! {

/// The keys stand in ascending order of their hashes.
pub open spec fn sorted_by_keccak<const N: usize>(keys: Seq<[u8; N]>) -> bool {
    forall|i: int, j: int|
        #![trigger keys[i], keys[j]]
        0 <= i < j < keys.len() ==> bytes_le(keccak(keys[i]@)@, keccak(keys[j]@)@)
}

/// Pairs in another order have their keys in another order.
proof fn lemma_keys_permuted<const N: usize>(a: Seq<([u8; N], B256)>, b: Seq<([u8; N], B256)>)
    requires
        a.to_multiset() == b.to_multiset(),
    ensures
        keys_of(a).to_multiset() == keys_of(b).to_multiset(),
    decreases a.len(),
{
    broadcast use vstd::multiset::group_multiset_axioms;
    broadcast use vstd::seq_lib::group_to_multiset_ensures;

    assert(a.len() == b.len()) by {
        a.to_multiset_ensures();
        b.to_multiset_ensures();
    }
    if a.len() > 0 {
        let last = a.last();
        assert(a.contains(last));
        assert(a.to_multiset().count(last) > 0);
        assert(b.contains(last));
        let i = choose|i: int| 0 <= i < b.len() && b[i] == last;
        assert(a.drop_last() =~= a.remove(a.len() - 1));
        assert(a.drop_last().to_multiset() =~= b.remove(i).to_multiset());
        lemma_keys_permuted(a.drop_last(), b.remove(i));
        assert(keys_of(a).remove(a.len() - 1) =~= keys_of(a.drop_last()));
        assert(keys_of(b).remove(i) =~= keys_of(b.remove(i)));
        let key = last.0;
        assert(keys_of(a)[a.len() - 1] == key);
        assert(keys_of(b)[i] == key);
        assert(keys_of(a).contains(key));
        assert(keys_of(b).contains(key));
        assert(keys_of(a).to_multiset() =~= keys_of(a.drop_last()).to_multiset().insert(key));
        assert(keys_of(b).to_multiset() =~= keys_of(b.remove(i)).to_multiset().insert(key));
    } else {
        assert(keys_of(a) =~= keys_of(b));
    }
}

/// Sorts keys that stand beside their hashes by these.
fn sorted_keys<const N: usize>(pairs: Vec<([u8; N], B256)>) -> (keys: Vec<[u8; N]>)
    requires
        beside_hashes(pairs@),
    ensures
        keys@.to_multiset() == keys_of(pairs@).to_multiset(),
        sorted_by_keccak(keys@),
{
    let mut sorted = pairs;
    sort_by_digest(&mut sorted);
    proof {
        lemma_keys_permuted(sorted@, pairs@);
        sorted@.to_multiset_ensures();
        pairs@.to_multiset_ensures();
        assert forall|i: int| 0 <= i < sorted@.len() implies (#[trigger] sorted@[i]).1 == keccak(
            sorted@[i].0@,
        ) by {
            assert(sorted@.contains(sorted@[i]));
            assert(sorted@.to_multiset().count(sorted@[i]) > 0);
            assert(pairs@.contains(sorted@[i]));
        }
    }
    let mut keys: Vec<[u8; N]> = Vec::new();
    let mut i: usize = 0;
    while i < sorted.len()
        invariant
            i <= sorted@.len(),
            keys@ == keys_of(sorted@).take(i as int),
        decreases sorted.len() - i,
    {
        keys.push(sorted[i].0);
        i += 1;
        assert(keys@ =~= keys_of(sorted@).take(i as int));
    }
    proof {
        assert(keys@ =~= keys_of(sorted@));
        assert forall|i: int, j: int|
            #![trigger keys@[i], keys@[j]]
            0 <= i < j < keys@.len() implies bytes_le(
            keccak(keys@[i]@)@,
            keccak(keys@[j]@)@,
        ) by {
            assert(bytes_le(sorted@[i].1@, sorted@[j].1@));
        }
    }
    keys
}

/// Sorts slots by their hashes.
fn sort_slots(slots: &mut Vec<B256>)
    ensures
        final(slots)@.to_multiset() == old(slots)@.to_multiset(),
        sorted_by_keccak(final(slots)@),
{
    let mut pairs: Vec<(B256, B256)> = Vec::new();
    let mut i: usize = 0;
    while i < slots.len()
        invariant
            i <= slots@.len(),
            slots@ == old(slots)@,
            keys_of(pairs@) == slots@.take(i as int),
            beside_hashes(pairs@),
        decreases slots.len() - i,
    {
        let slot: B256 = slots[i];
        let ghost before = pairs@;
        pairs.push((slot, keccak256(&slot)));
        assert(keys_of(pairs@) =~= keys_of(before).push(slot));
        assert(slots@.take(i as int).push(slot) =~= slots@.take(i + 1));
        i += 1;
    }
    assert(keys_of(pairs@) =~= slots@);
    *slots = sorted_keys(pairs);
}

/// Iterates all current accounts and their storage slots in EIP-7748 order.
pub struct Eip7748Iterator {
    ordered_addresses: Vec<Address>,
    addr_idx: usize,
    storage_map: ByteMap<20, Vec<B256>>,
    storage_slot_idx: usize,
    state: State,
}

impl View for Eip7748Iterator {
    type V = Seq<AccountStorageItem>;

    /// The items that are still to come.
    closed spec fn view(&self) -> Seq<AccountStorageItem> {
        let later = items_with(
            self.ordered_addresses@.skip(self.addr_idx as int),
            self.slot_lists(),
        );
        match self.state {
            State::End => Seq::empty(),
            State::Account => later,
            State::StorageSlot(address) => slot_items(
                address,
                collected(self.storage_map@, address).skip(self.storage_slot_idx as int),
            ) + later,
        }
    }
}

impl Eip7748Iterator {
    /// The accounts, in the order in which they are listed.
    pub closed spec fn addresses(&self) -> Seq<Address> {
        self.ordered_addresses@
    }

    /// The slots of each account, in the order in which they are listed.
    pub closed spec fn slot_lists(&self) -> spec_fn(Address) -> Seq<B256> {
        let entries = self.storage_map@;
        |address: Address| collected(entries, address)
    }

    /// The places are within the accounts and the slots.
    pub closed spec fn wf(&self) -> bool {
        &&& self.addr_idx <= self.ordered_addresses@.len()
        &&& self.storage_map.wf()
        &&& self.state matches State::StorageSlot(address) ==> self.storage_slot_idx <= collected(
            self.storage_map@,
            address,
        ).len()
    }

    /// Sorts the accounts and slots that a scan has found, and starts the listing.
    pub fn new(scan: Eip7748Scan) -> (listing: Self)
        requires
            scan.wf(),
            scan@.pending is Done,
        ensures
            listing.wf(),
            listing@ == items_with(listing.addresses(), listing.slot_lists()),
            listing.addresses().to_multiset() == scan@.accounts.to_multiset(),
            sorted_by_keccak(listing.addresses()),
            forall|i: int, j: int|
                #![trigger listing.addresses()[i], listing.addresses()[j]]
                0 <= i < j < listing.addresses().len() ==> bytes_le(
                    keccak(listing.addresses()[i]@)@,
                    keccak(listing.addresses()[j]@)@,
                ),
            forall|address: Address|
                #![trigger (listing.slot_lists())(address)]
                {
                    let slots = (listing.slot_lists())(address);
                    &&& slots.to_multiset() == slots_in(scan@.rows, address).to_multiset()
                    &&& sorted_by_keccak(slots)
                },
    {
        let ghost rows = scan@.rows;
        let (addr_with_hash, mut storage_map) = scan.into_parts();
        let ordered_addresses = sorted_keys(addr_with_hash);
        let ghost collected_map = storage_map;
        let ghost entries = storage_map@;
        let mut place: usize = 0;
        while place < storage_map.len()
            invariant
                storage_map.wf(),
                place <= storage_map@.len(),
                storage_map@.len() == entries.len(),
                forall|i: int|
                    0 <= i < entries.len() ==> (#[trigger] storage_map@[i]).0 == entries[i].0
                        && storage_map@[i].1@.to_multiset() == entries[i].1@.to_multiset(),
                forall|i: int|
                    0 <= i < place ==> sorted_by_keccak((#[trigger] storage_map@[i]).1@),
            decreases storage_map@.len() - place,
        {
            sort_slots(storage_map.value_mut(place));
            place += 1;
        }
        proof {
            collected_map.lemma_wf();
            storage_map.lemma_wf();
            assert forall|address: Address| #[trigger]
                collected(storage_map@, address).to_multiset() == slots_in(
                    rows,
                    address,
                ).to_multiset() && sorted_by_keccak(collected(storage_map@, address)) by {
                assert(collected(entries, address) == slots_in(rows, address));
                if has_key(entries, address) {
                    let k = choose|k: int|
                        0 <= k < entries.len() && (#[trigger] entries[k]).0 == address;
                    assert(storage_map@[k].0 == address);
                    lemma_collected(entries, k);
                    lemma_collected(storage_map@, k);
                } else if has_key(storage_map@, address) {
                    let k = choose|k: int|
                        0 <= k < storage_map@.len() && (#[trigger] storage_map@[k]).0 == address;
                    assert(entries[k].0 == address);
                }
            }
        }
        let listing = Eip7748Iterator {
            ordered_addresses,
            addr_idx: 0,
            storage_map,
            storage_slot_idx: 0,
            state: State::Account,
        };
        assert(listing.ordered_addresses@.skip(0) =~= listing.ordered_addresses@);
        listing
    }

    /// Hands out the next item.
    pub fn next(&mut self) -> (item: Option<AccountStorageItem>)
        requires
            old(self).wf(),
        ensures
            final(self).wf(),
            final(self).addresses() == old(self).addresses(),
            final(self).slot_lists() == old(self).slot_lists(),
            match item {
                Some(item) => {
                    &&& old(self)@.len() > 0
                    &&& item == old(self)@[0]
                    &&& final(self)@ == old(self)@.drop_first()
                },
                None => old(self)@.len() == 0 && final(self)@.len() == 0,
            },
    {
        loop
            invariant
                self.wf(),
                self.ordered_addresses@ == old(self).ordered_addresses@,
                self.storage_map@ == old(self).storage_map@,
                self@ == old(self)@,
            decreases
                (if self.state is StorageSlot {
                    1int
                } else {
                    0int
                }),
        {
            match self.state {
                State::End => {
                    return None;
                },
                State::Account => {
                    if self.addr_idx >= self.ordered_addresses.len() {
                        assert(self@.len() == 0);
                        self.state = State::End;
                        return None;
                    }
                    let ghost due = self.ordered_addresses@.skip(self.addr_idx as int);
                    let address: Address = self.ordered_addresses[self.addr_idx];
                    let ghost slots = collected(self.storage_map@, address);
                    self.addr_idx += 1;
                    self.storage_slot_idx = 0;
                    self.state = State::StorageSlot(address);
                    proof {
                        assert(due.drop_first() =~= self.ordered_addresses@.skip(
                            self.addr_idx as int,
                        ));
                        assert(slots.skip(0) =~= slots);
                        assert(self@ =~= old(self)@.drop_first());
                    }
                    return Some(AccountStorageItem::Account(address));
                },
                State::StorageSlot(address) => {
                    let ghost slots = collected(self.storage_map@, address);
                    if let Some(place) = self.storage_map.find(&address) {
                        proof {
                            self.storage_map.lemma_wf();
                            lemma_collected(self.storage_map@, place as int);
                        }
                        let entry = self.storage_map.entry(place);
                        if self.storage_slot_idx < entry.1.len() {
                            let slot: B256 = entry.1[self.storage_slot_idx];
                            let ghost due = slots.skip(self.storage_slot_idx as int);
                            self.storage_slot_idx += 1;
                            proof {
                                assert(due.drop_first() =~= slots.skip(
                                    self.storage_slot_idx as int,
                                ));
                                assert(slot_items(address, due).drop_first() =~= slot_items(
                                    address,
                                    due.drop_first(),
                                ));
                                assert(self@ =~= old(self)@.drop_first());
                            }
                            return Some(AccountStorageItem::StorageSlot(address, slot));
                        }
                    }
                    assert(slots.skip(self.storage_slot_idx as int) =~= Seq::empty());
                    self.state = State::Account;
                    assert(self@ =~= old(self)@);
                },
            }
        }
    }
}

} // verus!
