//! A map whose keys are byte strings of one size, which keeps its entries in the order in which
//! their keys came.

use crate::bytes::bytes_equal;
use std::collections::HashMap;
use vstd::prelude::*;

verus! {

/// No key occurs twice.
pub open spec fn distinct_keys<const N: usize, V>(entries: Seq<([u8; N], V)>) -> bool {
    forall|i: int, j: int|
        #![trigger entries[i], entries[j]]
        0 <= i < j < entries.len() ==> entries[i].0 != entries[j].0
}

/// The key occurs.
pub open spec fn has_key<const N: usize, V>(entries: Seq<([u8; N], V)>, key: [u8; N]) -> bool {
    exists|i: int| 0 <= i < entries.len() && (#[trigger] entries[i]).0 == key
}

/// The entries of a map, and for each key digest the places of the keys that have it.
pub struct ByteMap<const N: usize, V> {
    entries: Vec<([u8; N], V)>,
    places: HashMap<u64, Vec<usize>>,
}

/// A digest that spreads keys.
spec fn key_digest(key: Seq<u8>) -> u64
    decreases key.len(),
{
    if key.len() == 0 {
        0xcbf2_9ce4_8422_2325
    } else {
        (key_digest(key.drop_last()) ^ (key.last() as u64)).wrapping_mul(0x100_0000_01b3)
    }
}

fn digest_key<const N: usize>(key: &[u8; N]) -> (digest: u64)
    ensures
        digest == key_digest(key@),
{
    let mut digest: u64 = 0xcbf2_9ce4_8422_2325;
    let mut i: usize = 0;
    while i < N
        invariant
            i <= N,
            digest == key_digest(key@.take(i as int)),
        decreases N - i,
    {
        assert(key@.take(i + 1).drop_last() =~= key@.take(i as int));
        digest = (digest ^ (key[i] as u64)).wrapping_mul(0x100_0000_01b3);
        i += 1;
    }
    assert(key@.take(N as int) =~= key@);
    digest
}

impl<const N: usize, V> View for ByteMap<N, V> {
    type V = Seq<([u8; N], V)>;

    closed spec fn view(&self) -> Seq<([u8; N], V)> {
        self.entries@
    }
}

impl<const N: usize, V> ByteMap<N, V> {
    /// The keys are distinct, and every key is found under its digest.
    pub closed spec fn wf(&self) -> bool {
        &&& distinct_keys(self.entries@)
        &&& forall|i: int|
            0 <= i < self.entries@.len() ==> #[trigger] self.placed(self.entries@[i].0, i)
        &&& forall|digest: u64, p: int|
            #![trigger self.places@[digest]@[p]]
            self.places@.contains_key(digest) && 0 <= p < self.places@[digest]@.len()
                ==> self.places@[digest]@[p] < self.entries@.len()
    }

    /// The place of the key is found under its digest.
    spec fn placed(&self, key: [u8; N], i: int) -> bool {
        &&& self.places@.contains_key(key_digest(key@))
        &&& self.places@[key_digest(key@)]@.contains(i as usize)
        &&& i <= usize::MAX
    }

    /// Of a map, no key occurs twice.
    pub proof fn lemma_wf(&self)
        requires
            self.wf(),
        ensures
            distinct_keys(self@),
    {
    }

    /// An empty map.
    pub fn new() -> (map: Self)
        ensures
            map.wf(),
            map@ == Seq::<([u8; N], V)>::empty(),
    {
        ByteMap { entries: Vec::new(), places: HashMap::new() }
    }

    /// The number of entries.
    pub fn len(&self) -> (len: usize)
        ensures
            len == self@.len(),
    {
        self.entries.len()
    }

    /// The entry at a place.
    pub fn entry(&self, place: usize) -> (entry: &([u8; N], V))
        requires
            place < self@.len(),
        ensures
            *entry == self@[place as int],
    {
        &self.entries[place]
    }

    /// The place of a key.
    pub fn find(&self, key: &[u8; N]) -> (place: Option<usize>)
        requires
            self.wf(),
        ensures
            match place {
                Some(place) => place < self@.len() && self@[place as int].0 == *key,
                None => {
                    &&& !has_key(self@, *key)
                    &&& forall|i: int| 0 <= i < self@.len() ==> (#[trigger] self@[i]).0 != *key
                },
            },
    {
        broadcast use vstd::std_specs::hash::group_hash_axioms;

        let digest: u64 = digest_key(key);
        match self.places.get(&digest) {
            Some(places) => {
                let mut p: usize = 0;
                while p < places.len()
                    invariant
                        self.wf(),
                        digest == key_digest(key@),
                        self.places@.contains_key(digest),
                        self.places@[digest] == *places,
                        forall|q: int|
                            0 <= q < p ==> self.entries@[(#[trigger] places@[q]) as int].0 != *key,
                    decreases places.len() - p,
                {
                    let place: usize = places[p];
                    assert(self.places@[digest]@[p as int] < self.entries@.len());
                    if bytes_equal(&self.entries[place].0, key) {
                        return Some(place);
                    }
                    p += 1;
                }
                proof {
                    if has_key(self@, *key) {
                        let i = choose|i: int|
                            0 <= i < self@.len() && (#[trigger] self@[i]).0 == *key;
                        assert(self.placed(self.entries@[i].0, i));
                        let q = choose|q: int| 0 <= q < places@.len() && places@[q] == i as usize;
                        assert(self.entries@[places@[q] as int].0 != *key);
                    }
                }
                None
            },
            None => {
                proof {
                    if has_key(self@, *key) {
                        let i = choose|i: int|
                            0 <= i < self@.len() && (#[trigger] self@[i]).0 == *key;
                        assert(self.placed(self.entries@[i].0, i));
                    }
                }
                None
            },
        }
    }

    /// Adds an entry under a key that does not occur yet.
    pub fn push(&mut self, key: [u8; N], value: V)
        requires
            old(self).wf(),
            !has_key(old(self)@, key),
        ensures
            final(self).wf(),
            final(self)@ == old(self)@.push((key, value)),
    {
        broadcast use vstd::std_specs::hash::group_hash_axioms;

        let place: usize = self.entries.len();
        let digest: u64 = digest_key(&key);
        let ghost before = *self;
        let mut places = match self.places.remove(&digest) {
            Some(places) => places,
            None => Vec::new(),
        };
        let ghost former = places@;
        places.push(place);
        self.places.insert(digest, places);
        self.entries.push((key, value));
        proof {
            assert(places@[former.len() as int] == place);
            assert forall|i: int| 0 <= i < self.entries@.len() implies #[trigger] self.placed(
                self.entries@[i].0,
                i,
            ) by {
                if i < place {
                    assert(before.placed(before.entries@[i].0, i));
                    let d = key_digest(self.entries@[i].0@);
                    if d == digest {
                        let q = choose|q: int| 0 <= q < former.len() && former[q] == i as usize;
                        assert(places@[q] == i as usize);
                    }
                }
            }
            assert forall|d: u64, p: int|
                #![trigger self.places@[d]@[p]]
                self.places@.contains_key(d) && 0 <= p < self.places@[d]@.len() implies self.places@[d]@[p]
                < self.entries@.len() by {
                if d != digest {
                    assert(before.places@[d]@[p] < before.entries@.len());
                } else if p < former.len() {
                    assert(before.places@[d]@[p] < before.entries@.len());
                }
            }
            assert(distinct_keys(self.entries@)) by {
                assert forall|i: int, j: int|
                    #![trigger self.entries@[i], self.entries@[j]]
                    0 <= i < j < self.entries@.len() implies self.entries@[i].0
                    != self.entries@[j].0 by {
                    assert(before@[i] == self.entries@[i]);
                }
            }
        }
    }

    /// Gives access to the value at a place.
    pub fn value_mut(&mut self, place: usize) -> (value: &mut V)
        requires
            old(self).wf(),
            place < old(self)@.len(),
        ensures
            *value == old(self)@[place as int].1,
            final(self).wf(),
            final(self)@ == old(self)@.update(
                place as int,
                (old(self)@[place as int].0, *final(value)),
            ),
    {
        let ghost before = *self;
        let ghost after = *final(self);
        let value = &mut self.entries[place].1;
        proof {
            assert(after.entries@ == before.entries@.update(
                place as int,
                (before.entries@[place as int].0, *final(value)),
            ));
            assert forall|i: int| 0 <= i < after.entries@.len() implies #[trigger] after.placed(
                after.entries@[i].0,
                i,
            ) by {
                assert(before.placed(before.entries@[i].0, i));
            }
            assert forall|i: int, j: int|
                #![trigger after.entries@[i], after.entries@[j]]
                0 <= i < j < after.entries@.len() implies after.entries@[i].0
                != after.entries@[j].0 by {
                assert(before.entries@[i].0 != before.entries@[j].0);
            }
        }
        value
    }
}

} // verus!
