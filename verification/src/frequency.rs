//! How often the storage slots of a listing start with the same bytes.

use crate::byte_map::{distinct_keys, has_key, ByteMap};
use crate::bytes::{lemma_same_bytes, Address, B256};
use crate::iterators::AccountStorageItem;
use crate::preimages::{accounts_in, first_failure, items_before_failure};
use crate::text::{hex_digits, hex_text};
use std::cmp::Reverse;
use vstd::arithmetic::div_mod::lemma_div_denominator;
use vstd::prelude::*;

verus! {

/// How many prefixes are kept before those that occurred only once are dropped.
pub const MAX_PREFIXES: usize = 200_000_000;

/// The counts with one more occurrence of a prefix.
pub open spec fn tallied(counts: Map<Seq<u8>, nat>, prefix: Seq<u8>) -> Map<Seq<u8>, nat> {
    counts.insert(
        prefix,
        if counts.contains_key(prefix) {
            counts[prefix] + 1
        } else {
            1
        },
    )
}

/// The counts of the prefixes that occurred more than once.
pub open spec fn repeated(counts: Map<Seq<u8>, nat>) -> Map<Seq<u8>, nat> {
    counts.restrict(Set::new(|prefix: Seq<u8>| counts[prefix] > 1))
}

/// The counts, without the prefixes that occurred only once where there are too many.
pub open spec fn bounded(counts: Map<Seq<u8>, nat>) -> Map<Seq<u8>, nat> {
    if counts.dom().len() > MAX_PREFIXES {
        repeated(counts)
    } else {
        counts
    }
}

/// The counts of some prefixes, one counted after the other.
pub open spec fn counted(prefixes: Seq<Seq<u8>>) -> Map<Seq<u8>, nat>
    decreases prefixes.len(),
{
    if prefixes.len() == 0 {
        Map::empty()
    } else {
        bounded(tallied(counted(prefixes.drop_last()), prefixes.last()))
    }
}

/// The counts that a list of prefixes and counts stands for.
pub open spec fn listed<const N: usize>(entries: Seq<([u8; N], u32)>) -> Map<Seq<u8>, nat>
    decreases entries.len(),
{
    if entries.len() == 0 {
        Map::empty()
    } else {
        listed(entries.drop_last()).insert(entries.last().0@, entries.last().1 as nat)
    }
}

/// The counts stand in descending order.
pub open spec fn descending<const N: usize>(entries: Seq<([u8; N], u32)>) -> bool {
    forall|i: int, j: int|
        #![trigger entries[i], entries[j]]
        0 <= i < j < entries.len() ==> entries[i].1 >= entries[j].1
}

/// The list holds these counts, no prefix twice, the largest count first.
pub open spec fn is_ranking<const N: usize>(
    counts: Map<Seq<u8>, nat>,
    ranking: Seq<([u8; N], u32)>,
) -> bool {
    &&& distinct_keys(ranking)
    &&& listed(ranking) == counts
    &&& descending(ranking)
}

/// The list holds the first entries of a ranking of the repeated prefixes: `limit` of them, or all
/// where there are fewer. Which of equally frequent prefixes comes first is left open.
pub open spec fn is_top<const N: usize>(
    counts: Map<Seq<u8>, nat>,
    limit: nat,
    top: Seq<([u8; N], u32)>,
) -> bool {
    exists|ranking: Seq<([u8; N], u32)>|
        {
            &&& #[trigger] is_ranking(repeated(counts), ranking)
            &&& top == ranking.take(
                if limit < ranking.len() {
                    limit as int
                } else {
                    ranking.len() as int
                },
            )
        }
}

/// Sorts counts, the largest first.
///
/// Calls the standard library's `sort_unstable_by_key` of slices with the reversed count as the
/// key. What is claimed of it: the entries afterwards are the same entries, as often as before,
/// and stand in descending order of their counts. The order among equal counts is left open.
#[verifier::external_body]
fn sort_by_count<const N: usize>(entries: &mut Vec<([u8; N], u32)>)
    ensures
        final(entries)@.to_multiset() == old(entries)@.to_multiset(),
        descending(final(entries)@),
{
    entries.sort_unstable_by_key(|entry| Reverse(entry.1));
}

/// What a list of distinct prefixes stands for.
pub proof fn lemma_listed<const N: usize>(entries: Seq<([u8; N], u32)>)
    requires
        distinct_keys(entries),
    ensures
        listed(entries).dom().finite(),
        listed(entries).dom().len() == entries.len(),
        forall|i: int|
            0 <= i < entries.len() ==> listed(entries).contains_key((#[trigger] entries[i]).0@)
                && listed(entries)[entries[i].0@] == entries[i].1,
        forall|prefix: Seq<u8>| #[trigger]
            listed(entries).contains_key(prefix) ==> exists|i: int|
                0 <= i < entries.len() && (#[trigger] entries[i]).0@ == prefix,
    decreases entries.len(),
{
    if entries.len() > 0 {
        let front = entries.drop_last();
        let last = entries.last();
        lemma_listed(front);
        assert forall|i: int| 0 <= i < front.len() implies (#[trigger] front[i]).0@ != last.0@ by {
            assert(entries[i].0 != entries[entries.len() - 1].0);
            lemma_same_bytes(entries[i].0, last.0);
        }
        assert forall|i: int| 0 <= i < entries.len() implies listed(entries).contains_key(
            (#[trigger] entries[i]).0@,
        ) && listed(entries)[entries[i].0@] == entries[i].1 by {
            if i < front.len() {
                assert(entries[i] == front[i]);
            }
        }
        assert forall|prefix: Seq<u8>| #[trigger] listed(entries).contains_key(prefix) implies exists|
            i: int,
        |
            0 <= i < entries.len() && (#[trigger] entries[i]).0@ == prefix by {
            if prefix != last.0@ {
                let i = choose|i: int| 0 <= i < front.len() && (#[trigger] front[i]).0@ == prefix;
                assert(entries[i] == front[i]);
            } else {
                assert(entries[entries.len() - 1] == last);
            }
        }
    }
}

/// Two lists of distinct prefixes stand for the same where they have the same entries.
proof fn lemma_listed_same<const N: usize>(a: Seq<([u8; N], u32)>, b: Seq<([u8; N], u32)>)
    requires
        distinct_keys(a),
        distinct_keys(b),
        forall|entry: ([u8; N], u32)| a.contains(entry) <==> #[trigger] b.contains(entry),
    ensures
        listed(a) == listed(b),
{
    lemma_listed(a);
    lemma_listed(b);
    assert forall|prefix: Seq<u8>| listed(a).contains_key(prefix) implies listed(b).contains_key(
        prefix,
    ) && listed(a)[prefix] == listed(b)[prefix] by {
        let i = choose|i: int| 0 <= i < a.len() && (#[trigger] a[i]).0@ == prefix;
        assert(a.contains(a[i]));
        assert(b.contains(a[i]));
        let j = choose|j: int| 0 <= j < b.len() && b[j] == a[i];
        assert(b[j].0@ == prefix);
    }
    assert forall|prefix: Seq<u8>| listed(b).contains_key(prefix) implies listed(a).contains_key(
        prefix,
    ) by {
        let i = choose|i: int| 0 <= i < b.len() && (#[trigger] b[i]).0@ == prefix;
        assert(b.contains(b[i]));
        assert(a.contains(b[i]));
        let j = choose|j: int| 0 <= j < a.len() && a[j] == b[i];
        assert(a[j].0@ == prefix);
    }
    assert(listed(a) =~= listed(b));
}

/// A list with the same entries as a list of distinct prefixes has distinct prefixes.
proof fn lemma_sorted_distinct<const N: usize>(a: Seq<([u8; N], u32)>, b: Seq<([u8; N], u32)>)
    requires
        distinct_keys(a),
        a.to_multiset() == b.to_multiset(),
    ensures
        distinct_keys(b),
        listed(a) == listed(b),
{
    a.to_multiset_ensures();
    b.to_multiset_ensures();
    assert(a.no_duplicates());
    a.lemma_multiset_has_no_duplicates();
    b.lemma_multiset_has_no_duplicates_conv();
    assert forall|entry: ([u8; N], u32)| a.contains(entry) <==> #[trigger] b.contains(entry) by {
        assert(a.contains(entry) <==> a.to_multiset().count(entry) > 0);
        assert(b.contains(entry) <==> b.to_multiset().count(entry) > 0);
    }
    assert forall|i: int, j: int|
        #![trigger b[i], b[j]]
        0 <= i < j < b.len() implies b[i].0 != b[j].0 by {
        if b[i].0 == b[j].0 {
            assert(b.contains(b[i]) && b.contains(b[j]));
            let k = choose|k: int| 0 <= k < a.len() && a[k] == b[i];
            let m = choose|m: int| 0 <= m < a.len() && a[m] == b[j];
            assert(k == m);
            assert(b[i] == b[j]);
        }
    }
    lemma_listed_same(a, b);
}

/// One more occurrence, at the place of the prefix or behind the others.
proof fn lemma_listed_tallied<const N: usize>(
    before: Seq<([u8; N], u32)>,
    after: Seq<([u8; N], u32)>,
    prefix: [u8; N],
)
    requires
        distinct_keys(before),
        distinct_keys(after),
        if has_key(before, prefix) {
            exists|i: int|
                {
                    &&& 0 <= i < before.len()
                    &&& (#[trigger] before[i]).0 == prefix
                    &&& before[i].1 < u32::MAX
                    &&& after == before.update(i, (prefix, (before[i].1 + 1) as u32))
                }
        } else {
            after == before.push((prefix, 1))
        },
    ensures
        listed(after) == tallied(listed(before), prefix@),
        listed(after).dom().len() == after.len(),
{
    lemma_listed(before);
    lemma_listed(after);
    if has_key(before, prefix) {
        let i = choose|i: int|
            {
                &&& 0 <= i < before.len()
                &&& (#[trigger] before[i]).0 == prefix
                &&& before[i].1 < u32::MAX
                &&& after == before.update(i, (prefix, (before[i].1 + 1) as u32))
            };
        assert(after[i].0 == prefix);
        assert forall|other: Seq<u8>| listed(before).dom().contains(other) implies listed(
            after,
        ).dom().contains(other) && (other != prefix@ ==> listed(before)[other] == listed(
            after,
        )[other]) by {
            assert(listed(before).contains_key(other));
            let j = choose|j: int| 0 <= j < before.len() && (#[trigger] before[j]).0@ == other;
            assert(after[j].0@ == other);
        }
        assert forall|other: Seq<u8>| listed(after).dom().contains(other) implies listed(
            before,
        ).dom().contains(other) by {
            assert(listed(after).contains_key(other));
            let j = choose|j: int| 0 <= j < after.len() && (#[trigger] after[j]).0@ == other;
            assert(before[j].0@ == other);
        }
        assert(listed(after) =~= tallied(listed(before), prefix@));
    } else {
        assert(after.drop_last() =~= before);
        if listed(before).contains_key(prefix@) {
            let j = choose|j: int| 0 <= j < before.len() && (#[trigger] before[j]).0@ == prefix@;
            lemma_same_bytes(before[j].0, prefix);
        }
    }
}

/// Keeps the entries with a count above one.
proof fn lemma_listed_repeated<const N: usize>(
    entries: Seq<([u8; N], u32)>,
    kept: Seq<([u8; N], u32)>,
)
    requires
        distinct_keys(entries),
        kept == entries.filter(is_repeated()),
    ensures
        distinct_keys(kept),
        listed(kept) == repeated(listed(entries)),
{
    lemma_filter_distinct(entries, is_repeated());
    lemma_listed(entries);
    lemma_listed(kept);
    let counts = listed(entries);
    assert forall|prefix: Seq<u8>| #[trigger] listed(kept).dom().contains(
        prefix,
    ) implies repeated(counts).dom().contains(prefix) && counts[prefix] == listed(kept)[prefix] by {
        assert(listed(kept).contains_key(prefix));
        let i = choose|i: int| 0 <= i < kept.len() && (#[trigger] kept[i]).0@ == prefix;
        entries.lemma_filter_pred(is_repeated(), i);
        assert(kept.contains(kept[i]));
        entries.lemma_filter_contains_rev(is_repeated(), kept[i]);
        let j = choose|j: int| 0 <= j < entries.len() && entries[j] == kept[i];
        assert(entries[j].0@ == prefix);
    }
    assert forall|prefix: Seq<u8>| #[trigger] repeated(counts).dom().contains(
        prefix,
    ) implies listed(kept).dom().contains(prefix) by {
        assert(counts.contains_key(prefix) && counts[prefix] > 1);
        let i = choose|i: int| 0 <= i < entries.len() && (#[trigger] entries[i]).0@ == prefix;
        entries.lemma_filter_contains(is_repeated(), i);
        let j = choose|j: int| 0 <= j < kept.len() && kept[j] == entries[i];
        assert(kept[j].0@ == prefix);
    }
    assert(listed(kept).dom() =~= repeated(counts).dom());
    assert forall|prefix: Seq<u8>| listed(kept).dom().contains(prefix) implies #[trigger] listed(
        kept,
    )[prefix] == repeated(counts)[prefix] by {
        assert(listed(kept).contains_key(prefix));
    }
    assert(listed(kept) =~= repeated(counts));
}

spec fn is_repeated<const N: usize>() -> spec_fn(([u8; N], u32)) -> bool {
    |entry: ([u8; N], u32)| entry.1 > 1
}

proof fn lemma_filter_distinct<const N: usize>(
    entries: Seq<([u8; N], u32)>,
    keep: spec_fn(([u8; N], u32)) -> bool,
)
    requires
        distinct_keys(entries),
    ensures
        distinct_keys(entries.filter(keep)),
    decreases entries.len(),
{
    reveal(Seq::filter);
    if entries.len() > 0 {
        let front = entries.drop_last();
        lemma_filter_distinct(front, keep);
        let kept = entries.filter(keep);
        let before = front.filter(keep);
        assert forall|i: int, j: int|
            #![trigger kept[i], kept[j]]
            0 <= i < j < kept.len() implies kept[i].0 != kept[j].0 by {
            if j < before.len() {
                assert(before[i].0 != before[j].0);
            } else {
                assert(before.contains(before[i]));
                front.lemma_filter_contains_rev(keep, before[i]);
                let k = choose|k: int| 0 <= k < front.len() && front[k] == before[i];
                assert(entries[k].0 != entries[entries.len() - 1].0);
            }
        }
    }
}

/// Counts of slot prefixes of `N` bytes.
pub struct SlotFrequency<const N: usize> {
    counts: ByteMap<N, u32>,
    total_storage_slots: i32,
}

impl<const N: usize> SlotFrequency<N> {
    /// How often each prefix occurred.
    pub closed spec fn counts(&self) -> Map<Seq<u8>, nat> {
        listed(self.counts@)
    }

    /// How many slots were counted.
    pub closed spec fn slots(&self) -> int {
        self.total_storage_slots as int
    }

    /// No prefix occurred more often than there were slots.
    pub closed spec fn wf(&self) -> bool {
        &&& self.counts.wf()
        &&& 0 <= self.total_storage_slots
        &&& forall|i: int|
            0 <= i < self.counts@.len() ==> (#[trigger] self.counts@[i]).1
                <= self.total_storage_slots
    }

    /// Starts counting.
    pub fn new() -> (frequency: Self)
        ensures
            frequency.wf(),
            frequency.counts() == Map::<Seq<u8>, nat>::empty(),
            frequency.slots() == 0,
    {
        SlotFrequency { counts: ByteMap::new(), total_storage_slots: 0 }
    }

    /// How many slots were counted.
    pub fn total_storage_slots(&self) -> (total: i32)
        ensures
            total == self.slots(),
    {
        self.total_storage_slots
    }

    /// Counts a slot.
    pub fn record(&mut self, slot: &B256)
        requires
            old(self).wf(),
            old(self).slots() < i32::MAX,
            N <= 32,
        ensures
            final(self).wf(),
            final(self).slots() == old(self).slots() + 1,
            final(self).counts() == bounded(
                tallied(old(self).counts(), slot@.take(N as int)),
            ),
    {
        let prefix: [u8; N] = slot_prefix(slot);
        let ghost before = self.counts@;
        proof {
            self.counts.lemma_wf();
        }
        self.total_storage_slots += 1;
        match self.counts.find(&prefix) {
            Some(place) => {
                let count: u32 = self.counts.entry(place).1;
                *self.counts.value_mut(place) = count + 1;
            },
            None => {
                self.counts.push(prefix, 1);
            },
        }
        proof {
            self.counts.lemma_wf();
            lemma_listed_tallied(before, self.counts@, prefix);
        }
        if self.counts.len() > MAX_PREFIXES {
            self.drop_single();
        }
    }

    /// Drops the prefixes that occurred only once.
    fn drop_single(&mut self)
        requires
            old(self).wf(),
        ensures
            final(self).wf(),
            final(self).slots() == old(self).slots(),
            final(self).counts() == repeated(old(self).counts()),
    {
        let kept = self.repeated();
        let mut counts: ByteMap<N, u32> = ByteMap::new();
        let mut i: usize = 0;
        while i < kept.len()
            invariant
                i <= kept@.len(),
                counts.wf(),
                counts@ == kept@.take(i as int),
                distinct_keys(kept@),
            decreases kept@.len() - i,
        {
            let (prefix, count) = kept[i];
            counts.push(prefix, count);
            i += 1;
            assert(counts@ =~= kept@.take(i as int));
        }
        assert(counts@ =~= kept@);
        proof {
            assert forall|k: int| 0 <= k < counts@.len() implies (#[trigger] counts@[k]).1
                <= self.total_storage_slots by {
                assert(counts@.contains(counts@[k]));
                self.counts@.lemma_filter_contains_rev(is_repeated(), counts@[k]);
                let m = choose|m: int| 0 <= m < self.counts@.len() && self.counts@[m] == counts@[k];
                assert(self.counts@[m].1 <= self.total_storage_slots);
            }
        }
        self.counts = counts;
    }

    /// The prefixes that occurred more than once.
    fn repeated(&self) -> (kept: Vec<([u8; N], u32)>)
        requires
            self.wf(),
        ensures
            kept@ == self.counts@.filter(is_repeated()),
            distinct_keys(kept@),
            listed(kept@) == repeated(self.counts()),
    {
        let mut kept: Vec<([u8; N], u32)> = Vec::new();
        let mut i: usize = 0;
        let ghost all = self.counts@;
        proof {
            reveal(Seq::filter);
            assert(all.take(0) =~= Seq::empty());
        }
        while i < self.counts.len()
            invariant
                i <= self.counts@.len(),
                all == self.counts@,
                kept@ == all.take(i as int).filter(is_repeated()),
            decreases self.counts@.len() - i,
        {
            let entry = self.counts.entry(i);
            proof {
                reveal(Seq::filter);
                assert(all.take(i + 1).drop_last() =~= all.take(i as int));
            }
            if entry.1 > 1 {
                kept.push((entry.0, entry.1));
            }
            i += 1;
        }
        proof {
            assert(all.take(i as int) =~= all);
            self.counts.lemma_wf();
            lemma_listed_repeated(all, kept@);
        }
        kept
    }

    /// Counts the next entry of a listing: a slot is counted, and the address of an account is
    /// handed back as progress. A failure of the listing ends the counting.
    pub fn count_entry<E>(&mut self, entry: Result<AccountStorageItem, E>) -> (progress: Result<
        Option<Address>,
        E,
    >)
        requires
            old(self).wf(),
            entry matches Ok(AccountStorageItem::StorageSlot(_, _)) ==> old(self).slots()
                < i32::MAX && N <= 32,
        ensures
            final(self).wf(),
            match entry {
                Ok(AccountStorageItem::Account(address)) => {
                    &&& progress == Ok::<_, E>(Some(address))
                    &&& *final(self) == *old(self)
                },
                Ok(AccountStorageItem::StorageSlot(_, slot)) => {
                    &&& progress == Ok::<_, E>(None::<Address>)
                    &&& final(self).slots() == old(self).slots() + 1
                    &&& final(self).counts() == bounded(
                        tallied(old(self).counts(), slot@.take(N as int)),
                    )
                },
                Err(e) => {
                    &&& progress == Err::<Option<Address>, E>(e)
                    &&& *final(self) == *old(self)
                },
            },
    {
        match entry {
            Ok(AccountStorageItem::Account(address)) => Ok(Some(address)),
            Ok(AccountStorageItem::StorageSlot(_, slot)) => {
                self.record(&slot);
                Ok(None)
            },
            Err(e) => Err(e),
        }
    }

    /// The prefixes that occurred more than once with their counts, the most frequent first, and
    /// of these at most `top_n_detail`.
    pub fn top(&self, top_n_detail: usize) -> (top: Vec<([u8; N], u32)>)
        requires
            self.wf(),
        ensures
            is_top(self.counts(), top_n_detail as nat, top@),
    {
        let mut ranking = self.repeated();
        let ghost kept = ranking@;
        sort_by_count(&mut ranking);
        let ghost all = ranking@;
        proof {
            lemma_sorted_distinct(kept, all);
            assert(is_ranking(repeated(self.counts()), all));
        }
        if top_n_detail < ranking.len() {
            ranking.truncate(top_n_detail);
        }
        assert(ranking@ =~= all.take(ranking@.len() as int));
        ranking
    }
}

/// The first bytes of a slot.
fn slot_prefix<const N: usize>(slot: &B256) -> (prefix: [u8; N])
    requires
        N <= 32,
    ensures
        prefix@ == slot@.take(N as int),
{
    let mut prefix: [u8; N] = [0u8; N];
    let mut i: usize = 0;
    while i < N
        invariant
            i <= N <= 32,
            forall|j: int| 0 <= j < i ==> prefix@[j] == slot@[j],
        decreases N - i,
    {
        prefix[i] = slot[i];
        i += 1;
    }
    assert(prefix@ =~= slot@.take(N as int));
    prefix
}

/// The prefixes of the slots among some items, each of `len` bytes.
pub open spec fn prefixes_in(items: Seq<AccountStorageItem>, len: int) -> Seq<Seq<u8>>
    decreases items.len(),
{
    if items.len() == 0 {
        Seq::empty()
    } else {
        match items[0] {
            AccountStorageItem::Account(_) => prefixes_in(items.drop_first(), len),
            AccountStorageItem::StorageSlot(_, slot) => seq![slot@.take(len)] + prefixes_in(
                items.drop_first(),
                len,
            ),
        }
    }
}

/// What came of counting the slots of a listing.
pub struct FrequencyReport<const N: usize> {
    /// How many slots the listing has.
    pub total_storage_slots: i32,
    /// The most frequent prefixes with their counts.
    pub top: Vec<([u8; N], u32)>,
}

/// Counts the slot prefixes of a listing and picks the most frequent ones. The accounts that were
/// passed come back as progress, also where the listing fails.
pub fn storage_slot_freq<const N: usize, E>(
    entries: &[Result<AccountStorageItem, E>],
    top_n_detail: usize,
) -> (result: (Vec<Address>, Result<FrequencyReport<N>, &E>))
    requires
        prefixes_in(items_before_failure(entries@), N as int).len() <= i32::MAX,
        prefixes_in(items_before_failure(entries@), N as int).len() > 0 ==> N <= 32,
    ensures
        result.0@ == accounts_in(items_before_failure(entries@)),
        match first_failure(entries@) {
            Some(e) => result.1 matches Err(failure) && *failure == e,
            None => {
                let prefixes = prefixes_in(items_before_failure(entries@), N as int);
                &&& result.1 matches Ok(report)
                &&& report.total_storage_slots == prefixes.len()
                &&& is_top(counted(prefixes), top_n_detail as nat, report.top@)
            },
        },
{
    let mut frequency: SlotFrequency<N> = SlotFrequency::new();
    let mut progress: Vec<Address> = Vec::new();
    let ghost all = prefixes_in(items_before_failure(entries@), N as int);
    let ghost mut done: Seq<Seq<u8>> = Seq::empty();
    let mut i: usize = 0;
    proof {
        assert(entries@.skip(0) =~= entries@);
        let items = items_before_failure(entries@);
        assert(progress@ + accounts_in(items) =~= accounts_in(items));
        assert(done + all =~= all);
    }
    while i < entries.len()
        invariant
            i <= entries@.len(),
            progress@ + accounts_in(items_before_failure(entries@.skip(i as int))) == accounts_in(
                items_before_failure(entries@),
            ),
            done + prefixes_in(items_before_failure(entries@.skip(i as int)), N as int) == all,
            first_failure(entries@.skip(i as int)) == first_failure(entries@),
            frequency.wf(),
            frequency.counts() == counted(done),
            frequency.slots() == done.len(),
            all.len() <= i32::MAX,
            all.len() > 0 ==> N <= 32,
        decreases entries@.len() - i,
    {
        let ghost left = entries@.skip(i as int);
        assert(left[0] == entries@[i as int]);
        assert(left.drop_first() =~= entries@.skip(i + 1));
        let item = match &entries[i] {
            Ok(item) => *item,
            Err(e) => {
                assert(progress@ + Seq::empty() =~= progress@);
                return (progress, Err(e));
            },
        };
        let ghost later = items_before_failure(left.drop_first());
        let ghost reported = progress@;
        let ghost before = done;
        proof {
            assert((seq![item] + later).drop_first() =~= later);
            match item {
                AccountStorageItem::Account(address) => {
                    assert(reported.push(address) + accounts_in(later) =~= reported + (
                    seq![address] + accounts_in(later)));
                },
                AccountStorageItem::StorageSlot(_, slot) => {
                    let prefix = slot@.take(N as int);
                    done = before.push(prefix);
                    assert(done + prefixes_in(later, N as int) =~= before + (seq![prefix]
                        + prefixes_in(later, N as int)));
                    assert(done.drop_last() =~= before);
                },
            }
        }
        if let Ok(Some(address)) = frequency.count_entry::<E>(Ok(item)) {
            progress.push(address);
        }
        i += 1;
    }
    proof {
        assert(entries@.skip(i as int) =~= Seq::empty());
        assert(progress@ + Seq::empty() =~= progress@);
        assert(done + Seq::empty() =~= done);
    }
    let report = FrequencyReport {
        total_storage_slots: frequency.total_storage_slots(),
        top: frequency.top(top_n_detail),
    };
    (progress, Ok(report))
}

/// What is told of a frequent prefix.
pub struct FrequencyRow {
    /// The prefix as hexadecimal digits.
    pub prefix: String,
    /// How often it occurred.
    pub count: u32,
    /// The size of its occurrences, in MiB.
    pub mib: u32,
    /// The size of its occurrences and those of the prefixes before it, in MiB.
    pub cumulative_mib: u64,
}

/// The sum of some counts.
pub open spec fn count_sum<const N: usize>(entries: Seq<([u8; N], u32)>) -> nat
    decreases entries.len(),
{
    if entries.len() == 0 {
        0
    } else {
        count_sum(entries.drop_last()) + entries.last().1 as nat
    }
}

/// The size of some occurrences of a prefix of `len` bytes, in MiB, without its fraction.
pub open spec fn in_mib(count: nat, len: nat) -> nat {
    count * len / (1024 * 1024)
}

/// Describes the most frequent prefixes.
pub fn frequency_rows<const N: usize>(top: &[([u8; N], u32)]) -> (rows: Vec<FrequencyRow>)
    requires
        N <= u32::MAX,
        forall|i: int| 0 <= i < top@.len() ==> (#[trigger] top@[i]).1 * N <= u32::MAX,
        count_sum(top@) * N <= u64::MAX,
        count_sum(top@) <= u64::MAX,
    ensures
        rows@.len() == top@.len(),
        forall|i: int|
            0 <= i < top@.len() ==> {
                &&& (#[trigger] rows@[i]).prefix@ == hex_digits(top@[i].0@)
                &&& rows@[i].count == top@[i].1
                &&& rows@[i].mib == in_mib(top@[i].1 as nat, N as nat)
                &&& rows@[i].cumulative_mib == in_mib(count_sum(top@.take(i + 1)), N as nat)
            },
{
    let mut rows: Vec<FrequencyRow> = Vec::new();
    let mut cumulative: u64 = 0;
    let mut i: usize = 0;
    while i < top.len()
        invariant
            i <= top@.len(),
            N <= u32::MAX,
            forall|k: int| 0 <= k < top@.len() ==> (#[trigger] top@[k]).1 * N <= u32::MAX,
            count_sum(top@) * N <= u64::MAX,
            count_sum(top@) <= u64::MAX,
            cumulative == count_sum(top@.take(i as int)),
            rows@.len() == i,
            forall|k: int|
                0 <= k < i ==> {
                    &&& (#[trigger] rows@[k]).prefix@ == hex_digits(top@[k].0@)
                    &&& rows@[k].count == top@[k].1
                    &&& rows@[k].mib == in_mib(top@[k].1 as nat, N as nat)
                    &&& rows@[k].cumulative_mib == in_mib(count_sum(top@.take(k + 1)), N as nat)
                },
        decreases top@.len() - i,
    {
        let count: u32 = top[i].1;
        proof {
            lemma_count_sum_take(top@, i as int);
            let sum = count_sum(top@.take(i + 1));
            assert(sum * N <= count_sum(top@) * N) by (nonlinear_arith)
                requires
                    sum <= count_sum(top@),
            ;
            assert(top@[i as int].1 * N <= u32::MAX);
        }
        cumulative += count as u64;
        let size: u32 = count * (N as u32);
        let cumulative_size: u64 = cumulative * (N as u64);
        proof {
            lemma_div_denominator(size as int, 1024, 1024);
            lemma_div_denominator(cumulative_size as int, 1024, 1024);
        }
        rows.push(
            FrequencyRow {
                prefix: hex_text(&top[i].0),
                count,
                mib: size / 1024 / 1024,
                cumulative_mib: cumulative_size / 1024 / 1024,
            },
        );
        i += 1;
    }
    rows
}

proof fn lemma_count_sum_take<const N: usize>(entries: Seq<([u8; N], u32)>, count: int)
    requires
        0 <= count < entries.len(),
    ensures
        count_sum(entries.take(count + 1)) == count_sum(entries.take(count)) + entries[count].1,
        count_sum(entries.take(count + 1)) <= count_sum(entries),
    decreases entries.len() - count,
{
    assert(entries.take(count + 1).drop_last() =~= entries.take(count));
    if count + 1 < entries.len() {
        lemma_count_sum_take(entries, count + 1);
    } else {
        assert(entries.take(count + 1) =~= entries);
    }
}

} // verus!
