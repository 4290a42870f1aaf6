//! What holds of counted slot prefixes.

use crate::byte_map::distinct_keys;
use crate::bytes::lemma_same_bytes;
use crate::frequency::{
    bounded, count_sum, counted, descending, in_mib, is_ranking, is_top, lemma_listed, prefixes_in,
    repeated, tallied, MAX_PREFIXES,
};
use crate::iterators::listing::lemma_filter_first;
use crate::iterators::AccountStorageItem;
use crate::preimages::items_before_failure;
use vstd::arithmetic::div_mod::lemma_fundamental_div_mod;
use vstd::prelude::*;
use vstd::seq_lib::lemma_multiset_commutative;

verus! {

/// How often each of some prefixes occurs among them.
pub open spec fn tally(prefixes: Seq<Seq<u8>>) -> Map<Seq<u8>, nat> {
    Map::new(
        |prefix: Seq<u8>| prefixes.contains(prefix),
        |prefix: Seq<u8>| prefixes.to_multiset().count(prefix),
    )
}

proof fn lemma_occurrences(prefixes: Seq<Seq<u8>>, prefix: Seq<u8>)
    requires
        prefixes.len() > 0,
    ensures
        prefixes.to_multiset().count(prefix) == prefixes.drop_last().to_multiset().count(prefix) + (
        if prefix == prefixes.last() {
            1int
        } else {
            0int
        }),
        prefixes.contains(prefix) <==> prefixes.drop_last().contains(prefix) || prefix
            == prefixes.last(),
        prefixes.contains(prefix) <==> prefixes.to_multiset().count(prefix) > 0,
        prefixes.drop_last().contains(prefix) <==> prefixes.drop_last().to_multiset().count(prefix)
            > 0,
{
    broadcast use vstd::multiset::group_multiset_axioms;

    let front = prefixes.drop_last();
    front.to_multiset_ensures();
    prefixes.to_multiset_ensures();
    assert(prefixes =~= front.push(prefixes.last()));
    if front.contains(prefix) {
        let i = choose|i: int| 0 <= i < front.len() && front[i] == prefix;
        assert(prefixes[i] == prefix);
    }
    if prefixes.contains(prefix) {
        let i = choose|i: int| 0 <= i < prefixes.len() && prefixes[i] == prefix;
        if i < front.len() {
            assert(front[i] == prefix);
        }
    }
}

/// As long as no more different prefixes occur than are kept, the counts are how often each
/// occurs.
pub proof fn law_counts_are_exact(prefixes: Seq<Seq<u8>>)
    requires
        prefixes.to_set().len() <= MAX_PREFIXES,
    ensures
        counted(prefixes) == tally(prefixes),
    decreases prefixes.len(),
{
    if prefixes.len() == 0 {
        assert(counted(prefixes) =~= tally(prefixes));
    } else {
        let front = prefixes.drop_last();
        let last = prefixes.last();
        assert forall|prefix: Seq<u8>| front.to_set().contains(prefix) implies #[trigger]
            prefixes.to_set().contains(prefix) by {
            lemma_occurrences(prefixes, prefix);
        }
        prefixes.lemma_cardinality_of_set();
        vstd::set_lib::lemma_len_subset(front.to_set(), prefixes.to_set());
        law_counts_are_exact(front);
        let next = tallied(tally(front), last);
        assert forall|prefix: Seq<u8>| #[trigger] next.dom().contains(prefix) == tally(
            prefixes,
        ).dom().contains(prefix) by {
            lemma_occurrences(prefixes, prefix);
        }
        assert(next.dom() =~= tally(prefixes).dom());
        assert forall|prefix: Seq<u8>| next.dom().contains(prefix) implies #[trigger] next[prefix]
            == tally(prefixes)[prefix] by {
            lemma_occurrences(prefixes, prefix);
        }
        assert(next =~= tally(prefixes));
        assert(tally(prefixes).dom() =~= prefixes.to_set());
        assert(bounded(next) == next);
    }
}

/// As long as no more different prefixes occur than are kept, the counts do not depend on the order
/// of the slots.
pub proof fn law_counts_ignore_order(a: Seq<Seq<u8>>, b: Seq<Seq<u8>>)
    requires
        a.to_multiset() == b.to_multiset(),
        a.to_set().len() <= MAX_PREFIXES,
    ensures
        counted(a) == counted(b),
{
    a.to_multiset_ensures();
    b.to_multiset_ensures();
    assert forall|prefix: Seq<u8>| a.contains(prefix) == b.contains(prefix) by {
        assert(a.contains(prefix) <==> a.to_multiset().count(prefix) > 0);
        assert(b.contains(prefix) <==> b.to_multiset().count(prefix) > 0);
    }
    assert(a.to_set() =~= b.to_set());
    law_counts_are_exact(a);
    law_counts_are_exact(b);
    assert(tally(a) =~= tally(b));
}

/// A count never says more than how often the prefix occurs, however many prefixes there are.
pub proof fn law_counts_never_exceed(prefixes: Seq<Seq<u8>>, prefix: Seq<u8>)
    requires
        counted(prefixes).contains_key(prefix),
    ensures
        1 <= counted(prefixes)[prefix] <= prefixes.to_multiset().count(prefix),
    decreases prefixes.len(),
{
    if prefixes.len() > 0 {
        let front = prefixes.drop_last();
        lemma_occurrences(prefixes, prefix);
        if counted(front).contains_key(prefix) {
            law_counts_never_exceed(front, prefix);
        }
    }
}

/// The most frequent prefixes occurred more than once each, no prefix is among them twice, their
/// counts are those that were counted, and they stand in descending order. There are never more
/// than asked for.
pub proof fn law_top_tells_counts<const N: usize>(
    counts: Map<Seq<u8>, nat>,
    limit: nat,
    top: Seq<([u8; N], u32)>,
)
    requires
        is_top(counts, limit, top),
    ensures
        top.len() <= limit,
        distinct_keys(top),
        descending(top),
        forall|i: int, j: int|
            #![trigger top[i], top[j]]
            0 <= i < j < top.len() ==> top[i].0@ != top[j].0@ && top[i].1 >= top[j].1,
        forall|i: int|
            0 <= i < top.len() ==> {
                &&& counts.contains_key((#[trigger] top[i]).0@)
                &&& counts[top[i].0@] == top[i].1
                &&& top[i].1 > 1
            },
{
    let ranking = choose|ranking: Seq<([u8; N], u32)>|
        {
            &&& #[trigger] is_ranking(repeated(counts), ranking)
            &&& top == ranking.take(
                if limit < ranking.len() {
                    limit as int
                } else {
                    ranking.len() as int
                },
            )
        };
    lemma_listed(ranking);
    assert forall|i: int| 0 <= i < top.len() implies {
        &&& counts.contains_key((#[trigger] top[i]).0@)
        &&& counts[top[i].0@] == top[i].1
        &&& top[i].1 > 1
    } by {
        assert(top[i] == ranking[i]);
        assert(repeated(counts).contains_key(ranking[i].0@));
    }
    assert forall|i: int, j: int|
        #![trigger top[i], top[j]]
        0 <= i < j < top.len() implies top[i].0 != top[j].0 && top[i].0@ != top[j].0@ && top[i].1
        >= top[j].1 by {
        assert(top[i] == ranking[i] && top[j] == ranking[j]);
        lemma_same_bytes(top[i].0, top[j].0);
    }
}

/// A repeated prefix that is not among the most frequent ones is at most as frequent as each of
/// them, and it is left out only where there are as many as asked for.
pub proof fn law_top_is_most_frequent<const N: usize>(
    counts: Map<Seq<u8>, nat>,
    limit: nat,
    top: Seq<([u8; N], u32)>,
    other: Seq<u8>,
)
    requires
        is_top(counts, limit, top),
        counts.contains_key(other),
        counts[other] > 1,
        forall|i: int| 0 <= i < top.len() ==> (#[trigger] top[i]).0@ != other,
    ensures
        top.len() == limit,
        forall|i: int| 0 <= i < top.len() ==> (#[trigger] top[i]).1 >= counts[other],
{
    let ranking = choose|ranking: Seq<([u8; N], u32)>|
        {
            &&& #[trigger] is_ranking(repeated(counts), ranking)
            &&& top == ranking.take(
                if limit < ranking.len() {
                    limit as int
                } else {
                    ranking.len() as int
                },
            )
        };
    lemma_listed(ranking);
    assert(repeated(counts).contains_key(other));
    let place = choose|i: int| 0 <= i < ranking.len() && (#[trigger] ranking[i]).0@ == other;
    if place < top.len() {
        assert(top[place].0@ == other);
    }
    assert forall|i: int| 0 <= i < top.len() implies (#[trigger] top[i]).1 >= counts[other] by {
        assert(top[i] == ranking[i]);
        assert(ranking[i].1 >= ranking[place].1);
    }
}

/// Where there are fewer most frequent prefixes than asked for, every repeated prefix is among
/// them.
pub proof fn law_short_top_leaves_nothing_out<const N: usize>(
    counts: Map<Seq<u8>, nat>,
    limit: nat,
    top: Seq<([u8; N], u32)>,
    prefix: Seq<u8>,
)
    requires
        is_top(counts, limit, top),
        top.len() < limit,
        counts.contains_key(prefix),
        counts[prefix] > 1,
    ensures
        exists|i: int|
            0 <= i < top.len() && (#[trigger] top[i]).0@ == prefix && top[i].1 == counts[prefix],
{
    if forall|i: int| 0 <= i < top.len() ==> (#[trigger] top[i]).0@ != prefix {
        law_top_is_most_frequent(counts, limit, top, prefix);
    } else {
        let i = choose|i: int| 0 <= i < top.len() && (#[trigger] top[i]).0@ == prefix;
        law_top_tells_counts(counts, limit, top);
        assert(top[i].1 == counts[prefix]);
    }
}

/// One slot more counts once: the count of its prefix grows by one from none, and no other count
/// changes. Only where more than 200 million different prefixes are then counted, those that are
/// counted once are dropped. Nothing is counted without slots.
pub proof fn law_counting_one_more(prefixes: Seq<Seq<u8>>, prefix: Seq<u8>, other: Seq<u8>)
    ensures
        counted(Seq::empty()) == Map::<Seq<u8>, nat>::empty(),
        ({
            let before = counted(prefixes);
            let after = counted(prefixes.push(prefix));
            let known = before.contains_key(other) || other == prefix;
            let number = (if before.contains_key(other) {
                before[other] as int
            } else {
                0
            }) + (if other == prefix {
                1int
            } else {
                0
            });
            if before.dom().insert(prefix).len() > 200_000_000 {
                &&& after.contains_key(other) <==> known && number > 1
                &&& after.contains_key(other) ==> after[other] == number
            } else {
                &&& after.contains_key(other) <==> known
                &&& after.contains_key(other) ==> after[other] == number
            }
        }),
{
    assert(prefixes.push(prefix).drop_last() =~= prefixes);
    let next = tallied(counted(prefixes), prefix);
    assert(next.dom() =~= counted(prefixes).dom().insert(prefix));
}

proof fn lemma_count_first(first: Seq<u8>, rest: Seq<Seq<u8>>, prefix: Seq<u8>)
    ensures
        (seq![first] + rest).to_multiset().count(prefix) == rest.to_multiset().count(prefix) + (
        if first == prefix {
            1int
        } else {
            0int
        }),
{
    broadcast use vstd::multiset::group_multiset_axioms;

    lemma_multiset_commutative(seq![first], rest);
    Seq::<Seq<u8>>::empty().to_multiset_ensures();
    assert(seq![first] =~= Seq::empty().push(first));
}

/// The prefixes that are counted are those of the slots among the entries, in their order.
pub proof fn law_every_slot_has_its_prefix<E>(
    entries: Seq<Result<AccountStorageItem, E>>,
    len: int,
    is_slot: spec_fn(Result<AccountStorageItem, E>) -> bool,
)
    requires
        forall|i: int| 0 <= i < entries.len() ==> #[trigger] entries[i] is Ok,
        forall|entry: Result<AccountStorageItem, E>| #[trigger]
            is_slot(entry) == (entry matches Ok(AccountStorageItem::StorageSlot(_, _))),
    ensures
        ({
            let prefixes = prefixes_in(items_before_failure(entries), len);
            let slots = entries.filter(is_slot);
            &&& prefixes.len() == slots.len()
            &&& forall|i: int|
                0 <= i < slots.len() ==> (#[trigger] slots[i] matches Ok(
                    AccountStorageItem::StorageSlot(_, slot),
                ) && prefixes[i] == slot@.take(len))
        }),
    decreases entries.len(),
{
    let prefixes = prefixes_in(items_before_failure(entries), len);
    let slots = entries.filter(is_slot);
    if entries.len() == 0 {
        reveal(Seq::filter);
    } else {
        let rest = entries.drop_first();
        assert forall|i: int| 0 <= i < rest.len() implies #[trigger] rest[i] is Ok by {
            assert(rest[i] == entries[i + 1]);
        }
        law_every_slot_has_its_prefix(rest, len, is_slot);
        lemma_filter_first(entries, is_slot);
        assert(entries[0] is Ok);
        assert(items_before_failure(entries).drop_first() =~= items_before_failure(rest));
        assert(is_slot(entries[0]) == (entries[0] matches Ok(
            AccountStorageItem::StorageSlot(_, _),
        )));
        let later = rest.filter(is_slot);
        let later_prefixes = prefixes_in(items_before_failure(rest), len);
        assert forall|i: int| 0 <= i < slots.len() implies (#[trigger] slots[i] matches Ok(
            AccountStorageItem::StorageSlot(_, slot),
        ) && prefixes[i] == slot@.take(len)) by {
            if is_slot(entries[0]) {
                if i > 0 {
                    assert(slots[i] == later[i - 1]);
                    assert(prefixes[i] == later_prefixes[i - 1]);
                }
            } else {
                assert(slots[i] == later[i]);
            }
        }
    }
}

/// As often as a prefix stands among the counted ones, as many slots among the entries start with
/// it.
proof fn lemma_prefix_occurrences<E>(
    entries: Seq<Result<AccountStorageItem, E>>,
    len: int,
    prefix: Seq<u8>,
    hits: spec_fn(Result<AccountStorageItem, E>) -> bool,
)
    requires
        forall|i: int| 0 <= i < entries.len() ==> #[trigger] entries[i] is Ok,
        forall|entry: Result<AccountStorageItem, E>| #[trigger]
            hits(entry) == (entry matches Ok(AccountStorageItem::StorageSlot(_, slot))
                && slot@.take(len) == prefix),
    ensures
        prefixes_in(items_before_failure(entries), len).to_multiset().count(prefix)
            == entries.filter(hits).len(),
    decreases entries.len(),
{
    let prefixes = prefixes_in(items_before_failure(entries), len);
    if entries.len() == 0 {
        reveal(Seq::filter);
        prefixes.to_multiset_ensures();
        assert(!prefixes.contains(prefix));
    } else {
        let rest = entries.drop_first();
        assert forall|i: int| 0 <= i < rest.len() implies #[trigger] rest[i] is Ok by {
            assert(rest[i] == entries[i + 1]);
        }
        lemma_prefix_occurrences(rest, len, prefix, hits);
        lemma_filter_first(entries, hits);
        assert(entries[0] is Ok);
        assert(items_before_failure(entries).drop_first() =~= items_before_failure(rest));
        if let Ok(AccountStorageItem::StorageSlot(_, slot)) = entries[0] {
            lemma_count_first(
                slot@.take(len),
                prefixes_in(items_before_failure(rest), len),
                prefix,
            );
        }
    }
}

/// Every slot among the entries of a listing counts once, for the bytes that it starts with:
/// where the slots start in at most 200 million different ways (`kinds`), the count of a prefix
/// is the number of slots that start with it, and a prefix with which no slot starts has no
/// count. The number of all slots is the number of slot entries.
pub proof fn law_every_slot_counts_once<E>(
    entries: Seq<Result<AccountStorageItem, E>>,
    len: int,
    prefix: Seq<u8>,
    is_slot: spec_fn(Result<AccountStorageItem, E>) -> bool,
    hits: spec_fn(Result<AccountStorageItem, E>) -> bool,
    kinds: Set<Seq<u8>>,
)
    requires
        forall|i: int| 0 <= i < entries.len() ==> #[trigger] entries[i] is Ok,
        forall|entry: Result<AccountStorageItem, E>| #[trigger]
            is_slot(entry) == (entry matches Ok(AccountStorageItem::StorageSlot(_, _))),
        forall|entry: Result<AccountStorageItem, E>| #[trigger]
            hits(entry) == (entry matches Ok(AccountStorageItem::StorageSlot(_, slot))
                && slot@.take(len) == prefix),
        kinds.finite(),
        kinds.len() <= 200_000_000,
        forall|i: int|
            0 <= i < entries.len() ==> (#[trigger] entries[i] matches Ok(
                AccountStorageItem::StorageSlot(_, slot),
            ) ==> kinds.contains(slot@.take(len))),
    ensures
        ({
            let prefixes = prefixes_in(items_before_failure(entries), len);
            &&& prefixes.len() == entries.filter(is_slot).len()
            &&& counted(prefixes).contains_key(prefix) <==> entries.filter(hits).len() > 0
            &&& counted(prefixes).contains_key(prefix) ==> counted(prefixes)[prefix]
                == entries.filter(hits).len()
        }),
{
    let prefixes = prefixes_in(items_before_failure(entries), len);
    law_every_slot_has_its_prefix(entries, len, is_slot);
    lemma_prefix_occurrences(entries, len, prefix, hits);
    let slots = entries.filter(is_slot);
    assert forall|p: Seq<u8>| prefixes.to_set().contains(p) implies #[trigger] kinds.contains(
        p,
    ) by {
        let i = choose|i: int| 0 <= i < prefixes.len() && prefixes[i] == p;
        assert(slots[i] matches Ok(AccountStorageItem::StorageSlot(_, slot)) && prefixes[i]
            == slot@.take(len));
        assert(slots.contains(slots[i]));
        entries.lemma_filter_contains_rev(is_slot, slots[i]);
        let j = choose|j: int| 0 <= j < entries.len() && entries[j] == slots[i];
        assert(entries[j] is Ok);
    }
    prefixes.lemma_cardinality_of_set();
    vstd::set_lib::lemma_len_subset(prefixes.to_set(), kinds);
    law_counts_are_exact(prefixes);
    prefixes.to_multiset_ensures();
    assert(prefixes.contains(prefix) <==> prefixes.to_multiset().count(prefix) > 0);
}

/// The counts of a list add up from the first one on.
pub proof fn law_counts_add_up<const N: usize>(entries: Seq<([u8; N], u32)>, sums: Seq<int>)
    requires
        sums.len() == entries.len() + 1,
        sums[0] == 0,
        forall|i: int|
            0 <= i < entries.len() ==> sums[i + 1] == sums[i] + (#[trigger] entries[i]).1,
    ensures
        count_sum(entries) == sums.last(),
    decreases entries.len(),
{
    if entries.len() > 0 {
        let front = entries.drop_last();
        assert forall|i: int| 0 <= i < front.len() implies sums.drop_last()[i + 1]
            == sums.drop_last()[i] + (#[trigger] front[i]).1 by {
            assert(front[i] == entries[i]);
        }
        law_counts_add_up(front, sums.drop_last());
        assert(entries[entries.len() - 1] == entries.last());
    }
}

/// The size of some occurrences is the number of whole MiB, of 1048576 bytes, that they fill.
pub proof fn law_size_in_whole_mib(count: nat, len: nat)
    ensures
        1048576 * in_mib(count, len) <= count * len < 1048576 * (in_mib(count, len) + 1),
{
    lemma_fundamental_div_mod((count * len) as int, 1048576);
}

} // verus!
