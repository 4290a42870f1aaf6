//! What a preimage file holds, byte by byte, and which files fit a listing.
//!
//! The place of an item in a file is told by a list of starts: the first item starts at 0, and
//! each item starts 20 bytes behind the account, or 32 bytes behind the slot, before it.

use crate::iterators::listing::lemma_filter_first;
use crate::iterators::AccountStorageItem;
use crate::preimages::{
    accounts_in, entries_verified, first_failure, items_before_failure, items_held, law_files_join,
    preimage, preimage_file, progress_of, VerifyError, VerifyFailure,
};
use vstd::prelude::*;

verus! {

/// The bytes that stand for an account are the 20 bytes of its address, and those for a slot the
/// 32 bytes of its key, each in its place.
pub proof fn law_preimage_holds_every_byte(item: AccountStorageItem, k: int)
    ensures
        match item {
            AccountStorageItem::Account(address) => {
                &&& preimage(item).len() == 20
                &&& 0 <= k < 20 ==> preimage(item)[k] == address[k]
            },
            AccountStorageItem::StorageSlot(_, slot) => {
                &&& preimage(item).len() == 32
                &&& 0 <= k < 32 ==> preimage(item)[k] == slot[k]
            },
        },
        progress_of(item) == (match item {
            AccountStorageItem::Account(address) => Some(address),
            AccountStorageItem::StorageSlot(_, _) => None,
        }),
{
}

/// Where the first `count` entries of a listing did not fail, and the next one did or there is
/// none, the items of the listing are those of the first `count` entries, and its failure is that
/// of the next entry.
pub proof fn law_items_are_the_entries<E>(
    entries: Seq<Result<AccountStorageItem, E>>,
    count: int,
)
    requires
        0 <= count <= entries.len(),
        forall|i: int| 0 <= i < count ==> #[trigger] entries[i] is Ok,
        count < entries.len() ==> entries[count] is Err,
    ensures
        items_before_failure(entries).len() == count,
        forall|i: int|
            0 <= i < count ==> entries[i] == Ok::<AccountStorageItem, E>(
                #[trigger] items_before_failure(entries)[i],
            ),
        count == entries.len() ==> first_failure(entries) is None,
        count < entries.len() ==> {
            &&& first_failure(entries) matches Some(e)
            &&& entries[count] == Err::<AccountStorageItem, E>(e)
        },
    decreases count,
{
    if count > 0 {
        let rest = entries.drop_first();
        assert forall|i: int| 0 <= i < count - 1 implies #[trigger] rest[i] is Ok by {
            assert(rest[i] == entries[i + 1]);
        }
        assert(entries[0] is Ok);
        law_items_are_the_entries(rest, count - 1);
        let items = items_before_failure(entries);
        assert forall|i: int| 0 <= i < count implies entries[i] == Ok::<AccountStorageItem, E>(
            #[trigger] items[i],
        ) by {
            if i > 0 {
                assert(rest[i - 1] == entries[i]);
                assert(items[i] == items_before_failure(rest)[i - 1]);
            }
        }
    }
}

/// A file is as long as its items, and each item's bytes stand in the file where the item starts.
pub proof fn law_file_holds_every_item(items: Seq<AccountStorageItem>, starts: Seq<int>)
    requires
        starts.len() == items.len() + 1,
        starts[0] == 0,
        forall|i: int|
            #![trigger items[i]]
            0 <= i < items.len() ==> starts[i + 1] == starts[i] + (if items[i] is Account {
                20int
            } else {
                32int
            }),
    ensures
        preimage_file(items).len() == starts.last(),
        forall|i: int|
            #![trigger items[i]]
            0 <= i < items.len() ==> 0 <= starts[i] <= starts[i + 1] <= starts.last() && match items[i] {
                AccountStorageItem::Account(address) => preimage_file(items).subrange(
                    starts[i],
                    starts[i] + 20,
                ) == address@,
                AccountStorageItem::StorageSlot(_, slot) => preimage_file(items).subrange(
                    starts[i],
                    starts[i] + 32,
                ) == slot@,
            },
    decreases items.len(),
{
    if items.len() > 0 {
        let front = items.drop_last();
        let last = items.last();
        let before = starts.drop_last();
        assert forall|i: int|
            #![trigger front[i]]
            0 <= i < front.len() implies before[i + 1] == before[i] + (if front[i] is Account {
            20int
        } else {
            32int
        }) by {
            assert(front[i] == items[i]);
        }
        law_file_holds_every_item(front, before);
        law_files_join(front, seq![last]);
        assert(items =~= front + seq![last]);
        assert(seq![last].drop_first() =~= Seq::empty());
        reveal_with_fuel(preimage_file, 2);
        assert(preimage_file(seq![last]) =~= preimage(last));
        let file = preimage_file(items);
        let written = preimage_file(front);
        assert(file == written + preimage(last));
        assert(items[items.len() - 1] == last);
        assert forall|i: int|
            #![trigger items[i]]
            0 <= i < items.len() implies 0 <= starts[i] <= starts[i + 1] <= starts.last()
            && match items[i] {
            AccountStorageItem::Account(address) => file.subrange(starts[i], starts[i] + 20)
                == address@,
            AccountStorageItem::StorageSlot(_, slot) => file.subrange(starts[i], starts[i] + 32)
                == slot@,
        } by {
            if i < front.len() {
                assert(front[i] == items[i]);
                assert(before[i] == starts[i] && before[i + 1] == starts[i + 1]);
                let len = if items[i] is Account { 20int } else { 32int };
                assert(file.subrange(starts[i], starts[i] + len) =~= written.subrange(
                    starts[i],
                    starts[i] + len,
                ));
            } else {
                let len = preimage(last).len() as int;
                assert(file.subrange(starts[i], starts[i] + len) =~= preimage(last));
            }
        }
    }
}

/// The accounts that are reported are the account items, in their order.
pub proof fn law_progress_is_the_accounts(
    items: Seq<AccountStorageItem>,
    is_account: spec_fn(AccountStorageItem) -> bool,
)
    requires
        forall|item: AccountStorageItem| #[trigger] is_account(item) == (item is Account),
    ensures
        accounts_in(items).len() == items.filter(is_account).len(),
        forall|i: int|
            0 <= i < items.filter(is_account).len() ==> #[trigger] items.filter(is_account)[i]
                == AccountStorageItem::Account(accounts_in(items)[i]),
    decreases items.len(),
{
    if items.len() == 0 {
        reveal(Seq::filter);
    } else {
        let rest = items.drop_first();
        law_progress_is_the_accounts(rest, is_account);
        lemma_filter_first(items, is_account);
        let kept = items.filter(is_account);
        assert(is_account(items[0]) == (items[0] is Account));
        assert forall|i: int| 0 <= i < kept.len() implies #[trigger] kept[i]
            == AccountStorageItem::Account(accounts_in(items)[i]) by {
            if items[0] is Account {
                if i > 0 {
                    assert(kept[i] == rest.filter(is_account)[i - 1]);
                }
            } else {
                assert(kept[i] == rest.filter(is_account)[i]);
            }
        }
    }
}

/// How a file is held against a listing of which the first `count` entries fit the file, each with
/// its bytes at the place where it starts. Where these are all entries, the file fits. Else the
/// next entry decides: a failure of the listing is told; where the file ends before the 20 bytes
/// of an address, or the 32 bytes of a slot, that is told; and where it holds other bytes there,
/// the address that it holds, or the slot that it should hold. The accounts that are reported are
/// those among the entries up to this one.
pub proof fn law_verify_result<E>(
    entries: Seq<Result<AccountStorageItem, E>>,
    file: Seq<u8>,
    result: Result<(), VerifyFailure<'_, E>>,
    starts: Seq<int>,
    count: int,
)
    requires
        entries_verified(entries, file, result),
        starts.len() == entries.len() + 1,
        starts[0] == 0,
        forall|i: int|
            #![trigger entries[i]]
            0 <= i < entries.len() ==> match entries[i] {
                Ok(AccountStorageItem::Account(_)) => starts[i + 1] == starts[i] + 20,
                Ok(AccountStorageItem::StorageSlot(_, _)) => starts[i + 1] == starts[i] + 32,
                Err(_) => true,
            },
        0 <= count <= entries.len(),
        forall|i: int|
            #![trigger entries[i]]
            0 <= i < count ==> match entries[i] {
                Ok(AccountStorageItem::Account(address)) => starts[i] + 20 <= file.len()
                    && file.subrange(starts[i], starts[i] + 20) == address@,
                Ok(AccountStorageItem::StorageSlot(_, slot)) => starts[i] + 32 <= file.len()
                    && file.subrange(starts[i], starts[i] + 32) == slot@,
                Err(_) => false,
            },
    ensures
        count == entries.len() ==> result is Ok,
        count < entries.len() ==> match entries[count] {
            Err(e) => result == Err::<(), _>(VerifyFailure::Listing(&e)),
            Ok(AccountStorageItem::Account(address)) => {
                &&& file.len() < starts[count] + 20 ==> result == Err::<(), VerifyFailure<'_, E>>(
                    VerifyFailure::File(VerifyError::AddressUnread),
                )
                &&& file.len() >= starts[count] + 20 && file.subrange(
                    starts[count],
                    starts[count] + 20,
                ) != address@ ==> {
                    &&& result matches Err(VerifyFailure::File(VerifyError::AddressMismatch(found)))
                    &&& found@ == file.subrange(starts[count], starts[count] + 20)
                }
            },
            Ok(AccountStorageItem::StorageSlot(address, slot)) => {
                &&& file.len() < starts[count] + 32 ==> result == Err::<(), VerifyFailure<'_, E>>(
                    VerifyFailure::File(VerifyError::StorageSlotUnread),
                )
                &&& file.len() >= starts[count] + 32 && file.subrange(
                    starts[count],
                    starts[count] + 32,
                ) != slot@ ==> result == Err::<(), VerifyFailure<'_, E>>(
                    VerifyFailure::File(VerifyError::StorageSlotMismatch(slot, address)),
                )
            },
        },
        items_held(entries, file).len() >= count,
        count == entries.len() ==> items_held(entries, file).len() == count,
        count < entries.len() && entries[count] is Err ==> items_held(entries, file).len() == count,
        count < entries.len() && (match entries[count] {
            Ok(AccountStorageItem::Account(address)) => file.len() < starts[count] + 20
                || file.subrange(starts[count], starts[count] + 20) != address@,
            Ok(AccountStorageItem::StorageSlot(_, slot)) => file.len() < starts[count] + 32
                || file.subrange(starts[count], starts[count] + 32) != slot@,
            Err(_) => false,
        }) ==> items_held(entries, file).len() == count + 1,
        forall|i: int|
            0 <= i < items_held(entries, file).len() ==> entries[i] == Ok::<AccountStorageItem, E>(
                #[trigger] items_held(entries, file)[i],
            ),
{
    assert(entries.skip(0) =~= entries);
    assert(file.skip(0) =~= file);
    lemma_verify_from(entries, file, result, starts, count, 0);
    lemma_held_are_entries(entries, file);
}

/// The items that are held against the file are those of the first entries.
proof fn lemma_held_are_entries<E>(entries: Seq<Result<AccountStorageItem, E>>, file: Seq<u8>)
    ensures
        items_held(entries, file).len() <= entries.len(),
        forall|i: int|
            0 <= i < items_held(entries, file).len() ==> entries[i] == Ok::<AccountStorageItem, E>(
                #[trigger] items_held(entries, file)[i],
            ),
    decreases entries.len(),
{
    if entries.len() > 0 {
        if let Ok(item) = entries[0] {
            let rest = entries.drop_first();
            let left = file.skip(preimage(item).len() as int);
            lemma_held_are_entries(rest, left);
            let held = items_held(entries, file);
            assert forall|i: int| 0 <= i < held.len() implies entries[i] == Ok::<
                AccountStorageItem,
                E,
            >(#[trigger] held[i]) by {
                if i > 0 {
                    assert(held[i] == items_held(rest, left)[i - 1]);
                    assert(rest[i - 1] == entries[i]);
                }
            }
        }
    }
}

proof fn lemma_verify_from<E>(
    entries: Seq<Result<AccountStorageItem, E>>,
    file: Seq<u8>,
    result: Result<(), VerifyFailure<'_, E>>,
    starts: Seq<int>,
    count: int,
    from: int,
)
    requires
        0 <= from <= count <= entries.len(),
        starts.len() == entries.len() + 1,
        0 <= starts[from] <= file.len(),
        entries_verified(entries.skip(from), file.skip(starts[from]), result),
        forall|i: int|
            #![trigger entries[i]]
            0 <= i < entries.len() ==> match entries[i] {
                Ok(AccountStorageItem::Account(_)) => starts[i + 1] == starts[i] + 20,
                Ok(AccountStorageItem::StorageSlot(_, _)) => starts[i + 1] == starts[i] + 32,
                Err(_) => true,
            },
        forall|i: int|
            #![trigger entries[i]]
            0 <= i < count ==> match entries[i] {
                Ok(AccountStorageItem::Account(address)) => starts[i] + 20 <= file.len()
                    && file.subrange(starts[i], starts[i] + 20) == address@,
                Ok(AccountStorageItem::StorageSlot(_, slot)) => starts[i] + 32 <= file.len()
                    && file.subrange(starts[i], starts[i] + 32) == slot@,
                Err(_) => false,
            },
    ensures
        ({
            let held = items_held(entries.skip(from), file.skip(starts[from])).len();
            &&& 0 <= starts[count] <= file.len()
            &&& entries_verified(entries.skip(count), file.skip(starts[count]), result)
            &&& held == count - from + items_held(
                entries.skip(count),
                file.skip(starts[count]),
            ).len()
            &&& count < entries.len() ==> {
                let left = file.skip(starts[count]);
                &&& starts[count] + 20 <= file.len() ==> left.take(20) == file.subrange(
                    starts[count],
                    starts[count] + 20,
                )
                &&& starts[count] + 32 <= file.len() ==> left.take(32) == file.subrange(
                    starts[count],
                    starts[count] + 32,
                )
                &&& entries.skip(count)[0] == entries[count]
            }
            &&& count == entries.len() ==> entries.skip(count).len() == 0
        }),
    decreases count - from,
{
    let here = entries.skip(from);
    let left = file.skip(starts[from]);
    if from < count {
        assert(here[0] == entries[from]);
        assert(entries[from] is Ok);
        let item = entries[from]->Ok_0;
        let len = preimage(item).len() as int;
        assert(left.take(len) =~= file.subrange(starts[from], starts[from] + len));
        assert(here.drop_first() =~= entries.skip(from + 1));
        assert(left.skip(len) =~= file.skip(starts[from + 1]));
        lemma_verify_from(entries, file, result, starts, count, from + 1);
    } else if count < entries.len() {
        if starts[count] + 20 <= file.len() {
            assert(left.take(20) =~= file.subrange(starts[count], starts[count] + 20));
        }
        if starts[count] + 32 <= file.len() {
            assert(left.take(32) =~= file.subrange(starts[count], starts[count] + 32));
        }
    }
}

/// A file fits a listing exactly where no entry failed and the file holds the bytes of every
/// entry, all 20 of each address and all 32 of each slot, one behind the other.
pub proof fn law_verify_needs_every_byte<E>(
    entries: Seq<Result<AccountStorageItem, E>>,
    file: Seq<u8>,
    result: Result<(), VerifyFailure<'_, E>>,
    starts: Seq<int>,
)
    requires
        entries_verified(entries, file, result),
        starts.len() == entries.len() + 1,
        starts[0] == 0,
        forall|i: int|
            #![trigger entries[i]]
            0 <= i < entries.len() ==> match entries[i] {
                Ok(AccountStorageItem::Account(_)) => starts[i + 1] == starts[i] + 20,
                Ok(AccountStorageItem::StorageSlot(_, _)) => starts[i + 1] == starts[i] + 32,
                Err(_) => true,
            },
    ensures
        result is Ok <==> forall|i: int|
            #![trigger entries[i]]
            0 <= i < entries.len() ==> match entries[i] {
                Ok(AccountStorageItem::Account(address)) => starts[i] + 20 <= file.len()
                    && file.subrange(starts[i], starts[i] + 20) == address@,
                Ok(AccountStorageItem::StorageSlot(_, slot)) => starts[i] + 32 <= file.len()
                    && file.subrange(starts[i], starts[i] + 32) == slot@,
                Err(_) => false,
            },
        result is Ok ==> file.len() >= starts.last(),
{
    let fits = |i: int|
        match entries[i] {
            Ok(AccountStorageItem::Account(address)) => starts[i] + 20 <= file.len()
                && file.subrange(starts[i], starts[i] + 20) == address@,
            Ok(AccountStorageItem::StorageSlot(_, slot)) => starts[i] + 32 <= file.len()
                && file.subrange(starts[i], starts[i] + 32) == slot@,
            Err(_) => false,
        };
    let count = lemma_first_misfit(fits, entries.len() as int, 0);
    assert forall|i: int| #![trigger entries[i]] 0 <= i < count implies match entries[i] {
        Ok(AccountStorageItem::Account(address)) => starts[i] + 20 <= file.len() && file.subrange(
            starts[i],
            starts[i] + 20,
        ) == address@,
        Ok(AccountStorageItem::StorageSlot(_, slot)) => starts[i] + 32 <= file.len()
            && file.subrange(starts[i], starts[i] + 32) == slot@,
        Err(_) => false,
    } by {
        assert(fits(i));
    }
    law_verify_result(entries, file, result, starts, count);
    if count < entries.len() {
        assert(!fits(count));
        assert(result is Err);
        assert(entries[count] is Ok || entries[count] is Err);
    } else if count > 0 {
        assert(fits(count - 1));
        assert(entries[count - 1] is Ok);
    }
}

/// The first place that does not fit.
proof fn lemma_first_misfit(fits: spec_fn(int) -> bool, len: int, from: int) -> (count: int)
    requires
        0 <= from <= len,
        forall|i: int| 0 <= i < from ==> #[trigger] fits(i),
    ensures
        0 <= count <= len,
        forall|i: int| 0 <= i < count ==> #[trigger] fits(i),
        count < len ==> !fits(count),
    decreases len - from,
{
    if from < len && fits(from) {
        lemma_first_misfit(fits, len, from + 1)
    } else {
        from
    }
}

} // verus!
