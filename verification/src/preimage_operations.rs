//! What the operations on preimage files return, said of their arguments and results directly.

use crate::iterators::listing::lemma_filter_first;
use crate::iterators::AccountStorageItem;
use crate::preimage_laws::{
    law_file_holds_every_item, law_items_are_the_entries, law_progress_is_the_accounts,
    law_verify_result,
};
use crate::preimages::{
    accounts_in, entries_verified, generate, items_before_failure, items_held,
    law_verify_accepts_generated, preimage, read_entry, verify, verify_item, write_entry, Generated,
    Read, Verified, VerifyError, VerifyFailure, Write,
};
use crate::text::{checksum_digits, hex_digits};
use vstd::prelude::*;

verus! {

/// What is picked among items is picked among the entries that they are.
proof fn lemma_picked_entries<E>(
    items: Seq<AccountStorageItem>,
    entries: Seq<Result<AccountStorageItem, E>>,
    pick_item: spec_fn(AccountStorageItem) -> bool,
    pick: spec_fn(Result<AccountStorageItem, E>) -> bool,
)
    requires
        entries.len() == items.len(),
        forall|i: int|
            0 <= i < items.len() ==> entries[i] == Ok::<AccountStorageItem, E>(
                #[trigger] items[i],
            ),
        forall|item: AccountStorageItem| #[trigger]
            pick_item(item) == pick(Ok::<AccountStorageItem, E>(item)),
    ensures
        items.filter(pick_item).len() == entries.filter(pick).len(),
        forall|i: int|
            0 <= i < items.filter(pick_item).len() ==> entries.filter(pick)[i] == Ok::<
                AccountStorageItem,
                E,
            >(#[trigger] items.filter(pick_item)[i]),
    decreases items.len(),
{
    if items.len() == 0 {
        reveal(Seq::filter);
    } else {
        let (rest, later) = (items.drop_first(), entries.drop_first());
        assert(entries[0] == Ok::<AccountStorageItem, E>(items[0]));
        assert forall|i: int| 0 <= i < rest.len() implies later[i] == Ok::<AccountStorageItem, E>(
            #[trigger] rest[i],
        ) by {
            assert(rest[i] == items[i + 1]);
        }
        lemma_picked_entries(rest, later, pick_item, pick);
        lemma_filter_first(items, pick_item);
        lemma_filter_first(entries, pick);
        assert(pick_item(items[0]) == pick(entries[0]));
        assert forall|i: int| 0 <= i < items.filter(pick_item).len() implies entries.filter(pick)[i]
            == Ok::<AccountStorageItem, E>(#[trigger] items.filter(pick_item)[i]) by {
            if pick_item(items[0]) {
                if i > 0 {
                    assert(items.filter(pick_item)[i] == rest.filter(pick_item)[i - 1]);
                }
            } else {
                assert(items.filter(pick_item)[i] == rest.filter(pick_item)[i]);
            }
        }
    }
}

/// The accounts among some items are the account entries that the items are.
pub proof fn lemma_accounts_among_entries<E>(
    items: Seq<AccountStorageItem>,
    entries: Seq<Result<AccountStorageItem, E>>,
    is_account: spec_fn(Result<AccountStorageItem, E>) -> bool,
)
    requires
        entries.len() == items.len(),
        forall|i: int|
            0 <= i < items.len() ==> entries[i] == Ok::<AccountStorageItem, E>(
                #[trigger] items[i],
            ),
        forall|entry: Result<AccountStorageItem, E>| #[trigger]
            is_account(entry) == (entry matches Ok(AccountStorageItem::Account(_))),
    ensures
        accounts_in(items).len() == entries.filter(is_account).len(),
        forall|i: int|
            0 <= i < entries.filter(is_account).len() ==> #[trigger] entries.filter(is_account)[i]
                == Ok::<AccountStorageItem, E>(AccountStorageItem::Account(accounts_in(items)[i])),
{
    let is_account_item = |item: AccountStorageItem| item is Account;
    law_progress_is_the_accounts(items, is_account_item);
    lemma_picked_entries(items, entries, is_account_item, is_account);
    assert forall|i: int| 0 <= i < entries.filter(is_account).len() implies #[trigger]
        entries.filter(is_account)[i] == Ok::<AccountStorageItem, E>(
        AccountStorageItem::Account(accounts_in(items)[i]),
    ) by {
        assert(items.filter(is_account_item)[i] == AccountStorageItem::Account(
            accounts_in(items)[i],
        ));
    }
}

/// For an account all bytes of its address are written, and the address is reported; for a slot
/// all bytes of its key, and nothing is reported. A failure is handed on.
pub proof fn law_entries_are_written_whole<E>(
    entry: Result<AccountStorageItem, E>,
    written: Result<Write, E>,
)
    requires
        call_ensures(write_entry::<E>, (entry,), written),
    ensures
        match entry {
            Ok(AccountStorageItem::Account(address)) => {
                &&& written matches Ok(write)
                &&& write.bytes@ == address@
                &&& write.progress == Some(address)
                &&& write.context@ == "writing address preimage"@
            },
            Ok(AccountStorageItem::StorageSlot(_, slot)) => {
                &&& written matches Ok(write)
                &&& write.bytes@ == slot@
                &&& write.progress is None
                &&& write.context@ == "writing storage slot preimage"@
            },
            Err(e) => written matches Err(failure) && failure == e,
        },
{
}

/// For an account 20 bytes are read, and its address is reported; for a slot 32 bytes, and nothing
/// is reported. A failure is handed on.
pub proof fn law_entries_are_read_whole<E>(
    entry: Result<AccountStorageItem, E>,
    read: Result<(AccountStorageItem, Read), E>,
)
    requires
        call_ensures(read_entry::<E>, (entry,), read),
    ensures
        match entry {
            Ok(AccountStorageItem::Account(address)) => {
                &&& read matches Ok((item, read))
                &&& item == AccountStorageItem::Account(address)
                &&& read.len == 20
                &&& read.progress == Some(address)
                &&& read.context@ == "reading address preimage"@
            },
            Ok(AccountStorageItem::StorageSlot(address, slot)) => {
                &&& read matches Ok((item, read))
                &&& item == AccountStorageItem::StorageSlot(address, slot)
                &&& read.len == 32
                &&& read.progress is None
                &&& read.context@ == "reading storage slot preimage"@
            },
            Err(e) => read matches Err(failure) && failure == e,
        },
{
}

/// What is written for an item, whatever follows it, fits the item; and what fits an item starts
/// with what is written for it.
pub proof fn law_item_fits_what_is_written<E>(
    item: AccountStorageItem,
    left: &[u8],
    written: Write,
    result: Result<(), VerifyError>,
)
    requires
        call_ensures(write_entry::<E>, (Ok::<AccountStorageItem, E>(item),), Ok::<Write, E>(written)),
        call_ensures(verify_item, (&item, left), result),
    ensures
        result is Ok <==> written.bytes@.is_prefix_of(left@),
        result == Err::<(), VerifyError>(VerifyError::AddressUnread) <==> item is Account
            && left@.len() < 20,
        result == Err::<(), VerifyError>(VerifyError::StorageSlotUnread) <==> item is StorageSlot
            && left@.len() < 32,
        result matches Err(VerifyError::AddressMismatch(found)) ==> {
            &&& item is Account
            &&& forall|k: int| 0 <= k < 20 ==> #[trigger] found@[k] == left@[k]
        },
        result matches Err(VerifyError::StorageSlotMismatch(slot, address)) ==> item
            == AccountStorageItem::StorageSlot(address, slot),
{
    let bytes = written.bytes@;
    if bytes.is_prefix_of(left@) {
        assert(left@.take(bytes.len() as int) =~= bytes);
    }
    if left@.len() >= bytes.len() && left@.take(bytes.len() as int) == bytes {
        assert forall|k: int| 0 <= k < bytes.len() implies bytes[k] == left@[k] by {
            assert(left@.take(bytes.len() as int)[k] == left@[k]);
        }
        assert(bytes =~= left@.subrange(0, bytes.len() as int));
    }
}

/// What is told of a file that does not fit: what was being read where the file ended; the address
/// that it holds, with its checksum; or the slot that it should hold and the account of the slot,
/// with its checksum.
pub proof fn law_misfits_are_told(error: &VerifyError, message: String)
    requires
        call_ensures(VerifyError::message, (error,), message),
    ensures
        match *error {
            VerifyError::AddressUnread => message@ == "reading address preimage"@,
            VerifyError::StorageSlotUnread => message@ == "reading storage slot preimage"@,
            VerifyError::AddressMismatch(found) => message@ == "Address "@ + seq!['0', 'x']
                + checksum_digits(found@) + " preimage mismatch"@,
            VerifyError::StorageSlotMismatch(slot, address) => message@ == "Storage slot "@
                + seq!['0', 'x'] + hex_digits(slot@) + " preimage (address: "@ + seq!['0', 'x']
                + checksum_digits(address@) + ") mistmatch"@,
        },
{
    match *error {
        VerifyError::AddressMismatch(found) => {
            assert(message@ =~= "Address "@ + seq!['0', 'x'] + checksum_digits(found@)
                + " preimage mismatch"@);
        },
        VerifyError::StorageSlotMismatch(slot, address) => {
            assert(message@ =~= "Storage slot "@ + seq!['0', 'x'] + hex_digits(slot@)
                + " preimage (address: "@ + seq!['0', 'x'] + checksum_digits(address@)
                + ") mistmatch"@);
        },
        _ => {},
    }
}

/// The file that is written for a listing of which the first `count` entries did not fail, and the
/// next one did or there is none, holds the bytes of each of these entries where it starts, and
/// nothing else. The accounts among them are reported, in their order, and the failure is handed
/// out.
pub proof fn law_generate_writes_the_entries<E>(
    entries: &[Result<AccountStorageItem, E>],
    generated: Generated<'_, E>,
    count: int,
    starts: Seq<int>,
    is_account: spec_fn(Result<AccountStorageItem, E>) -> bool,
)
    requires
        call_ensures(generate::<E>, (entries,), generated),
        0 <= count <= entries@.len(),
        forall|i: int| 0 <= i < count ==> #[trigger] entries@[i] is Ok,
        count < entries@.len() ==> entries@[count] is Err,
        starts.len() == count + 1,
        starts[0] == 0,
        forall|i: int|
            #![trigger entries@[i]]
            0 <= i < count ==> match entries@[i] {
                Ok(AccountStorageItem::Account(_)) => starts[i + 1] == starts[i] + 20,
                Ok(AccountStorageItem::StorageSlot(_, _)) => starts[i + 1] == starts[i] + 32,
                Err(_) => true,
            },
        forall|entry: Result<AccountStorageItem, E>| #[trigger]
            is_account(entry) == (entry matches Ok(AccountStorageItem::Account(_))),
    ensures
        generated.file@.len() == starts.last(),
        forall|i: int|
            #![trigger entries@[i]]
            0 <= i < count ==> match entries@[i] {
                Ok(AccountStorageItem::Account(address)) => generated.file@.subrange(
                    starts[i],
                    starts[i] + 20,
                ) == address@,
                Ok(AccountStorageItem::StorageSlot(_, slot)) => generated.file@.subrange(
                    starts[i],
                    starts[i] + 32,
                ) == slot@,
                Err(_) => true,
            },
        generated.progress@.len() == entries@.take(count).filter(is_account).len(),
        forall|i: int|
            0 <= i < generated.progress@.len() ==> entries@.take(count).filter(is_account)[i]
                == Ok::<AccountStorageItem, E>(
                AccountStorageItem::Account(#[trigger] generated.progress@[i]),
            ),
        count == entries@.len() ==> generated.failure is None,
        count < entries@.len() ==> (generated.failure matches Some(e) && entries@[count] == Err::<
            AccountStorageItem,
            E,
        >(*e)),
{
    let items = items_before_failure(entries@);
    let first = entries@.take(count);
    law_items_are_the_entries(entries@, count);
    assert forall|i: int|
        #![trigger items[i]]
        0 <= i < items.len() implies starts[i + 1] == starts[i] + (if items[i] is Account {
        20int
    } else {
        32int
    }) by {
        assert(entries@[i] == Ok::<AccountStorageItem, E>(items[i]));
    }
    law_file_holds_every_item(items, starts);
    assert forall|i: int| #![trigger entries@[i]] 0 <= i < count implies match entries@[i] {
        Ok(AccountStorageItem::Account(address)) => generated.file@.subrange(
            starts[i],
            starts[i] + 20,
        ) == address@,
        Ok(AccountStorageItem::StorageSlot(_, slot)) => generated.file@.subrange(
            starts[i],
            starts[i] + 32,
        ) == slot@,
        Err(_) => true,
    } by {
        assert(entries@[i] == Ok::<AccountStorageItem, E>(items[i]));
    }
    lemma_accounts_among_entries(items, first, is_account);
    assert forall|i: int| 0 <= i < generated.progress@.len() implies first.filter(is_account)[i]
        == Ok::<AccountStorageItem, E>(
        AccountStorageItem::Account(#[trigger] generated.progress@[i]),
    ) by {
        assert(generated.progress@[i] == accounts_in(items)[i]);
    }
}

/// How a file is held against a listing of which the first `count` entries fit the file, each with
/// its bytes where it starts, and the next one does not, or there is none. Without a next entry the
/// file fits. A next entry that failed is told; else the file ends before its bytes do, or holds
/// other bytes there, and that is told with the address that the file holds, or with the slot that
/// it should hold. The accounts among the entries up to this one are reported, in their order.
pub proof fn law_verify_tells_the_first_misfit<'a, E>(
    entries: &'a [Result<AccountStorageItem, E>],
    file: &[u8],
    verified: Verified<'a, E>,
    starts: Seq<int>,
    count: int,
    held: int,
    is_account: spec_fn(Result<AccountStorageItem, E>) -> bool,
)
    requires
        call_ensures(verify::<E>, (entries, file), verified),
        starts.len() == entries@.len() + 1,
        starts[0] == 0,
        forall|i: int|
            #![trigger entries@[i]]
            0 <= i < entries@.len() ==> match entries@[i] {
                Ok(AccountStorageItem::Account(_)) => starts[i + 1] == starts[i] + 20,
                Ok(AccountStorageItem::StorageSlot(_, _)) => starts[i + 1] == starts[i] + 32,
                Err(_) => true,
            },
        0 <= count <= entries@.len(),
        forall|i: int|
            #![trigger entries@[i]]
            0 <= i < count ==> match entries@[i] {
                Ok(AccountStorageItem::Account(address)) => starts[i] + 20 <= file@.len()
                    && file@.subrange(starts[i], starts[i] + 20) == address@,
                Ok(AccountStorageItem::StorageSlot(_, slot)) => starts[i] + 32 <= file@.len()
                    && file@.subrange(starts[i], starts[i] + 32) == slot@,
                Err(_) => false,
            },
        count < entries@.len() ==> match entries@[count] {
            Ok(AccountStorageItem::Account(address)) => starts[count] + 20 > file@.len()
                || file@.subrange(starts[count], starts[count] + 20) != address@,
            Ok(AccountStorageItem::StorageSlot(_, slot)) => starts[count] + 32 > file@.len()
                || file@.subrange(starts[count], starts[count] + 32) != slot@,
            Err(_) => true,
        },
        held == (if count < entries@.len() && entries@[count] is Ok {
            count + 1
        } else {
            count
        }),
        forall|entry: Result<AccountStorageItem, E>| #[trigger]
            is_account(entry) == (entry matches Ok(AccountStorageItem::Account(_))),
    ensures
        count == entries@.len() ==> verified.result is Ok,
        count < entries@.len() ==> match entries@[count] {
            Err(e) => verified.result matches Err(VerifyFailure::Listing(failure)) && *failure == e,
            Ok(AccountStorageItem::Account(address)) => if file@.len() < starts[count] + 20 {
                verified.result matches Err(VerifyFailure::File(VerifyError::AddressUnread))
            } else {
                &&& verified.result matches Err(
                    VerifyFailure::File(VerifyError::AddressMismatch(found)),
                )
                &&& found@ == file@.subrange(starts[count], starts[count] + 20)
            },
            Ok(AccountStorageItem::StorageSlot(address, slot)) => if file@.len() < starts[count]
                + 32 {
                verified.result matches Err(VerifyFailure::File(VerifyError::StorageSlotUnread))
            } else {
                &&& verified.result matches Err(
                    VerifyFailure::File(VerifyError::StorageSlotMismatch(told, of)),
                )
                &&& told == slot
                &&& of == address
            },
        },
        verified.progress@.len() == entries@.take(held).filter(is_account).len(),
        forall|i: int|
            0 <= i < verified.progress@.len() ==> entries@.take(held).filter(is_account)[i]
                == Ok::<AccountStorageItem, E>(
                AccountStorageItem::Account(#[trigger] verified.progress@[i]),
            ),
{
    let items = items_held(entries@, file@);
    law_verify_result(entries@, file@, verified.result, starts, count);
    let first = entries@.take(held);
    assert(items.len() == held);
    lemma_accounts_among_entries(items, first, is_account);
    assert forall|i: int| 0 <= i < verified.progress@.len() implies first.filter(is_account)[i]
        == Ok::<AccountStorageItem, E>(
        AccountStorageItem::Account(#[trigger] verified.progress@[i]),
    ) by {
        assert(verified.progress@[i] == accounts_in(items)[i]);
    }
}

/// The file that was written for a listing without a failure fits the listing, whatever follows it,
/// and the same accounts are reported.
pub proof fn law_generated_file_is_verified<'a, E>(
    entries: &'a [Result<AccountStorageItem, E>],
    generated: Generated<'a, E>,
    file: &[u8],
    verified: Verified<'a, E>,
)
    requires
        call_ensures(generate::<E>, (entries,), generated),
        generated.failure is None,
        generated.file@.is_prefix_of(file@),
        call_ensures(verify::<E>, (entries, file), verified),
    ensures
        verified.result is Ok,
        verified.progress@ == generated.progress@,
{
    let more = file@.skip(generated.file@.len() as int);
    assert(file@ =~= generated.file@ + more) by {
        assert forall|k: int| 0 <= k < generated.file@.len() implies file@[k]
            == generated.file@[k] by {
            assert(generated.file@ == file@.subrange(0, generated.file@.len() as int));
        }
    }
    law_verify_accepts_generated(entries@, more, verified.result);
    lemma_all_held(entries@, file@, verified.result);
}

/// Where a file fits, all items are held against it.
proof fn lemma_all_held<E>(
    entries: Seq<Result<AccountStorageItem, E>>,
    file: Seq<u8>,
    result: Result<(), VerifyFailure<'_, E>>,
)
    requires
        entries_verified(entries, file, result),
        result is Ok,
    ensures
        items_held(entries, file) == items_before_failure(entries),
    decreases entries.len(),
{
    if entries.len() > 0 {
        if let Ok(item) = entries[0] {
            lemma_all_held(
                entries.drop_first(),
                file.skip(preimage(item).len() as int),
                result,
            );
        }
    }
}

} // verus!
