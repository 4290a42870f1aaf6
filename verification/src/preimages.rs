//! Files of preimages: the addresses and storage slots of a listing, one behind the other.

use crate::bytes::{bytes_equal, lemma_same_bytes, Address, B256};
use crate::iterators::AccountStorageItem;
use crate::text::{address_text, checksum_digits, hex_digits, word_text};
use vstd::prelude::*;
use vstd::slice::slice_subrange;
use vstd::string::*;

verus! {

/// The bytes that stand for an item: its address, or its slot.
pub open spec fn preimage(item: AccountStorageItem) -> Seq<u8> {
    match item {
        AccountStorageItem::Account(address) => address@,
        AccountStorageItem::StorageSlot(_, slot) => slot@,
    }
}

/// The bytes that stand for some items, one behind the other.
pub open spec fn preimage_file(items: Seq<AccountStorageItem>) -> Seq<u8>
    decreases items.len(),
{
    if items.len() == 0 {
        Seq::empty()
    } else {
        preimage(items[0]) + preimage_file(items.drop_first())
    }
}

/// The items of a listing before its first failure.
pub open spec fn items_before_failure<E>(entries: Seq<Result<AccountStorageItem, E>>) -> Seq<
    AccountStorageItem,
>
    decreases entries.len(),
{
    if entries.len() == 0 {
        Seq::empty()
    } else {
        match entries[0] {
            Ok(item) => seq![item] + items_before_failure(entries.drop_first()),
            Err(_) => Seq::empty(),
        }
    }
}

/// The first failure of a listing.
pub open spec fn first_failure<E>(entries: Seq<Result<AccountStorageItem, E>>) -> Option<E>
    decreases entries.len(),
{
    if entries.len() == 0 {
        None
    } else {
        match entries[0] {
            Ok(_) => first_failure(entries.drop_first()),
            Err(e) => Some(e),
        }
    }
}

/// The account that an item starts, whose address is reported as progress.
pub open spec fn progress_of(item: AccountStorageItem) -> Option<Address> {
    match item {
        AccountStorageItem::Account(address) => Some(address),
        AccountStorageItem::StorageSlot(_, _) => None,
    }
}

/// The accounts among some items.
pub open spec fn accounts_in(items: Seq<AccountStorageItem>) -> Seq<Address>
    decreases items.len(),
{
    if items.len() == 0 {
        Seq::empty()
    } else {
        match items[0] {
            AccountStorageItem::Account(address) => seq![address] + accounts_in(items.drop_first()),
            AccountStorageItem::StorageSlot(_, _) => accounts_in(items.drop_first()),
        }
    }
}

/// What has to be written for an item.
pub struct Write {
    /// The account to report.
    pub progress: Option<Address>,
    /// The bytes to append to the file.
    pub bytes: Vec<u8>,
    /// What is being done, should it fail.
    pub context: &'static str,
}

/// Tells what has to be written for the next entry of a listing; a failure of the listing ends
/// the writing.
pub fn write_entry<E>(entry: Result<AccountStorageItem, E>) -> (write: Result<Write, E>)
    ensures
        match entry {
            Ok(item) => {
                &&& write matches Ok(write)
                &&& write.progress == progress_of(item)
                &&& write.bytes@ == preimage(item)
                &&& match item {
                    AccountStorageItem::Account(address) => write.progress == Some(address)
                        && write.bytes@ == address@,
                    AccountStorageItem::StorageSlot(_, slot) => write.progress == None::<Address>
                        && write.bytes@ == slot@,
                }
                &&& write.context@ == (if item is Account {
                    "writing address preimage"@
                } else {
                    "writing storage slot preimage"@
                })
            },
            Err(e) => write matches Err(failure) && failure == e,
        },
{
    match entry {
        Ok(AccountStorageItem::Account(address)) => Ok(
            Write {
                progress: Some(address),
                bytes: to_vec(&address),
                context: "writing address preimage",
            },
        ),
        Ok(AccountStorageItem::StorageSlot(_, slot)) => Ok(
            Write {
                progress: None,
                bytes: to_vec(&slot),
                context: "writing storage slot preimage",
            },
        ),
        Err(e) => Err(e),
    }
}

fn to_vec<const N: usize>(data: &[u8; N]) -> (bytes: Vec<u8>)
    ensures
        bytes@ == data@,
{
    let mut bytes: Vec<u8> = Vec::new();
    let mut i: usize = 0;
    while i < N
        invariant
            i <= N,
            bytes@ == data@.take(i as int),
        decreases N - i,
    {
        bytes.push(data[i]);
        i += 1;
        assert(bytes@ =~= data@.take(i as int));
    }
    assert(bytes@ =~= data@);
    bytes
}

/// What came of writing a file.
pub struct Generated<'a, E> {
    /// The accounts that were reported.
    pub progress: Vec<Address>,
    /// What was written.
    pub file: Vec<u8>,
    /// The failure of the listing that ended the writing.
    pub failure: Option<&'a E>,
}

/// Writes the file for a listing, up to its first failure.
pub fn generate<E>(entries: &[Result<AccountStorageItem, E>]) -> (generated: Generated<'_, E>)
    ensures
        generated.progress@ == accounts_in(items_before_failure(entries@)),
        generated.file@ == preimage_file(items_before_failure(entries@)),
        generated.failure == (match first_failure(entries@) {
            Some(e) => Some(&e),
            None => None,
        }),
{
    let mut progress: Vec<Address> = Vec::new();
    let mut file: Vec<u8> = Vec::new();
    let mut i: usize = 0;
    proof {
        assert(entries@.skip(0) =~= entries@);
        let items = items_before_failure(entries@);
        assert(progress@ + accounts_in(items) =~= accounts_in(items));
        assert(file@ + preimage_file(items) =~= preimage_file(items));
    }
    while i < entries.len()
        invariant
            i <= entries@.len(),
            progress@ + accounts_in(items_before_failure(entries@.skip(i as int))) == accounts_in(
                items_before_failure(entries@),
            ),
            file@ + preimage_file(items_before_failure(entries@.skip(i as int))) == preimage_file(
                items_before_failure(entries@),
            ),
            first_failure(entries@.skip(i as int)) == first_failure(entries@),
        decreases entries@.len() - i,
    {
        let ghost left = entries@.skip(i as int);
        assert(left[0] == entries@[i as int]);
        assert(left.drop_first() =~= entries@.skip(i + 1));
        let item = match &entries[i] {
            Ok(item) => *item,
            Err(e) => {
                assert(progress@ + Seq::empty() =~= progress@);
                assert(file@ + Seq::empty() =~= file@);
                return Generated { progress, file, failure: Some(e) };
            },
        };
        let ghost later = items_before_failure(left.drop_first());
        let ghost written = file@;
        let ghost reported = progress@;
        assert((seq![item] + later).drop_first() =~= later);
        match write_entry::<E>(Ok(item)) {
            Ok(write) => {
                let mut bytes = write.bytes;
                file.append(&mut bytes);
                match write.progress {
                    Some(address) => {
                        progress.push(address);
                        assert(progress@ + accounts_in(later) =~= reported + (seq![address]
                            + accounts_in(later)));
                    },
                    None => {},
                }
            },
            Err(_) => {},
        }
        assert(file@ + preimage_file(later) =~= written + (preimage(item) + preimage_file(later)));
        i += 1;
    }
    proof {
        assert(entries@.skip(i as int) =~= Seq::empty());
        assert(progress@ + Seq::empty() =~= progress@);
        assert(file@ + Seq::empty() =~= file@);
    }
    Generated { progress, file, failure: None }
}

/// What has to be read for an item.
pub struct Read {
    /// The account to report.
    pub progress: Option<Address>,
    /// How many bytes of the file stand for the item.
    pub len: usize,
    /// What is being done, should it fail.
    pub context: &'static str,
}

/// Tells what has to be read for the next entry of a listing; a failure of the listing ends the
/// reading.
pub fn read_entry<E>(entry: Result<AccountStorageItem, E>) -> (read: Result<
    (AccountStorageItem, Read),
    E,
>)
    ensures
        match entry {
            Ok(item) => {
                &&& read matches Ok((of, read))
                &&& of == item
                &&& read.progress == progress_of(item)
                &&& read.len == preimage(item).len()
                &&& read.context@ == reading(item)
                &&& match item {
                    AccountStorageItem::Account(address) => {
                        &&& read.progress == Some(address)
                        &&& read.len == 20
                        &&& read.context@ == "reading address preimage"@
                    },
                    AccountStorageItem::StorageSlot(_, _) => {
                        &&& read.progress == None::<Address>
                        &&& read.len == 32
                        &&& read.context@ == "reading storage slot preimage"@
                    },
                }
            },
            Err(e) => read matches Err(failure) && failure == e,
        },
{
    match entry {
        Ok(item) => {
            let read = match item {
                AccountStorageItem::Account(address) => Read {
                    progress: Some(address),
                    len: 20,
                    context: "reading address preimage",
                },
                AccountStorageItem::StorageSlot(_, _) => Read {
                    progress: None,
                    len: 32,
                    context: "reading storage slot preimage",
                },
            };
            Ok((item, read))
        },
        Err(e) => Err(e),
    }
}

/// What is being done when the bytes of an item are read.
pub open spec fn reading(item: AccountStorageItem) -> Seq<char> {
    if item is Account {
        "reading address preimage"@
    } else {
        "reading storage slot preimage"@
    }
}

/// Why a file does not fit a listing.
#[derive(Clone, Copy, Debug, PartialEq, Eq)]
pub enum VerifyError {
    /// The file ends before the bytes of an address do.
    AddressUnread,
    /// The file ends before the bytes of a slot do.
    StorageSlotUnread,
    /// The file holds this address where the listing has another.
    AddressMismatch(Address),
    /// The listing has this slot of this account where the file holds another.
    StorageSlotMismatch(B256, Address),
}

impl VerifyError {
    /// The text of the error.
    pub open spec fn text(self) -> Seq<char> {
        match self {
            VerifyError::AddressUnread => "reading address preimage"@,
            VerifyError::StorageSlotUnread => "reading storage slot preimage"@,
            VerifyError::AddressMismatch(found) => "Address "@ + (seq!['0', 'x'] + checksum_digits(
                found@,
            )) + " preimage mismatch"@,
            VerifyError::StorageSlotMismatch(slot, address) => "Storage slot "@ + (seq!['0', 'x']
                + hex_digits(slot@)) + " preimage (address: "@ + (seq!['0', 'x']
                + checksum_digits(address@)) + ") mistmatch"@,
        }
    }

    /// Writes the error as text.
    pub fn message(&self) -> (message: String)
        ensures
            message@ == self.text(),
            match *self {
                VerifyError::AddressUnread => message@ == "reading address preimage"@,
                VerifyError::StorageSlotUnread => message@ == "reading storage slot preimage"@,
                VerifyError::AddressMismatch(found) => message@ == "Address "@ + (seq!['0', 'x']
                    + checksum_digits(found@)) + " preimage mismatch"@,
                VerifyError::StorageSlotMismatch(slot, address) => message@ == "Storage slot "@ + (
                seq!['0', 'x'] + hex_digits(slot@)) + " preimage (address: "@ + (seq!['0', 'x']
                    + checksum_digits(address@)) + ") mistmatch"@,
            },
    {
        match self {
            VerifyError::AddressUnread => "reading address preimage".to_owned(),
            VerifyError::StorageSlotUnread => "reading storage slot preimage".to_owned(),
            VerifyError::AddressMismatch(found) => "Address ".to_owned().concat(
                address_text(found).as_str(),
            ).concat(" preimage mismatch"),
            VerifyError::StorageSlotMismatch(slot, address) => "Storage slot ".to_owned().concat(
                word_text(slot).as_str(),
            ).concat(" preimage (address: ").concat(address_text(address).as_str()).concat(
                ") mistmatch",
            ),
        }
    }
}

/// What comes of holding an item against the bytes that are left of the file.
pub open spec fn item_verified(
    item: AccountStorageItem,
    left: Seq<u8>,
    result: Result<(), VerifyError>,
) -> bool {
    if left.len() < preimage(item).len() {
        result == Err::<(), _>(
            if item is Account {
                VerifyError::AddressUnread
            } else {
                VerifyError::StorageSlotUnread
            },
        )
    } else if left.take(preimage(item).len() as int) == preimage(item) {
        result is Ok
    } else {
        match item {
            AccountStorageItem::Account(_) => {
                &&& result matches Err(VerifyError::AddressMismatch(found))
                &&& found@ == left.take(20)
            },
            AccountStorageItem::StorageSlot(address, slot) => result == Err::<(), _>(
                VerifyError::StorageSlotMismatch(slot, address),
            ),
        }
    }
}

/// Holds an item against the bytes that are left of the file.
pub fn verify_item(item: &AccountStorageItem, left: &[u8]) -> (result: Result<(), VerifyError>)
    ensures
        item_verified(*item, left@, result),
        match *item {
            AccountStorageItem::Account(address) => {
                &&& left@.len() < 20 <==> result == Err::<(), _>(VerifyError::AddressUnread)
                &&& left@.len() >= 20 && left@.take(20) == address@ <==> result is Ok
                &&& left@.len() >= 20 && left@.take(20) != address@ ==> {
                    &&& result matches Err(VerifyError::AddressMismatch(found))
                    &&& found@ == left@.take(20)
                }
            },
            AccountStorageItem::StorageSlot(address, slot) => {
                &&& left@.len() < 32 <==> result == Err::<(), _>(VerifyError::StorageSlotUnread)
                &&& left@.len() >= 32 && left@.take(32) == slot@ <==> result is Ok
                &&& left@.len() >= 32 && left@.take(32) != slot@ ==> result == Err::<(), _>(
                    VerifyError::StorageSlotMismatch(slot, address),
                )
            },
        },
{
    match item {
        AccountStorageItem::Account(address) => {
            if left.len() < 20 {
                return Err(VerifyError::AddressUnread);
            }
            let found: Address = first_bytes(left);
            if bytes_equal(&found, address) {
                Ok(())
            } else {
                proof {
                    lemma_same_bytes(found, *address);
                }
                Err(VerifyError::AddressMismatch(found))
            }
        },
        AccountStorageItem::StorageSlot(address, slot) => {
            if left.len() < 32 {
                return Err(VerifyError::StorageSlotUnread);
            }
            let found: B256 = first_bytes(left);
            if bytes_equal(&found, slot) {
                Ok(())
            } else {
                proof {
                    lemma_same_bytes(found, *slot);
                }
                Err(VerifyError::StorageSlotMismatch(*slot, *address))
            }
        },
    }
}

/// The first bytes of a slice.
fn first_bytes<const N: usize>(data: &[u8]) -> (bytes: [u8; N])
    requires
        data@.len() >= N,
    ensures
        bytes@ == data@.take(N as int),
{
    let mut bytes: [u8; N] = [0u8; N];
    let mut i: usize = 0;
    while i < N
        invariant
            i <= N <= data@.len(),
            forall|j: int| 0 <= j < i ==> bytes@[j] == data@[j],
        decreases N - i,
    {
        bytes[i] = data[i];
        i += 1;
    }
    assert(bytes@ =~= data@.take(N as int));
    bytes
}

/// Why a file could not be held against a listing, or does not fit it.
pub enum VerifyFailure<'a, E> {
    /// The listing failed.
    Listing(&'a E),
    /// The file does not fit.
    File(VerifyError),
}

/// What comes of holding the entries of a listing against the bytes that are left of the file:
/// the first entry that failed, or whose bytes are not there, decides.
pub open spec fn entries_verified<E>(
    entries: Seq<Result<AccountStorageItem, E>>,
    left: Seq<u8>,
    result: Result<(), VerifyFailure<'_, E>>,
) -> bool
    decreases entries.len(),
{
    if entries.len() == 0 {
        result is Ok
    } else {
        match entries[0] {
            Err(e) => result == Err::<(), _>(VerifyFailure::Listing(&e)),
            Ok(item) => if item_verified(item, left, Ok(())) {
                entries_verified(
                    entries.drop_first(),
                    left.skip(preimage(item).len() as int),
                    result,
                )
            } else {
                &&& result matches Err(VerifyFailure::File(error))
                &&& item_verified(item, left, Err(error))
            },
        }
    }
}

/// The items that are held against the file: all up to the first failure of the listing, or up to
/// and with the first one whose bytes are not there.
pub open spec fn items_held<E>(
    entries: Seq<Result<AccountStorageItem, E>>,
    left: Seq<u8>,
) -> Seq<AccountStorageItem>
    decreases entries.len(),
{
    if entries.len() == 0 {
        Seq::empty()
    } else {
        match entries[0] {
            Err(_) => Seq::empty(),
            Ok(item) => if item_verified(item, left, Ok(())) {
                seq![item] + items_held(
                    entries.drop_first(),
                    left.skip(preimage(item).len() as int),
                )
            } else {
                seq![item]
            },
        }
    }
}

/// What came of holding a file against a listing.
pub struct Verified<'a, E> {
    /// The accounts that were reported.
    pub progress: Vec<Address>,
    /// Whether the file fits.
    pub result: Result<(), VerifyFailure<'a, E>>,
}

/// Holds a file against a listing.
pub fn verify<'a, E>(entries: &'a [Result<AccountStorageItem, E>], file: &[u8]) -> (verified:
    Verified<'a, E>)
    ensures
        verified.progress@ == accounts_in(items_held(entries@, file@)),
        entries_verified(entries@, file@, verified.result),
{
    let mut progress: Vec<Address> = Vec::new();
    let mut i: usize = 0;
    let mut at: usize = 0;
    proof {
        assert(entries@.skip(0) =~= entries@);
        assert(file@.skip(0) =~= file@);
        let held = items_held(entries@, file@);
        assert(progress@ + accounts_in(held) =~= accounts_in(held));
    }
    while i < entries.len()
        invariant
            i <= entries@.len(),
            at <= file@.len(),
            progress@ + accounts_in(items_held(entries@.skip(i as int), file@.skip(at as int)))
                == accounts_in(items_held(entries@, file@)),
            forall|result: Result<(), VerifyFailure<'a, E>>|
                entries_verified(entries@.skip(i as int), file@.skip(at as int), result)
                    ==> #[trigger] entries_verified(entries@, file@, result),
        decreases entries@.len() - i,
    {
        let ghost left = entries@.skip(i as int);
        assert(left[0] == entries@[i as int]);
        assert(left.drop_first() =~= entries@.skip(i + 1));
        let ghost reported = progress@;
        let item = match &entries[i] {
            Ok(item) => item,
            Err(e) => {
                assert(progress@ + Seq::empty() =~= progress@);
                return Verified { progress, result: Err(VerifyFailure::Listing(e)) };
            },
        };
        let bytes = slice_subrange(file, at, file.len());
        assert(bytes@ =~= file@.skip(at as int));
        if let Ok((_, read)) = read_entry::<E>(Ok(*item)) {
            match read.progress {
                Some(address) => {
                    progress.push(address);
                },
                None => {},
            }
            let ghost later = items_held(left.drop_first(), bytes@.skip(read.len as int));
            proof {
                assert((seq![*item] + later).drop_first() =~= later);
                assert(seq![*item].drop_first() =~= Seq::<AccountStorageItem>::empty());
                assert(accounts_in(Seq::<AccountStorageItem>::empty()) =~= Seq::<Address>::empty());
                assert(progress@ + accounts_in(later) =~= reported + accounts_in(
                    seq![*item] + later,
                ));
                assert(progress@ =~= reported + accounts_in(seq![*item]));
            }
            if let Err(error) = verify_item(item, bytes) {
                return Verified { progress, result: Err(VerifyFailure::File(error)) };
            }
            assert(file@.skip(at + read.len) =~= bytes@.skip(read.len as int));
            at += read.len;
        }
        i += 1;
    }
    proof {
        assert(entries@.skip(i as int) =~= Seq::empty());
        assert(progress@ + Seq::empty() =~= progress@);
    }
    Verified { progress, result: Ok(()) }
}

/// A file holds 20 bytes for each account and 32 for each slot.
pub proof fn law_file_length(items: Seq<AccountStorageItem>)
    ensures
        accounts_in(items).len() <= items.len(),
        preimage_file(items).len() == 20 * accounts_in(items).len() + 32 * (items.len()
            - accounts_in(items).len()),
    decreases items.len(),
{
    if items.len() > 0 {
        law_file_length(items.drop_first());
    }
}

/// The file of two listings one behind the other is their files one behind the other.
pub proof fn law_files_join(a: Seq<AccountStorageItem>, b: Seq<AccountStorageItem>)
    ensures
        preimage_file(a + b) == preimage_file(a) + preimage_file(b),
    decreases a.len(),
{
    if a.len() == 0 {
        assert(a + b =~= b);
        assert(preimage_file(a) + preimage_file(b) =~= preimage_file(b));
    } else {
        law_files_join(a.drop_first(), b);
        assert((a + b).drop_first() =~= a.drop_first() + b);
        assert(preimage_file(a + b) =~= preimage_file(a) + preimage_file(b));
    }
}

/// The file of a listing is as long as that of any other order of its items.
pub proof fn law_file_length_ignores_order(
    a: Seq<AccountStorageItem>,
    b: Seq<AccountStorageItem>,
)
    requires
        a.to_multiset() == b.to_multiset(),
    ensures
        preimage_file(a).len() == preimage_file(b).len(),
    decreases a.len(),
{
    broadcast use vstd::multiset::group_multiset_axioms;
    broadcast use vstd::seq_lib::group_to_multiset_ensures;

    assert(a.len() == b.len()) by {
        a.to_multiset_ensures();
        b.to_multiset_ensures();
    }
    if a.len() > 0 {
        let first = a[0];
        assert(a.contains(first));
        assert(a.to_multiset().count(first) > 0);
        assert(b.contains(first));
        let i = choose|i: int| 0 <= i < b.len() && b[i] == first;
        assert(a.drop_first() =~= a.remove(0));
        assert(a.drop_first().to_multiset() =~= b.remove(i).to_multiset());
        law_file_length_ignores_order(a.drop_first(), b.remove(i));
        lemma_file_remove(b, i);
    }
}

proof fn lemma_file_remove(items: Seq<AccountStorageItem>, i: int)
    requires
        0 <= i < items.len(),
    ensures
        preimage_file(items).len() == preimage(items[i]).len() + preimage_file(
            items.remove(i),
        ).len(),
    decreases items.len(),
{
    if i == 0 {
        assert(items.remove(0) =~= items.drop_first());
    } else {
        lemma_file_remove(items.drop_first(), i - 1);
        assert(items.remove(i).drop_first() =~= items.drop_first().remove(i - 1));
    }
}

/// A file fits a listing exactly where the listing does not fail and the file starts with the
/// bytes of its items; what follows them does not matter.
pub proof fn law_verify_accepts_prefix<E>(
    entries: Seq<Result<AccountStorageItem, E>>,
    file: Seq<u8>,
    result: Result<(), VerifyFailure<'_, E>>,
)
    requires
        entries_verified(entries, file, result),
    ensures
        result is Ok <==> first_failure(entries) is None && preimage_file(
            items_before_failure(entries),
        ).is_prefix_of(file),
    decreases entries.len(),
{
    let items = items_before_failure(entries);
    if entries.len() == 0 {
        assert(preimage_file(items).is_prefix_of(file));
    } else if let Ok(item) = entries[0] {
        let rest = entries.drop_first();
        let later = items_before_failure(rest);
        let len = preimage(item).len() as int;
        assert(items.drop_first() =~= later);
        let tail = preimage_file(later);
        if item_verified(item, file, Ok(())) {
            law_verify_accepts_prefix(rest, file.skip(len), result);
            if tail.is_prefix_of(file.skip(len)) {
                assert forall|k: int| 0 <= k < preimage_file(items).len() implies #[trigger]
                    preimage_file(items)[k] == file[k] by {
                    if k < len {
                        assert(file.take(len)[k] == preimage(item)[k]);
                    } else {
                        assert(tail[k - len] == file.skip(len)[k - len]);
                    }
                }
                assert(preimage_file(items) =~= file.subrange(0, preimage_file(items).len() as int));
            }
            if preimage_file(items).is_prefix_of(file) {
                assert forall|k: int| 0 <= k < tail.len() implies #[trigger] tail[k] == file.skip(
                    len,
                )[k] by {
                    assert(preimage_file(items)[k + len] == file[k + len]);
                }
                assert(tail =~= file.skip(len).subrange(0, tail.len() as int));
            }
        } else if preimage_file(items).is_prefix_of(file) {
            assert forall|k: int| 0 <= k < len implies #[trigger] file.take(len)[k] == preimage(
                item,
            )[k] by {
                assert(preimage_file(items)[k] == file[k]);
            }
            assert(file.take(len) =~= preimage(item));
        }
    }
}

/// A file that was written for a listing fits this listing, also when more follows it.
pub proof fn law_verify_accepts_generated<E>(
    entries: Seq<Result<AccountStorageItem, E>>,
    more: Seq<u8>,
    result: Result<(), VerifyFailure<'_, E>>,
)
    requires
        first_failure(entries) is None,
        entries_verified(entries, preimage_file(items_before_failure(entries)) + more, result),
    ensures
        result is Ok,
{
    let file = preimage_file(items_before_failure(entries));
    assert(file =~= (file + more).subrange(0, file.len() as int));
    law_verify_accepts_prefix(entries, file + more, result);
}

} // verus!
