use state_preimages::bytes::{Address, B256};
use state_preimages::iterators::AccountStorageItem;
use state_preimages::iterators::AccountStorageItem::{Account, StorageSlot};
use state_preimages::preimages::{
    generate, read_entry, verify, verify_item, write_entry, VerifyError, VerifyFailure,
};

type Entry = Result<AccountStorageItem, &'static str>;

fn bytes<const N: usize>(text: &str) -> [u8; N] {
    alloy_primitives::hex::decode_to_array(text).unwrap()
}

const FIRST: Address = [0x11; 20];
const SECOND: Address = [0x22; 20];
const SLOT: B256 = [0xab; 32];

fn listing() -> Vec<Entry> {
    vec![
        Ok(Account(FIRST)),
        Ok(StorageSlot(FIRST, SLOT)),
        Ok(Account(SECOND)),
    ]
}

#[test]
fn a_file_holds_addresses_and_slots_one_behind_the_other() {
    let entries = listing();
    let generated = generate(&entries);
    let mut expected = FIRST.to_vec();
    expected.extend_from_slice(&SLOT);
    expected.extend_from_slice(&SECOND);
    assert_eq!(generated.file, expected);
    assert_eq!(generated.file.len(), 20 * 2 + 32);
    assert_eq!(generated.progress, vec![FIRST, SECOND]);
    assert!(generated.failure.is_none());
}

#[test]
fn a_failure_ends_the_file() {
    let entries: Vec<Entry> = vec![
        Ok(Account(FIRST)),
        Err("table unreadable"),
        Ok(Account(SECOND)),
    ];
    let generated = generate(&entries);
    assert_eq!(generated.file, FIRST.to_vec());
    assert_eq!(generated.progress, vec![FIRST]);
    assert_eq!(generated.failure, Some(&"table unreadable"));
}

#[test]
fn a_generated_file_fits_also_with_more_behind_it() {
    let entries = listing();
    let mut file = generate(&entries).file;
    let verified = verify(&entries, &file);
    assert!(verified.result.is_ok());
    assert_eq!(verified.progress, vec![FIRST, SECOND]);
    file.push(0xff);
    assert!(verify(&entries, &file).result.is_ok());
    let empty: Vec<Entry> = vec![];
    assert!(verify(&empty, &file).result.is_ok());
}

fn file_error(entries: &[Entry], file: &[u8]) -> (VerifyError, Vec<Address>) {
    let verified = verify(entries, file);
    match verified.result {
        Err(VerifyFailure::File(error)) => (error, verified.progress),
        _ => panic!("the file should not fit"),
    }
}

#[test]
fn a_file_that_ends_early_does_not_fit() {
    let entries = listing();
    let file = generate(&entries).file;
    let (error, progress) = file_error(&entries, &file[..71]);
    assert_eq!(error, VerifyError::AddressUnread);
    assert_eq!(error.message(), "reading address preimage");
    assert_eq!(progress, vec![FIRST, SECOND]);
    let (error, progress) = file_error(&entries, &file[..51]);
    assert_eq!(error, VerifyError::StorageSlotUnread);
    assert_eq!(error.message(), "reading storage slot preimage");
    assert_eq!(progress, vec![FIRST]);
    assert_eq!(file_error(&entries, &[]).0, VerifyError::AddressUnread);
}

#[test]
fn a_wrong_address_is_told_as_the_file_has_it() {
    let entries = listing();
    let mut file = generate(&entries).file;
    let vitalik: Address = bytes("d8da6bf26964af9d7eed9e03e53415d37aa96045");
    file[52..].copy_from_slice(&vitalik);
    let (error, progress) = file_error(&entries, &file);
    assert_eq!(error, VerifyError::AddressMismatch(vitalik));
    assert_eq!(
        error.message(),
        "Address 0xd8dA6BF26964aF9D7eEd9e03E53415D37aA96045 preimage mismatch"
    );
    assert_eq!(progress, vec![FIRST, SECOND]);
}

#[test]
fn a_wrong_slot_is_told_as_the_listing_has_it() {
    let vitalik: Address = bytes("d8da6bf26964af9d7eed9e03e53415d37aa96045");
    let entries: Vec<Entry> = vec![Ok(Account(vitalik)), Ok(StorageSlot(vitalik, SLOT))];
    let mut file = generate(&entries).file;
    file[20] = 0;
    let (error, _) = file_error(&entries, &file);
    assert_eq!(error, VerifyError::StorageSlotMismatch(SLOT, vitalik));
    assert_eq!(
        error.message(),
        "Storage slot 0xabababababababababababababababababababababababababababababababab \
         preimage (address: 0xd8dA6BF26964aF9D7eEd9e03E53415D37aA96045) mistmatch"
    );
}

#[test]
fn a_failed_listing_is_told_before_the_file_is_read_further() {
    let entries: Vec<Entry> = vec![Ok(Account(FIRST)), Err("table unreadable")];
    let verified = verify(&entries, &FIRST);
    assert!(matches!(
        verified.result,
        Err(VerifyFailure::Listing(&"table unreadable"))
    ));
    assert_eq!(verified.progress, vec![FIRST]);
}

#[test]
fn entries_tell_what_to_write_and_read() {
    let write = write_entry::<()>(Ok(Account(FIRST))).unwrap();
    assert_eq!(write.progress, Some(FIRST));
    assert_eq!(write.bytes, FIRST.to_vec());
    assert_eq!(write.context, "writing address preimage");
    let write = write_entry::<()>(Ok(StorageSlot(FIRST, SLOT))).unwrap();
    assert_eq!(write.progress, None);
    assert_eq!(write.bytes, SLOT.to_vec());
    assert_eq!(write.context, "writing storage slot preimage");
    assert!(matches!(write_entry(Err("gone")), Err("gone")));

    let (item, read) = read_entry::<()>(Ok(Account(FIRST))).unwrap();
    assert_eq!(item, Account(FIRST));
    assert_eq!(read.progress, Some(FIRST));
    assert_eq!(read.len, 20);
    assert_eq!(read.context, "reading address preimage");
    let (_, read) = read_entry::<()>(Ok(StorageSlot(FIRST, SLOT))).unwrap();
    assert_eq!(read.progress, None);
    assert_eq!(read.len, 32);
    assert_eq!(read.context, "reading storage slot preimage");
    assert!(matches!(read_entry(Err("gone")), Err("gone")));
}

#[test]
fn an_item_is_held_against_the_first_bytes() {
    assert_eq!(verify_item(&Account(FIRST), &[0x11; 20]), Ok(()));
    assert_eq!(verify_item(&Account(FIRST), &[0x11; 30]), Ok(()));
    assert_eq!(
        verify_item(&Account(FIRST), &[0x12; 20]),
        Err(VerifyError::AddressMismatch([0x12; 20]))
    );
    assert_eq!(
        verify_item(&StorageSlot(FIRST, SLOT), &[0xab; 31]),
        Err(VerifyError::StorageSlotUnread)
    );
}

#[test]
fn files_join_like_their_listings() {
    let entries = listing();
    let (first, second) = entries.split_at(2);
    let mut joined = generate(first).file;
    joined.extend(generate(second).file);
    assert_eq!(joined, generate(&entries).file);
}
