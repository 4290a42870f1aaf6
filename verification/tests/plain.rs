use alloy_primitives::keccak256;
use state_preimages::bytes::{Address, B256};
use state_preimages::iterators::plain::{Answer, Peeked, PlainIterator, Step};
use state_preimages::iterators::AccountStorageItem::{Account, StorageSlot};
use state_preimages::iterators::AccountStorageItem;
use std::collections::BTreeSet;

/// Tables in memory. A row that is an error stands for a row that cannot be read.
struct Tables {
    accounts: Vec<Result<Address, &'static str>>,
    storages: Vec<Result<(Address, B256), &'static str>>,
    hashed_accounts: BTreeSet<B256>,
    hashed_storages: BTreeSet<(B256, B256)>,
    /// Lookups under this hash fail.
    broken: Option<B256>,
}

impl Tables {
    fn new(
        accounts: Vec<Result<Address, &'static str>>,
        storages: Vec<Result<(Address, B256), &'static str>>,
        live: &[Address],
        live_slots: &[(Address, B256)],
    ) -> Self {
        Tables {
            accounts,
            storages,
            hashed_accounts: live.iter().map(|a| keccak256(a).0).collect(),
            hashed_storages: live_slots
                .iter()
                .map(|(a, s)| (keccak256(a).0, keccak256(s).0))
                .collect(),
            broken: None,
        }
    }

    fn seek_slot(&self, account: B256, slot: B256) -> Option<B256> {
        self.hashed_storages
            .range((account, slot)..)
            .next()
            .filter(|(a, _)| *a == account)
            .map(|(_, s)| *s)
    }
}

fn list(tables: &Tables) -> Vec<Result<AccountStorageItem, &'static str>> {
    let mut listing: PlainIterator<&'static str> = PlainIterator::new();
    let mut accounts = tables.accounts.iter();
    let mut storages = tables.storages.iter();
    let mut entries = Vec::new();
    let mut step = listing.next();
    loop {
        step = match step {
            Step::NextAccountRow => {
                listing.answer(Answer::AccountRow(accounts.next().copied().transpose()))
            }
            Step::SeekAccount(hash) => listing.answer(Answer::Account(
                if tables.broken == Some(hash) {
                    Err("account lookup")
                } else {
                    Ok(tables.hashed_accounts.contains(&hash))
                },
            )),
            Step::NextStorageRow => {
                listing.answer(Answer::StorageRow(storages.next().copied().transpose()))
            }
            Step::SeekSlot(account, slot) => listing.answer(Answer::Slot(
                if tables.broken == Some(slot) {
                    Err("slot lookup")
                } else {
                    Ok(tables.seek_slot(account, slot))
                },
            )),
            Step::Item(item) => {
                entries.push(Ok(item));
                listing.next()
            }
            Step::Failed(e) => {
                entries.push(Err(e));
                listing.next()
            }
            Step::Done => {
                // An ended listing stays ended.
                assert!(matches!(listing.next(), Step::Done));
                return entries;
            }
        }
    }
}

fn addr(n: u8) -> Address {
    [n; 20]
}

fn slot(n: u8) -> B256 {
    [n; 32]
}

#[test]
fn lists_live_accounts_and_slots_in_plain_order() {
    let tables = Tables::new(
        vec![Ok(addr(1)), Ok(addr(2)), Ok(addr(3))],
        vec![
            Ok((addr(1), slot(7))),
            Ok((addr(1), slot(9))),
            Ok((addr(3), slot(4))),
        ],
        &[addr(1), addr(2), addr(3)],
        &[(addr(1), slot(7)), (addr(1), slot(9)), (addr(3), slot(4))],
    );
    assert_eq!(
        list(&tables),
        vec![
            Ok(Account(addr(1))),
            Ok(StorageSlot(addr(1), slot(7))),
            Ok(StorageSlot(addr(1), slot(9))),
            Ok(Account(addr(2))),
            Ok(Account(addr(3))),
            Ok(StorageSlot(addr(3), slot(4))),
        ]
    );
}

#[test]
fn shards_are_listed_once() {
    let tables = Tables::new(
        vec![Ok(addr(1)), Ok(addr(1)), Ok(addr(1)), Ok(addr(2))],
        vec![
            Ok((addr(1), slot(7))),
            Ok((addr(1), slot(7))),
            Ok((addr(2), slot(7))),
        ],
        &[addr(1), addr(2)],
        &[(addr(1), slot(7)), (addr(2), slot(7))],
    );
    assert_eq!(
        list(&tables),
        vec![
            Ok(Account(addr(1))),
            Ok(StorageSlot(addr(1), slot(7))),
            Ok(Account(addr(2))),
            Ok(StorageSlot(addr(2), slot(7))),
        ]
    );
}

#[test]
fn deleted_accounts_are_left_out_with_their_slots() {
    let tables = Tables::new(
        vec![Ok(addr(1)), Ok(addr(2)), Ok(addr(3))],
        vec![
            Ok((addr(2), slot(1))),
            Ok((addr(2), slot(2))),
            Ok((addr(3), slot(3))),
        ],
        &[addr(1), addr(3)],
        &[(addr(2), slot(1)), (addr(3), slot(3))],
    );
    assert_eq!(
        list(&tables),
        vec![
            Ok(Account(addr(1))),
            Ok(Account(addr(3))),
            Ok(StorageSlot(addr(3), slot(3))),
        ]
    );
}

#[test]
fn rows_of_addresses_without_account_rows_are_drained() {
    let tables = Tables::new(
        vec![Ok(addr(5))],
        vec![
            Ok((addr(1), slot(1))),
            Ok((addr(1), slot(2))),
            Ok((addr(2), slot(1))),
            Ok((addr(5), slot(3))),
            Ok((addr(6), slot(4))),
        ],
        &[addr(5)],
        &[
            (addr(1), slot(1)),
            (addr(2), slot(1)),
            (addr(5), slot(3)),
            (addr(6), slot(4)),
        ],
    );
    assert_eq!(
        list(&tables),
        vec![Ok(Account(addr(5))), Ok(StorageSlot(addr(5), slot(3)))]
    );
}

#[test]
fn a_larger_slot_hash_does_not_stand_for_the_slot() {
    // Of two slots only the one with the larger hash is live, so looking up the other one finds it.
    let (small, large) = if keccak256(slot(1)) < keccak256(slot(2)) {
        (slot(1), slot(2))
    } else {
        (slot(2), slot(1))
    };
    let tables = Tables::new(
        vec![Ok(addr(1))],
        vec![Ok((addr(1), small)), Ok((addr(1), large))],
        &[addr(1)],
        &[(addr(1), large)],
    );
    assert_eq!(
        tables.seek_slot(keccak256(addr(1)).0, keccak256(small).0),
        Some(keccak256(large).0)
    );
    assert_eq!(
        list(&tables),
        vec![Ok(Account(addr(1))), Ok(StorageSlot(addr(1), large))]
    );
}

#[test]
fn errors_are_handed_out_and_the_listing_goes_on() {
    let mut tables = Tables::new(
        vec![Err("account row"), Ok(addr(1)), Ok(addr(2)), Ok(addr(3))],
        vec![
            Ok((addr(1), slot(1))),
            Err("storage row"),
            Ok((addr(1), slot(2))),
            Ok((addr(3), slot(3))),
            Ok((addr(3), slot(4))),
        ],
        &[addr(1), addr(2), addr(3)],
        &[
            (addr(1), slot(1)),
            (addr(1), slot(2)),
            (addr(3), slot(3)),
            (addr(3), slot(4)),
        ],
    );
    assert_eq!(
        list(&tables),
        vec![
            Err("account row"),
            Ok(Account(addr(1))),
            Ok(StorageSlot(addr(1), slot(1))),
            Err("storage row"),
            Ok(StorageSlot(addr(1), slot(2))),
            Ok(Account(addr(2))),
            Ok(Account(addr(3))),
            Ok(StorageSlot(addr(3), slot(3))),
            Ok(StorageSlot(addr(3), slot(4))),
        ]
    );
    tables.accounts.remove(0);
    tables.storages.remove(1);
    tables.broken = Some(keccak256(addr(2)).0);
    assert_eq!(
        list(&tables)[2..5],
        [
            Ok(StorageSlot(addr(1), slot(2))),
            Err("account lookup"),
            Ok(Account(addr(3))),
        ]
    );
    tables.broken = Some(keccak256(slot(3)).0);
    assert_eq!(
        list(&tables)[4..],
        [
            Ok(Account(addr(3))),
            Err("slot lookup"),
            Ok(StorageSlot(addr(3), slot(4))),
        ]
    );
}

#[test]
fn failing_rows_that_are_not_reached_are_not_handed_out() {
    // No live account comes behind the row of the largest address.
    let tables = Tables::new(
        vec![Ok(addr(1)), Err("account row"), Ok(addr(2))],
        vec![
            Err("first"),
            Ok((addr(1), slot(1))),
            Err("second"),
            Ok((addr(1), slot(1))),
            Ok((addr(2), slot(2))),
            Err("third"),
        ],
        &[addr(1)],
        &[(addr(1), slot(1)), (addr(2), slot(2))],
    );
    assert_eq!(
        list(&tables),
        vec![
            Ok(Account(addr(1))),
            Err("first"),
            Ok(StorageSlot(addr(1), slot(1))),
            Err("second"),
            Err("account row"),
        ]
    );
}

#[test]
fn an_account_whose_lookup_fails_is_left_out() {
    let rows: Vec<(Address, B256)> = vec![
        (addr(1), slot(1)),
        (addr(2), slot(2)),
        (addr(2), slot(3)),
        (addr(3), slot(4)),
    ];
    let live = [addr(1), addr(2), addr(3)];
    let mut tables = Tables::new(
        vec![Ok(addr(1)), Ok(addr(2)), Ok(addr(2)), Ok(addr(3))],
        rows.iter().copied().map(Ok).collect(),
        &live,
        &rows,
    );
    tables.broken = Some(keccak256(addr(2)).0);
    let mut out = list(&tables);
    assert_eq!(out[2], Err("account lookup"));
    out.remove(2);

    tables.broken = None;
    tables.hashed_accounts.remove(&keccak256(addr(2)).0);
    assert_eq!(out, list(&tables));
    assert_eq!(out.len(), 4);
}

#[test]
fn rows_of_a_deleted_account_are_passed_once() {
    let mut listing: PlainIterator<()> = PlainIterator::new();
    listing.next();
    listing.answer(Answer::AccountRow(Ok(Some(addr(1)))));
    assert!(matches!(
        listing.answer(Answer::Account(Ok(false))),
        Step::NextStorageRow
    ));
    assert!(matches!(
        listing.answer(Answer::StorageRow(Ok(Some((addr(1), slot(1)))))),
        Step::NextStorageRow
    ));
    assert!(matches!(
        listing.answer(Answer::StorageRow(Ok(Some((addr(2), slot(2)))))),
        Step::NextAccountRow
    ));
    // The row of the next address stays ahead while another account is passed over.
    listing.answer(Answer::AccountRow(Ok(Some([1, 2].repeat(10).try_into().unwrap()))));
    assert!(matches!(
        listing.answer(Answer::Account(Ok(false))),
        Step::NextAccountRow
    ));
    listing.answer(Answer::AccountRow(Ok(Some(addr(2)))));
    assert!(matches!(
        listing.answer(Answer::Account(Ok(true))),
        Step::Item(Account(_))
    ));
    assert!(matches!(
        listing.next(),
        Step::SeekSlot(_, hash) if hash == keccak256(slot(2)).0
    ));
}

#[test]
fn empty_tables_list_nothing() {
    assert_eq!(list(&Tables::new(vec![], vec![], &[], &[])), vec![]);
}

fn digest(text: &str) -> B256 {
    alloy_primitives::hex::decode_to_array(text).unwrap()
}

#[test]
fn lookups_use_keccak() {
    let mut listing: PlainIterator<()> = PlainIterator::new();
    assert!(matches!(listing.next(), Step::NextAccountRow));
    let zero_address = digest("5380c7b7ae81a58eb98d9c78de4a1fd7fd9535fc953ed2be602daaa41767312a");
    let zero_word = digest("290decd9548b62a8d60345a988386fc84ba6bc95484008f6362f93160ef3e563");
    assert!(matches!(
        listing.answer(Answer::AccountRow(Ok(Some([0; 20])))),
        Step::SeekAccount(hash) if hash == zero_address
    ));
    assert!(matches!(
        listing.answer(Answer::Account(Ok(true))),
        Step::Item(Account(address)) if address == [0; 20]
    ));
    assert!(matches!(listing.next(), Step::NextStorageRow));
    assert!(matches!(
        listing.answer(Answer::StorageRow(Ok(Some(([0; 20], [0; 32]))))),
        Step::SeekSlot(account, slot) if account == zero_address && slot == zero_word
    ));
    assert!(matches!(
        listing.answer(Answer::Slot(Ok(Some(zero_word)))),
        Step::Item(StorageSlot(_, slot)) if slot == [0; 32]
    ));
}

#[test]
fn an_answer_that_was_not_asked_for_repeats_the_request() {
    let mut listing: PlainIterator<()> = PlainIterator::new();
    assert!(matches!(
        listing.answer(Answer::Account(Ok(true))),
        Step::NextAccountRow
    ));
    assert!(matches!(
        listing.answer(Answer::Slot(Ok(None))),
        Step::NextAccountRow
    ));
    assert!(matches!(listing.next(), Step::NextAccountRow));
    assert!(matches!(
        listing.answer(Answer::AccountRow(Ok(None))),
        Step::Done
    ));
    assert!(matches!(
        listing.answer(Answer::AccountRow(Ok(Some([1; 20])))),
        Step::Done
    ));
}

#[test]
fn passing_over_an_address_twice_changes_nothing() {
    let row = || Peeked::<()>::Row(addr(1), slot(1));
    let ahead = |listing: &PlainIterator<()>| match listing.peeked {
        Peeked::Row(address, slot) => Some((address, slot)),
        _ => None,
    };
    let mut listing: PlainIterator<()> = PlainIterator::new();
    listing.peeked = row();
    assert!(listing.advance_storage_past(addr(2)));
    assert!(listing.advance_storage_past(addr(2)));
    assert_eq!(ahead(&listing), Some((addr(1), slot(1))));
    assert!(!listing.advance_storage_past(addr(1)));
    assert!(matches!(listing.peeked, Peeked::Empty));
    assert!(!listing.advance_storage_past(addr(1)));
    assert!(matches!(listing.peeked, Peeked::Empty));
    listing.peeked = Peeked::Exhausted;
    assert!(listing.advance_storage_past(addr(1)));
    assert!(matches!(listing.peeked, Peeked::Exhausted));
}

#[test]
fn shards_and_rows_of_dead_accounts_make_no_difference() {
    let accounts = [addr(1), addr(2), addr(4)];
    let rows = [
        (addr(1), slot(1)),
        (addr(2), slot(1)),
        (addr(3), slot(1)),
        (addr(4), slot(1)),
        (addr(4), slot(2)),
    ];
    let live = [addr(1), addr(4)];
    let all = Tables::new(
        accounts.iter().copied().map(Ok).collect(),
        rows.iter().copied().map(Ok).collect(),
        &live,
        &rows,
    );
    let sharded = Tables::new(
        accounts.iter().flat_map(|a| [Ok(*a), Ok(*a)]).collect(),
        rows.iter().flat_map(|r| [Ok(*r), Ok(*r), Ok(*r)]).collect(),
        &live,
        &rows,
    );
    let fewer = Tables::new(
        accounts.iter().copied().map(Ok).collect(),
        rows.iter().copied().filter(|r| live.contains(&r.0)).map(Ok).collect(),
        &live,
        &rows,
    );
    assert_eq!(list(&all).len(), 5);
    assert_eq!(list(&all), list(&sharded));
    assert_eq!(list(&all), list(&fewer));
}
