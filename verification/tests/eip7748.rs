use alloy_primitives::keccak256;
use state_preimages::bytes::{Address, B256};
use state_preimages::iterators::eip7748::Eip7748Iterator;
use state_preimages::iterators::eip7748_scan::{Eip7748Scan, ScanStep};
use state_preimages::iterators::plain::{Answer, PlainIterator, Step};
use state_preimages::iterators::AccountStorageItem;
use state_preimages::iterators::AccountStorageItem::{Account, StorageSlot};
use state_preimages::preimages::generate;

fn word(n: u8) -> B256 {
    [n; 32]
}

fn address(n: u8) -> Address {
    [n; 20]
}

/// Scans rows; what is not among the live ones is not found.
fn scan(
    accounts: &[Address],
    storages: &[(Address, B256)],
    live: &[Address],
    live_slots: &[(Address, B256)],
) -> (Eip7748Scan, Vec<Address>) {
    let mut scan = Eip7748Scan::new();
    let mut progress = Vec::new();
    let mut accounts = accounts.iter().copied();
    let mut storages = storages.iter().copied();
    let mut step = scan.request::<()>();
    loop {
        step = match step {
            ScanStep::NextAccountRow => scan.answer(Answer::AccountRow(Ok(accounts.next()))),
            ScanStep::SeekAccount(account, hash) => {
                progress.push(account);
                assert_eq!(hash, keccak256(account).0);
                let found = live.iter().any(|a| keccak256(a).0 == hash);
                scan.answer(Answer::Account(Ok(found)))
            }
            ScanStep::NextStorageRow => scan.answer(Answer::StorageRow(Ok(storages.next()))),
            ScanStep::SeekSlot(account, slot) => {
                let found = live_slots
                    .iter()
                    .filter(|(a, _)| keccak256(a).0 == account)
                    .map(|(_, s)| keccak256(s).0)
                    .filter(|h| *h >= slot)
                    .min();
                scan.answer(Answer::Slot(Ok(found)))
            }
            ScanStep::Done => return (scan, progress),
            ScanStep::Failed(_) | ScanStep::Stopped => panic!("nothing fails here"),
        }
    }
}

fn items(mut listing: Eip7748Iterator) -> Vec<AccountStorageItem> {
    let mut items = Vec::new();
    while let Some(item) = listing.next() {
        items.push(item);
    }
    assert!(listing.next().is_none());
    items
}

#[test]
fn accounts_and_slots_are_sorted_by_hash() {
    let mut live: Vec<Address> = (0..40).map(address).collect();
    let mut slots: Vec<B256> = (0..20).map(word).collect();
    let rows: Vec<(Address, B256)> = live
        .iter()
        .step_by(3)
        .flat_map(|a| slots.iter().map(|s| (*a, *s)))
        .collect();
    let with_slots: Vec<Address> = live.iter().step_by(3).copied().collect();
    let (found, progress) = scan(&live, &rows, &live, &rows);
    assert_eq!(progress, live);
    let listed = items(Eip7748Iterator::new(found));

    live.sort_by_key(|a| keccak256(a));
    slots.sort_by_key(|s| keccak256(s));
    let mut expected = Vec::new();
    for a in &live {
        expected.push(Account(*a));
        if with_slots.contains(a) {
            expected.extend(slots.iter().map(|s| StorageSlot(*a, *s)));
        }
    }
    assert_eq!(listed, expected);
    assert_ne!(live, (0..40).map(address).collect::<Vec<_>>());
}

#[test]
fn zero_and_one_are_sorted_by_their_known_hashes() {
    // keccak256 of the word 0 starts with 29, and that of the word 1 with b1.
    let mut one: B256 = [0; 32];
    one[31] = 1;
    let rows = [(address(1), one), (address(1), word(0))];
    let (found, _) = scan(&[address(1)], &rows, &[address(1)], &rows);
    assert_eq!(
        items(Eip7748Iterator::new(found)),
        vec![
            Account(address(1)),
            StorageSlot(address(1), word(0)),
            StorageSlot(address(1), one),
        ]
    );
}

#[test]
fn only_live_accounts_and_slots_are_kept() {
    let (found, progress) = scan(
        &[address(1), address(1), address(2), address(3)],
        &[
            (address(1), word(1)),
            (address(1), word(1)),
            (address(1), word(2)),
            (address(2), word(3)),
            (address(4), word(4)),
        ],
        &[address(1), address(3)],
        &[(address(1), word(1)), (address(2), word(3)), (address(4), word(4))],
    );
    assert_eq!(progress, vec![address(1), address(2), address(3)]);
    let listed = items(Eip7748Iterator::new(found));
    assert_eq!(listed.len(), 3);
    assert!(listed.contains(&Account(address(1))));
    assert!(listed.contains(&Account(address(3))));
    let at = listed
        .iter()
        .position(|i| *i == StorageSlot(address(1), word(1)))
        .unwrap();
    assert_eq!(listed[at - 1], Account(address(1)));
}

#[test]
fn an_empty_scan_lists_nothing() {
    let (found, progress) = scan(&[], &[], &[], &[]);
    assert!(progress.is_empty());
    assert_eq!(items(Eip7748Iterator::new(found)), vec![]);
}

#[test]
fn an_error_stops_the_scan() {
    let mut scan = Eip7748Scan::new();
    assert!(matches!(
        scan.answer(Answer::AccountRow(Err("gone"))),
        ScanStep::Failed("gone")
    ));
    assert!(matches!(scan.request::<()>(), ScanStep::Stopped));
    assert!(matches!(
        scan.answer::<()>(Answer::AccountRow(Ok(None))),
        ScanStep::Stopped
    ));

    let mut scan = Eip7748Scan::new();
    scan.answer::<&str>(Answer::AccountRow(Ok(Some(address(1)))));
    assert!(matches!(
        scan.answer(Answer::Account(Err("lookup"))),
        ScanStep::Failed("lookup")
    ));

    let mut scan = Eip7748Scan::new();
    scan.answer::<&str>(Answer::AccountRow(Ok(None)));
    scan.answer::<&str>(Answer::StorageRow(Ok(Some((address(1), word(1))))));
    assert!(matches!(
        scan.answer(Answer::Slot(Err("slot"))),
        ScanStep::Failed("slot")
    ));

    let mut scan = Eip7748Scan::new();
    scan.answer::<&str>(Answer::AccountRow(Ok(None)));
    assert!(matches!(
        scan.answer(Answer::StorageRow(Err("row"))),
        ScanStep::Failed("row")
    ));
}

#[test]
fn a_scan_keeps_asking_for_what_is_due() {
    let mut scan = Eip7748Scan::new();
    assert!(matches!(
        scan.answer::<()>(Answer::Account(Ok(true))),
        ScanStep::NextAccountRow
    ));
    assert!(matches!(
        scan.answer::<()>(Answer::AccountRow(Ok(None))),
        ScanStep::NextStorageRow
    ));
    assert!(matches!(
        scan.answer::<()>(Answer::AccountRow(Ok(Some(address(1))))),
        ScanStep::NextStorageRow
    ));
    assert!(matches!(
        scan.answer::<()>(Answer::StorageRow(Ok(None))),
        ScanStep::Done
    ));
    assert!(matches!(
        scan.answer::<()>(Answer::StorageRow(Ok(None))),
        ScanStep::Done
    ));
}

#[test]
fn both_orders_list_the_same_items() {
    let accounts: Vec<Address> = (0..30).map(|n| address(n / 2)).collect();
    let rows: Vec<(Address, B256)> = (0..15)
        .flat_map(|n| (0..4).map(move |s| (address(n), word(s))))
        .collect();
    let live: Vec<Address> = (0..15).filter(|n| n % 3 != 0).map(address).collect();
    let live_slots: Vec<(Address, B256)> = rows.iter().copied().step_by(2).collect();
    let (found, _) = scan(&accounts, &rows, &live, &live_slots);
    let mut hashed = items(Eip7748Iterator::new(found));

    let mut listing: PlainIterator<()> = PlainIterator::new();
    let mut account_rows = accounts.iter().copied();
    let mut storage_rows = rows.iter().copied();
    let mut plain = Vec::new();
    let mut step = listing.next();
    loop {
        let answer = match step {
            Step::NextAccountRow => Answer::AccountRow(Ok(account_rows.next())),
            Step::SeekAccount(hash) => {
                Answer::Account(Ok(live.iter().any(|a| keccak256(a).0 == hash)))
            }
            Step::NextStorageRow => Answer::StorageRow(Ok(storage_rows.next())),
            Step::SeekSlot(account, slot) => Answer::Slot(Ok(live_slots
                .iter()
                .map(|(a, s)| (keccak256(a).0, keccak256(s).0))
                .find(|entry| *entry == (account, slot))
                .map(|entry| entry.1))),
            Step::Item(item) => {
                plain.push(item);
                step = listing.next();
                continue;
            }
            Step::Failed(()) => panic!("nothing fails here"),
            Step::Done => break,
        };
        step = listing.answer(answer);
    }
    assert_eq!(plain.len(), 10 + 10 * 2);
    assert_ne!(plain, hashed);

    let file = |items: &[AccountStorageItem]| {
        let entries: Vec<Result<AccountStorageItem, ()>> = items.iter().copied().map(Ok).collect();
        generate(&entries).file
    };
    assert_eq!(file(&plain).len(), file(&hashed).len());

    let sort_key = |item: &AccountStorageItem| match item {
        Account(a) => (*a, None),
        StorageSlot(a, s) => (*a, Some(*s)),
    };
    plain.sort_by_key(sort_key);
    hashed.sort_by_key(sort_key);
    assert_eq!(plain, hashed);
}

#[test]
fn a_scan_reports_the_accounts_before_an_unreadable_row() {
    let rows = [Ok(address(1)), Ok(address(1)), Ok(address(2)), Err("gone"), Ok(address(3))];
    let mut rows = rows.iter().copied();
    let mut scan = Eip7748Scan::new();
    let mut progress = Vec::new();
    let mut step = scan.request();
    let error = loop {
        step = match step {
            ScanStep::NextAccountRow => scan.answer(Answer::AccountRow(rows.next().transpose())),
            ScanStep::SeekAccount(account, _) => {
                progress.push(account);
                scan.answer(Answer::Account(Ok(false)))
            }
            ScanStep::Failed(e) => break e,
            _ => panic!("no storage row should be read"),
        }
    };
    assert_eq!(error, "gone");
    assert_eq!(progress, vec![address(1), address(2)]);
}
