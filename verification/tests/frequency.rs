use state_preimages::bytes::{Address, B256};
use state_preimages::frequency::{frequency_rows, storage_slot_freq, SlotFrequency};
use state_preimages::iterators::AccountStorageItem;
use state_preimages::iterators::AccountStorageItem::{Account, StorageSlot};

type Entry = Result<AccountStorageItem, &'static str>;

const HOLDER: Address = [9; 20];

/// A slot that starts with 29 bytes `prefix` and ends in `last`.
fn key(prefix: u8, last: u8) -> B256 {
    let mut key = [prefix; 32];
    key[29] = 0;
    key[30] = 0;
    key[31] = last;
    key
}

fn entries() -> Vec<Entry> {
    let mut entries: Vec<Entry> = vec![Ok(Account(HOLDER))];
    for last in 0..3 {
        entries.push(Ok(StorageSlot(HOLDER, key(1, last))));
    }
    for last in 0..5 {
        entries.push(Ok(StorageSlot(HOLDER, key(2, last))));
    }
    entries.push(Ok(StorageSlot(HOLDER, key(3, 0))));
    entries.push(Ok(Account([8; 20])));
    entries.push(Ok(StorageSlot([8; 20], key(4, 0))));
    entries.push(Ok(StorageSlot([8; 20], key(4, 0))));
    entries
}

#[test]
fn repeated_prefixes_are_ranked_by_count() {
    let entries = entries();
    let (progress, report) = storage_slot_freq::<29, _>(&entries, 1_000);
    assert_eq!(progress, vec![HOLDER, [8; 20]]);
    let report = report.unwrap();
    assert_eq!(report.total_storage_slots, 11);
    assert_eq!(report.top, vec![([2; 29], 5), ([1; 29], 3), ([4; 29], 2)]);
}

#[test]
fn no_more_prefixes_are_told_than_asked_for() {
    let entries = entries();
    let (_, report) = storage_slot_freq::<29, _>(&entries, 2);
    assert_eq!(report.unwrap().top, vec![([2; 29], 5), ([1; 29], 3)]);
    let (_, report) = storage_slot_freq::<29, _>(&entries, 0);
    assert!(report.unwrap().top.is_empty());
}

#[test]
fn the_length_of_the_prefix_decides_what_is_the_same() {
    let entries = entries();
    let (_, report) = storage_slot_freq::<32, _>(&entries, 10);
    assert_eq!(report.unwrap().top, vec![(key(4, 0), 2)]);
    let (_, report) = storage_slot_freq::<0, _>(&entries, 10);
    assert_eq!(report.unwrap().top, vec![([], 11)]);
}

#[test]
fn equally_frequent_prefixes_come_in_some_order() {
    let entries: Vec<Entry> = vec![
        Ok(StorageSlot(HOLDER, key(1, 0))),
        Ok(StorageSlot(HOLDER, key(2, 0))),
        Ok(StorageSlot(HOLDER, key(1, 1))),
        Ok(StorageSlot(HOLDER, key(2, 1))),
    ];
    let (_, report) = storage_slot_freq::<29, _>(&entries, 10);
    let mut top = report.unwrap().top;
    top.sort();
    assert_eq!(top, vec![([1; 29], 2), ([2; 29], 2)]);
}

#[test]
fn a_failure_of_the_listing_ends_the_counting() {
    let mut entries = entries();
    entries[4] = Err("table unreadable");
    let (progress, report) = storage_slot_freq::<29, _>(&entries, 10);
    assert_eq!(progress, vec![HOLDER]);
    assert!(matches!(report, Err(&"table unreadable")));
}

#[test]
fn entries_are_counted_one_by_one() {
    let mut frequency: SlotFrequency<29> = SlotFrequency::new();
    assert_eq!(frequency.count_entry::<&str>(Ok(Account(HOLDER))), Ok(Some(HOLDER)));
    for last in 0..2 {
        assert_eq!(
            frequency.count_entry::<&str>(Ok(StorageSlot(HOLDER, key(7, last)))),
            Ok(None)
        );
    }
    assert_eq!(frequency.count_entry(Err("gone")), Err("gone"));
    frequency.record(&key(7, 9));
    assert_eq!(frequency.total_storage_slots(), 3);
    assert_eq!(frequency.top(5), vec![([7; 29], 3)]);
}

#[test]
fn rows_tell_sizes_in_whole_mib() {
    let rows = frequency_rows(&[([0xab; 29], 100_000), ([0x0c; 29], 50_000)]);
    assert_eq!(rows.len(), 2);
    assert_eq!(rows[0].prefix, "ab".repeat(29));
    assert_eq!(rows[0].count, 100_000);
    assert_eq!(rows[0].mib, 2);
    assert_eq!(rows[0].cumulative_mib, 2);
    assert_eq!(rows[1].prefix, "0c".repeat(29));
    assert_eq!(rows[1].mib, 1);
    assert_eq!(rows[1].cumulative_mib, 4);
}

#[test]
fn counts_do_not_depend_on_the_order_of_the_slots() {
    let mut reversed = entries();
    reversed.reverse();
    let (_, report) = storage_slot_freq::<29, _>(&reversed, 10);
    assert_eq!(report.unwrap().top, vec![([2; 29], 5), ([1; 29], 3), ([4; 29], 2)]);
}
