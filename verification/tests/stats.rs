use state_preimages::account_stats::{
    account_counts, account_stats, collect_code_lengths, collect_header_values,
    collect_slot_counts, collect_slot_values, single_slot_stems, stem_counts, AccountCounts,
    AccountStats, StemCounts,
};
use state_preimages::rounding::rank_of_p99;
use state_preimages::stats::{calculate_stats, Stats};

#[test]
fn a_sample_is_sorted_and_summarised() {
    let mut sample = [5u64, 1, 4, 2];
    assert_eq!(
        calculate_stats(&mut sample),
        Stats { sum: 12, average: 3, median: 4, p99: 5, max: 5 }
    );
    assert_eq!(sample, [1, 2, 4, 5]);
}

#[test]
fn a_single_value_is_its_own_summary() {
    assert_eq!(
        calculate_stats(&mut [7u64]),
        Stats { sum: 7, average: 7, median: 7, p99: 7, max: 7 }
    );
}

#[test]
fn the_order_of_the_sample_does_not_matter() {
    let mut up: Vec<u64> = (1..=1000).collect();
    let mut down: Vec<u64> = (1..=1000).rev().collect();
    let stats = calculate_stats(&mut up);
    assert_eq!(stats, calculate_stats(&mut down));
    assert_eq!(
        stats,
        Stats { sum: 500_500, average: 500, median: 501, p99: 991, max: 1000 }
    );
    assert!(stats.median <= stats.p99 && stats.p99 <= stats.max);
}

#[test]
fn the_rank_of_the_percentile_is_that_of_double_precision() {
    let as_double = |count: u64| (count as f64 * 0.99) as u64;
    for count in 0..100_000u64 {
        assert_eq!(rank_of_p99(count), as_double(count));
    }
    let mut count: u64 = 1;
    for step in 0..100_000u64 {
        count = count
            .wrapping_mul(6_364_136_223_846_793_005)
            .wrapping_add(1_442_695_040_888_963_407);
        let shifted = count >> (step % 64);
        assert_eq!(rank_of_p99(shifted), as_double(shifted));
    }
    for count in [u64::MAX, u64::MAX - 1, 1 << 53, (1 << 53) + 1, (1 << 53) + 3, 1 << 63] {
        assert_eq!(rank_of_p99(count), as_double(count));
    }
}

#[test]
fn the_rank_in_small_samples_is_99_of_100() {
    for count in 0..100_000u64 {
        assert_eq!(rank_of_p99(count), count * 99 / 100);
    }
}

fn account(
    bytecode_len: u64,
    num_storage_slots: u64,
    account_stem: u64,
    ss_stems: &[u64],
    code_stems: u64,
) -> AccountStats {
    AccountStats {
        bytecode_len,
        num_storage_slots,
        account_stem,
        ss_stems: ss_stems.to_vec(),
        code_stems,
    }
}

fn accounts() -> Vec<AccountStats> {
    vec![
        account(0, 0, 2, &[], 0),
        account(100, 4, 6, &[1, 3], 0),
        account(0, 0, 2, &[], 0),
        account(24_000, 2, 130, &[1, 1], 3),
        account(50, 0, 4, &[], 0),
    ]
}

#[test]
fn the_report_covers_every_part() {
    let report = account_stats(&accounts());
    assert_eq!(report.accounts, AccountCounts { eoas: 2, contracts: 3, total: 5 });
    assert_eq!(
        report.code_length,
        Stats { sum: 24_150, average: 8_050, median: 100, p99: 24_000, max: 24_000 }
    );
    assert_eq!(
        report.contract_storage_slots,
        Stats { sum: 6, average: 2, median: 2, p99: 4, max: 4 }
    );
    assert_eq!(
        report.stems,
        StemCounts { headers: 5, storage_slots: 4, code_chunks: 3, total: 12 }
    );
    assert_eq!(
        report.header_stems,
        Stats { sum: 144, average: 28, median: 4, p99: 130, max: 130 }
    );
    assert_eq!(
        report.storage_slot_stems,
        Stats { sum: 6, average: 1, median: 1, p99: 3, max: 3 }
    );
    assert_eq!(report.single_slot_stems, 3);
}

#[test]
fn the_parts_of_the_report_can_be_had_alone() {
    let accounts = accounts();
    assert_eq!(collect_code_lengths(&accounts), vec![100, 24_000, 50]);
    assert_eq!(collect_slot_counts(&accounts), vec![4, 2, 0]);
    assert_eq!(collect_header_values(&accounts), vec![2, 6, 2, 130, 4]);
    assert_eq!(collect_slot_values(&accounts), vec![1, 3, 1, 1]);
    assert_eq!(single_slot_stems(&accounts), 3);
}

#[test]
fn no_accounts_count_nothing() {
    assert_eq!(account_counts(&[]), AccountCounts { eoas: 0, contracts: 0, total: 0 });
    assert_eq!(
        stem_counts(&[]),
        StemCounts { headers: 0, storage_slots: 0, code_chunks: 0, total: 0 }
    );
    assert!(collect_code_lengths(&[]).is_empty());
    assert_eq!(single_slot_stems(&[]), 0);
}

#[test]
fn stems_and_accounts_add_up() {
    let accounts = accounts();
    let counts = account_counts(&accounts);
    assert_eq!(counts.eoas + counts.contracts, counts.total);
    let stems = stem_counts(&accounts);
    assert_eq!(stems.headers + stems.storage_slots + stems.code_chunks, stems.total);
}

#[test]
fn the_report_does_not_depend_on_the_order_of_the_accounts() {
    let mut reordered = accounts();
    reordered.reverse();
    for account in &mut reordered {
        account.ss_stems.reverse();
    }
    assert_eq!(account_stats(&accounts()), account_stats(&reordered));
}

#[test]
fn accounts_without_code_do_not_change_the_contract_parts() {
    let mut more = accounts();
    more.insert(1, account(0, 500, 9, &[7], 0));
    more.push(account(0, 1, 1, &[], 2));
    let (fewer, more) = (account_stats(&accounts()), account_stats(&more));
    assert_eq!(fewer.code_length, more.code_length);
    assert_eq!(fewer.contract_storage_slots, more.contract_storage_slots);
    assert_eq!(fewer.accounts.contracts, more.accounts.contracts);
    assert_ne!(fewer.header_stems, more.header_stems);
}

#[test]
fn a_sorted_sample_is_left_as_it_is() {
    let mut sample = [3u64, 9, 1, 9];
    let stats = calculate_stats(&mut sample);
    let sorted = sample;
    assert_eq!(calculate_stats(&mut sample), stats);
    assert_eq!(sample, sorted);
    assert!(sorted[0] <= stats.average && stats.average <= stats.max);
}

#[test]
fn samples_of_other_types_are_converted() {
    let mut bytes = [200u8, 100, 0, 255];
    assert_eq!(
        calculate_stats(&mut bytes),
        Stats { sum: 555, average: 138, median: 200, p99: 255, max: 255 }
    );
    assert_eq!(bytes, [0, 100, 200, 255]);
    let mut words = [40_000u16, 40_000];
    assert_eq!(calculate_stats(&mut words).sum, 80_000);
}

#[derive(Clone, Copy, Debug, PartialEq, Eq, PartialOrd, Ord)]
struct Descending(std::cmp::Reverse<u64>);

impl From<Descending> for u64 {
    fn from(value: Descending) -> u64 {
        value.0 .0
    }
}

#[test]
fn the_order_of_the_sample_is_that_of_its_type() {
    let mut sample = [1u64, 9, 5].map(|n| Descending(std::cmp::Reverse(n)));
    assert_eq!(
        calculate_stats(&mut sample),
        Stats { sum: 15, average: 5, median: 5, p99: 1, max: 1 }
    );
    assert_eq!(sample.map(u64::from), [9, 5, 1]);
}
