use packetworks::stats::{
    PacketStats, PacketStatsTotals, ReceiverPacketStats, ReceiverPacketStatsTotals,
};
use std::time::{Duration, Instant};

#[test]
fn new_packet_stats_start_at_zero() {
    let stats = PacketStats::new();
    assert_eq!(stats.total_packets(), 0);
    assert_eq!(stats.total_bytes(), 0);
    assert_eq!(stats.totals(), PacketStatsTotals { total_packets: 0, total_bytes: 0 });
}

#[test]
fn record_packet_counts_packets_and_bytes() {
    let mut stats = PacketStats::with_started_at(Instant::now());
    stats.record_packet(100);
    stats.record_packet(28);
    stats.record_packet(0);
    assert_eq!(stats.total_packets(), 3);
    assert_eq!(stats.total_bytes(), 128);
    assert_eq!(stats.totals(), PacketStatsTotals { total_packets: 3, total_bytes: 128 });
}

#[test]
fn snapshot_reads_interval_and_starts_a_new_one() {
    let started_at = Instant::now();
    let mut stats = PacketStats::with_started_at(started_at);
    stats.record_packet(10);
    stats.record_packet(20);
    let first_at = started_at + Duration::from_secs(2);
    let first = stats.snapshot_at(first_at);
    assert_eq!(first.total_packets, 2);
    assert_eq!(first.total_bytes, 30);
    assert_eq!(first.packets_since_snapshot, 2);
    assert_eq!(first.bytes_since_snapshot, 30);
    assert_eq!(first.previous_snapshot_at, started_at);
    assert_eq!(first.taken_at, first_at);

    stats.record_packet(5);
    let second_at = first_at + Duration::from_secs(1);
    let second = stats.snapshot_at(second_at);
    assert_eq!(second.total_packets, 3);
    assert_eq!(second.total_bytes, 35);
    assert_eq!(second.packets_since_snapshot, 1);
    assert_eq!(second.bytes_since_snapshot, 5);
    assert_eq!(second.previous_snapshot_at, first_at);

    let third = stats.snapshot_at(second_at);
    assert_eq!(third.packets_since_snapshot, 0);
    assert_eq!(third.bytes_since_snapshot, 0);
    assert_eq!(third.total_packets, 3);
}

#[test]
fn snapshot_now_closes_interval() {
    let mut stats = PacketStats::new();
    stats.record_packet(7);
    let before = Instant::now();
    let interval = stats.snapshot();
    assert!(interval.taken_at >= before);
    assert_eq!(interval.packets_since_snapshot, 1);
    assert_eq!(interval.bytes_since_snapshot, 7);
    assert_eq!(stats.snapshot().packets_since_snapshot, 0);
    assert_eq!(stats.total_packets(), 1);
}

fn receiver_after(numbers: &[u64]) -> ReceiverPacketStats {
    let mut stats = ReceiverPacketStats::with_started_at(Instant::now());
    for &number in numbers {
        stats.record_packet(number, 100);
    }
    stats
}

#[test]
fn new_receiver_stats_start_at_zero() {
    let stats = ReceiverPacketStats::new();
    assert_eq!(
        stats.totals(),
        ReceiverPacketStatsTotals {
            total_packets: 0,
            total_bytes: 0,
            out_of_order_packets: 0,
            missing_packets: 0,
        }
    );
}

#[test]
fn consecutive_packets_are_neither_missing_nor_out_of_order() {
    let stats = receiver_after(&[0, 1, 2, 3, 4]);
    assert_eq!(stats.total_packets(), 5);
    assert_eq!(stats.total_bytes(), 500);
    assert_eq!(stats.missing_packets(), 0);
    assert_eq!(stats.out_of_order_packets(), 0);
}

#[test]
fn first_packet_may_have_any_number() {
    let stats = receiver_after(&[1000, 1001, 1002]);
    assert_eq!(stats.missing_packets(), 0);
    assert_eq!(stats.out_of_order_packets(), 0);
}

#[test]
fn gap_counts_skipped_numbers_as_missing() {
    let stats = receiver_after(&[0, 4]);
    assert_eq!(stats.missing_packets(), 3);
    assert_eq!(stats.out_of_order_packets(), 0);
}

#[test]
fn late_packets_fill_the_gap_and_count_out_of_order() {
    let mut stats = receiver_after(&[0, 4]);
    stats.record_packet(2, 10);
    assert_eq!(stats.missing_packets(), 2);
    assert_eq!(stats.out_of_order_packets(), 1);
    stats.record_packet(1, 10);
    assert_eq!(stats.missing_packets(), 1);
    assert_eq!(stats.out_of_order_packets(), 2);
    stats.record_packet(3, 10);
    assert_eq!(stats.missing_packets(), 0);
    assert_eq!(stats.out_of_order_packets(), 3);
    stats.record_packet(5, 10);
    assert_eq!(stats.missing_packets(), 0);
    assert_eq!(stats.out_of_order_packets(), 3);
    assert_eq!(stats.total_packets(), 6);
    assert_eq!(stats.total_bytes(), 240);
}

#[test]
fn repeat_below_next_expected_counts_out_of_order() {
    let stats = receiver_after(&[0, 1, 1]);
    assert_eq!(stats.out_of_order_packets(), 1);
    assert_eq!(stats.missing_packets(), 0);
}

#[test]
fn repeat_above_a_gap_changes_nothing() {
    let stats = receiver_after(&[0, 3, 3]);
    assert_eq!(stats.out_of_order_packets(), 0);
    assert_eq!(stats.missing_packets(), 2);
}

#[test]
fn repeat_of_filled_number_above_next_expected_changes_nothing() {
    let stats = receiver_after(&[0, 5, 3, 3]);
    assert_eq!(stats.out_of_order_packets(), 1);
    assert_eq!(stats.missing_packets(), 3);
}

#[test]
fn packet_older_than_first_counts_out_of_order_not_missing() {
    let stats = receiver_after(&[10, 5, 11]);
    assert_eq!(stats.out_of_order_packets(), 1);
    assert_eq!(stats.missing_packets(), 0);
}

#[test]
fn second_gap_adds_to_missing() {
    let stats = receiver_after(&[0, 2, 5]);
    assert_eq!(stats.missing_packets(), 3);
    let stats = receiver_after(&[0, 2, 5, 1, 4]);
    assert_eq!(stats.missing_packets(), 1);
    assert_eq!(stats.out_of_order_packets(), 2);
}

#[test]
fn filling_lowest_missing_moves_next_expected_to_next_gap() {
    // After 0 and 6, 1..=5 are missing; receiving 3 splits that range.
    let mut stats = receiver_after(&[0, 6, 3]);
    assert_eq!(stats.missing_packets(), 4);
    stats.record_packet(1, 1);
    stats.record_packet(2, 1);
    assert_eq!(stats.missing_packets(), 2);
    // 2 is now below the next expected number (4): a repeat counts as out of order.
    stats.record_packet(2, 1);
    assert_eq!(stats.out_of_order_packets(), 4);
    stats.record_packet(4, 1);
    stats.record_packet(5, 1);
    assert_eq!(stats.missing_packets(), 0);
    assert_eq!(stats.out_of_order_packets(), 6);
    // Everything up to 6 has arrived: 6 again is a repeat below 7.
    stats.record_packet(6, 1);
    assert_eq!(stats.out_of_order_packets(), 7);
}

#[test]
fn largest_sequence_number_saturates() {
    let stats = receiver_after(&[u64::MAX - 2, u64::MAX]);
    assert_eq!(stats.missing_packets(), 1);
    let stats = receiver_after(&[u64::MAX, u64::MAX]);
    assert_eq!(stats.missing_packets(), 0);
    assert_eq!(stats.out_of_order_packets(), 0);
    let stats = receiver_after(&[u64::MAX - 1, u64::MAX, u64::MAX - 1]);
    assert_eq!(stats.out_of_order_packets(), 1);
}

#[test]
fn receiver_snapshot_reads_sequence_counters_and_interval() {
    let started_at = Instant::now();
    let mut stats = ReceiverPacketStats::with_started_at(started_at);
    stats.record_packet(0, 50);
    stats.record_packet(3, 50);
    stats.record_packet(1, 50);
    let at = started_at + Duration::from_millis(500);
    let snapshot = stats.snapshot_at(at);
    assert_eq!(snapshot.total_packets, 3);
    assert_eq!(snapshot.total_bytes, 150);
    assert_eq!(snapshot.packets_since_snapshot, 3);
    assert_eq!(snapshot.bytes_since_snapshot, 150);
    assert_eq!(snapshot.previous_snapshot_at, started_at);
    assert_eq!(snapshot.taken_at, at);
    assert_eq!(snapshot.out_of_order_packets, 1);
    assert_eq!(snapshot.missing_packets, 1);
    let next = stats.snapshot();
    assert_eq!(next.packets_since_snapshot, 0);
    assert_eq!(next.missing_packets, 1);
    assert_eq!(
        stats.totals(),
        ReceiverPacketStatsTotals {
            total_packets: 3,
            total_bytes: 150,
            out_of_order_packets: 1,
            missing_packets: 1,
        }
    );
}

#[test]
fn filling_middle_of_range_splits_it() {
    let mut stats = receiver_after(&[1, 6]);
    assert_eq!(stats.missing_packets(), 4);
    stats.record_packet(3, 1);
    assert_eq!(stats.missing_packets(), 3);
    assert_eq!(stats.out_of_order_packets(), 1);
    stats.record_packet(2, 1);
    stats.record_packet(4, 1);
    stats.record_packet(5, 1);
    assert_eq!(stats.missing_packets(), 0);
    assert_eq!(stats.out_of_order_packets(), 4);
}

#[test]
fn repeated_number_counts_late_only_below_next_expected() {
    let stats = receiver_after(&[0, 1, 1]);
    assert_eq!((stats.out_of_order_packets(), stats.missing_packets()), (1, 0));
    let stats = receiver_after(&[0, 2, 2]);
    assert_eq!((stats.out_of_order_packets(), stats.missing_packets()), (0, 1));
}

#[test]
fn totals_count_every_recording_across_snapshots() {
    let started_at = Instant::now();
    let mut stats = PacketStats::with_started_at(started_at);
    for round in 0..4_u64 {
        for _ in 0..3 {
            stats.record_packet(10);
        }
        let interval = stats.snapshot_at(started_at + Duration::from_secs(round + 1));
        assert_eq!(interval.packets_since_snapshot, 3);
        assert_eq!(interval.bytes_since_snapshot, 30);
    }
    stats.record_packet(1);
    assert_eq!(stats.total_packets(), 13);
    assert_eq!(stats.total_bytes(), 121);
}
