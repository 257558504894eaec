//! Packet and byte counters, with counts per interval between snapshots.

use std::time::Instant;
use vstd::prelude::*;
use crate::sequence::{
    SequenceTracker, SequenceView, after_packet, after_packets, fresh_view,
    lemma_arrival_counts, lemma_missing_are_skipped_numbers, sequence_view_wf,
};

verus! {

#[verifier::external_type_specification]
#[verifier::external_body]
pub struct ExInstant(Instant);

/// Calls `std::time::Instant::now`. Nothing is stated of the reading: it comes from
/// the machine's monotonic clock.
#[verifier::external_body]
fn clock_now() -> Instant {
    Instant::now()
}

/// What a packet counter holds.
pub struct PacketStatsView {
    pub total_packets: nat,
    pub total_bytes: nat,
    pub packets_since_snapshot: nat,
    pub bytes_since_snapshot: nat,
    pub last_snapshot_at: Instant,
}

/// The counter after one more packet of `bytes` bytes.
pub open spec fn after_recording(v: PacketStatsView, bytes: nat) -> PacketStatsView {
    PacketStatsView {
        total_packets: v.total_packets + 1,
        total_bytes: v.total_bytes + bytes,
        packets_since_snapshot: v.packets_since_snapshot + 1,
        bytes_since_snapshot: v.bytes_since_snapshot + bytes,
        ..v
    }
}

/// The counter after a snapshot taken at `now`: totals kept, interval counts cleared.
pub open spec fn after_snapshot(v: PacketStatsView, now: Instant) -> PacketStatsView {
    PacketStatsView {
        packets_since_snapshot: 0,
        bytes_since_snapshot: 0,
        last_snapshot_at: now,
        ..v
    }
}

/// The counts of an interval never exceed the totals.
pub open spec fn packet_counts_wf(v: PacketStatsView) -> bool {
    &&& v.packets_since_snapshot <= v.total_packets
    &&& v.bytes_since_snapshot <= v.total_bytes
    &&& v.total_packets <= u64::MAX
    &&& v.total_bytes <= u64::MAX
}

/// One call on a packet counter, for stating what a run of calls does: counting a
/// packet of so many bytes, or a snapshot at an instant.
pub enum StatsStep {
    Record(usize),
    Snapshot(Instant),
}

/// The counter after the calls `steps`, in that order.
pub open spec fn after_steps(v: PacketStatsView, steps: Seq<StatsStep>) -> PacketStatsView
    decreases steps.len(),
{
    if steps.len() == 0 {
        v
    } else {
        let before = after_steps(v, steps.drop_last());
        match steps.last() {
            StatsStep::Record(bytes) => after_recording(before, bytes as nat),
            StatsStep::Snapshot(now) => after_snapshot(before, now),
        }
    }
}

/// How many packets `steps` count, and how many bytes.
pub open spec fn recorded(steps: Seq<StatsStep>) -> (nat, nat)
    decreases steps.len(),
{
    if steps.len() == 0 {
        (0, 0)
    } else {
        let (packets, bytes) = recorded(steps.drop_last());
        match steps.last() {
            StatsStep::Record(b) => (packets + 1, bytes + b as nat),
            StatsStep::Snapshot(_) => (packets, bytes),
        }
    }
}

/// The steps after the last snapshot among `steps`, or all of them where there is none.
pub open spec fn since_last_snapshot(steps: Seq<StatsStep>) -> Seq<StatsStep>
    decreases steps.len(),
{
    if steps.len() == 0 {
        steps
    } else {
        match steps.last() {
            StatsStep::Record(_) => since_last_snapshot(steps.drop_last()).push(steps.last()),
            StatsStep::Snapshot(_) => Seq::empty(),
        }
    }
}

/// Over any run of calls, the totals grow by exactly the packets and bytes recorded, and
/// snapshots never lower them; the interval counts are what was recorded since the last
/// snapshot, added to the starting interval counts where the run takes no snapshot.
pub proof fn lemma_counts_over_steps(v: PacketStatsView, steps: Seq<StatsStep>)
    ensures
        after_steps(v, steps).total_packets == v.total_packets + recorded(steps).0,
        after_steps(v, steps).total_bytes == v.total_bytes + recorded(steps).1,
        since_last_snapshot(steps).len() < steps.len() ==> {
            &&& after_steps(v, steps).packets_since_snapshot == recorded(
                since_last_snapshot(steps),
            ).0
            &&& after_steps(v, steps).bytes_since_snapshot == recorded(
                since_last_snapshot(steps),
            ).1
        },
        since_last_snapshot(steps).len() == steps.len() ==> {
            &&& after_steps(v, steps).packets_since_snapshot == v.packets_since_snapshot
                + recorded(steps).0
            &&& after_steps(v, steps).bytes_since_snapshot == v.bytes_since_snapshot + recorded(
                steps,
            ).1
        },
    decreases steps.len(),
{
    if steps.len() > 0 {
        let before = steps.drop_last();
        lemma_counts_over_steps(v, before);
        lemma_since_last_snapshot_len(before);
        match steps.last() {
            StatsStep::Record(_) => {
                let tail = since_last_snapshot(before);
                assert(since_last_snapshot(steps) == tail.push(steps.last()));
                assert(tail.push(steps.last()).drop_last() =~= tail);
            },
            StatsStep::Snapshot(_) => {
                assert(since_last_snapshot(steps).len() == 0);
            },
        }
    }
}

/// The instant of the last snapshot among `steps`, where there is one.
pub open spec fn last_snapshot_instant(steps: Seq<StatsStep>) -> Option<Instant>
    decreases steps.len(),
{
    if steps.len() == 0 {
        None
    } else {
        match steps.last() {
            StatsStep::Snapshot(now) => Some(now),
            StatsStep::Record(_) => last_snapshot_instant(steps.drop_last()),
        }
    }
}

/// Every snapshot starts the next interval at the instant it was taken, whatever was
/// counted before it, and recording packets never moves that start: after any run of
/// calls the current interval started at the last snapshot, or where it started before
/// the run if the run takes none.
pub proof fn lemma_interval_start_over_steps(v: PacketStatsView, steps: Seq<StatsStep>)
    ensures
        after_steps(v, steps).last_snapshot_at == (match last_snapshot_instant(steps) {
            Some(now) => now,
            None => v.last_snapshot_at,
        }),
    decreases steps.len(),
{
    if steps.len() > 0 {
        lemma_interval_start_over_steps(v, steps.drop_last());
    }
}

proof fn lemma_since_last_snapshot_len(steps: Seq<StatsStep>)
    ensures
        since_last_snapshot(steps).len() <= steps.len(),
    decreases steps.len(),
{
    if steps.len() > 0 {
        lemma_since_last_snapshot_len(steps.drop_last());
    }
}

/// The totals of a packet counter.
#[derive(Debug, Clone, Copy, PartialEq, Eq, Structural)]
pub struct PacketStatsTotals {
    pub total_packets: u64,
    pub total_bytes: u64,
}

/// What a snapshot reads: the totals, and the counts of the interval that the
/// snapshot closes, with the instants that bound it.
#[derive(Debug, Clone, Copy)]
pub struct StatsInterval {
    pub total_packets: u64,
    pub total_bytes: u64,
    pub packets_since_snapshot: u64,
    pub bytes_since_snapshot: u64,
    pub previous_snapshot_at: Instant,
    pub taken_at: Instant,
}

/// Counts packets and bytes, in total and since the last snapshot.
#[derive(Debug)]
pub struct PacketStats {
    total_packets: u64,
    total_bytes: u64,
    packets_since_snapshot: u64,
    bytes_since_snapshot: u64,
    last_snapshot_at: Instant,
}

impl View for PacketStats {
    type V = PacketStatsView;

    closed spec fn view(&self) -> PacketStatsView {
        PacketStatsView {
            total_packets: self.total_packets as nat,
            total_bytes: self.total_bytes as nat,
            packets_since_snapshot: self.packets_since_snapshot as nat,
            bytes_since_snapshot: self.bytes_since_snapshot as nat,
            last_snapshot_at: self.last_snapshot_at,
        }
    }
}

impl PacketStats {
    #[verifier::type_invariant]
    closed spec fn counts_wf(self) -> bool {
        &&& self.packets_since_snapshot <= self.total_packets
        &&& self.bytes_since_snapshot <= self.total_bytes
    }

    /// A counter with nothing counted, whose first interval starts now.
    pub fn new() -> (s: Self)
        ensures
            s@.total_packets == 0,
            s@.total_bytes == 0,
            s@.packets_since_snapshot == 0,
            s@.bytes_since_snapshot == 0,
    {
        Self::with_started_at(clock_now())
    }

    /// A counter with nothing counted, whose first interval starts at `started_at`.
    pub fn with_started_at(started_at: Instant) -> (s: Self)
        ensures
            s@.total_packets == 0,
            s@.total_bytes == 0,
            s@.packets_since_snapshot == 0,
            s@.bytes_since_snapshot == 0,
            s@.last_snapshot_at == started_at,
    {
        PacketStats {
            total_packets: 0,
            total_bytes: 0,
            packets_since_snapshot: 0,
            bytes_since_snapshot: 0,
            last_snapshot_at: started_at,
        }
    }

    /// Counts one packet of `bytes` bytes.
    pub fn record_packet(&mut self, bytes: usize)
        requires
            old(self)@.total_packets < u64::MAX,
            old(self)@.total_bytes + bytes <= u64::MAX,
        ensures
            final(self)@ == after_recording(old(self)@, bytes as nat),
            packet_counts_wf(final(self)@),
            final(self)@.total_packets == old(self)@.total_packets + 1,
            final(self)@.total_bytes == old(self)@.total_bytes + bytes,
            final(self)@.packets_since_snapshot == old(self)@.packets_since_snapshot + 1,
            final(self)@.bytes_since_snapshot == old(self)@.bytes_since_snapshot + bytes,
            final(self)@.last_snapshot_at == old(self)@.last_snapshot_at,
        no_unwind
    {
        proof {
            use_type_invariant(&*self);
        }
        let bytes = bytes as u64;
        self.total_packets += 1;
        self.total_bytes += bytes;
        self.packets_since_snapshot += 1;
        self.bytes_since_snapshot += bytes;
    }

    /// Closes the current interval at `now`: reads the totals and the interval's
    /// counts, then starts a new interval at `now`.
    pub fn snapshot_at(&mut self, now: Instant) -> (r: StatsInterval)
        ensures
            final(self)@ == after_snapshot(old(self)@, now),
            packet_counts_wf(final(self)@),
            final(self)@.last_snapshot_at == now,
            final(self)@.packets_since_snapshot == 0,
            final(self)@.bytes_since_snapshot == 0,
            final(self)@.total_packets == old(self)@.total_packets,
            final(self)@.total_bytes == old(self)@.total_bytes,
            r.total_packets == old(self)@.total_packets,
            r.total_bytes == old(self)@.total_bytes,
            r.packets_since_snapshot == old(self)@.packets_since_snapshot,
            r.bytes_since_snapshot == old(self)@.bytes_since_snapshot,
            r.previous_snapshot_at == old(self)@.last_snapshot_at,
            r.taken_at == now,
        no_unwind
    {
        proof {
            use_type_invariant(&*self);
        }
        let previous_snapshot_at = self.last_snapshot_at;
        let packets_since_snapshot = self.packets_since_snapshot;
        let bytes_since_snapshot = self.bytes_since_snapshot;
        self.last_snapshot_at = now;
        self.packets_since_snapshot = 0;
        self.bytes_since_snapshot = 0;
        StatsInterval {
            total_packets: self.total_packets,
            total_bytes: self.total_bytes,
            packets_since_snapshot,
            bytes_since_snapshot,
            previous_snapshot_at,
            taken_at: now,
        }
    }

    /// Closes the current interval at the current instant.
    pub fn snapshot(&mut self) -> (r: StatsInterval)
        ensures
            final(self)@ == after_snapshot(old(self)@, r.taken_at),
            final(self)@.last_snapshot_at == r.taken_at,
            final(self)@.packets_since_snapshot == 0,
            final(self)@.bytes_since_snapshot == 0,
            final(self)@.total_packets == old(self)@.total_packets,
            final(self)@.total_bytes == old(self)@.total_bytes,
            r.total_packets == old(self)@.total_packets,
            r.total_bytes == old(self)@.total_bytes,
            r.packets_since_snapshot == old(self)@.packets_since_snapshot,
            r.bytes_since_snapshot == old(self)@.bytes_since_snapshot,
            r.previous_snapshot_at == old(self)@.last_snapshot_at,
    {
        self.snapshot_at(clock_now())
    }

    /// Packets counted so far.
    pub fn total_packets(&self) -> (n: u64)
        ensures
            n == self@.total_packets,
    {
        self.total_packets
    }

    /// Bytes counted so far.
    pub fn total_bytes(&self) -> (n: u64)
        ensures
            n == self@.total_bytes,
    {
        self.total_bytes
    }

    /// The totals counted so far.
    pub fn totals(&self) -> (t: PacketStatsTotals)
        ensures
            t.total_packets == self@.total_packets,
            t.total_bytes == self@.total_bytes,
    {
        PacketStatsTotals { total_packets: self.total_packets, total_bytes: self.total_bytes }
    }
}

/// What a receiver's counters hold: the packet counts and what it knows of the
/// sequence numbers.
pub struct ReceiverStatsView {
    pub packets: PacketStatsView,
    pub sequence: SequenceView,
}

/// What every receiver's counters keep: well-formed counts and sequence knowledge,
/// and no more out-of-order packets than packets.
pub open spec fn receiver_counts_wf(v: ReceiverStatsView) -> bool {
    &&& packet_counts_wf(v.packets)
    &&& sequence_view_wf(v.sequence)
    &&& v.sequence.out_of_order_packets <= v.packets.total_packets
}

/// One call on a receiver's counters, for stating what a run of calls does: a packet
/// with its sequence number and size, or a snapshot at an instant.
pub enum ReceiverStep {
    Record(u64, usize),
    Snapshot(Instant),
}

/// The receiver's counters after the calls `steps`, in that order.
pub open spec fn receiver_after_steps(v: ReceiverStatsView, steps: Seq<ReceiverStep>) -> ReceiverStatsView
    decreases steps.len(),
{
    if steps.len() == 0 {
        v
    } else {
        let before = receiver_after_steps(v, steps.drop_last());
        match steps.last() {
            ReceiverStep::Record(number, bytes) => ReceiverStatsView {
                packets: after_recording(before.packets, bytes as nat),
                sequence: after_packet(before.sequence, number),
            },
            ReceiverStep::Snapshot(now) => ReceiverStatsView {
                packets: after_snapshot(before.packets, now),
                sequence: before.sequence,
            },
        }
    }
}

/// The sequence numbers that `steps` record, in order.
pub open spec fn recorded_numbers(steps: Seq<ReceiverStep>) -> Seq<u64>
    decreases steps.len(),
{
    if steps.len() == 0 {
        Seq::empty()
    } else {
        match steps.last() {
            ReceiverStep::Record(number, _) => recorded_numbers(steps.drop_last()).push(number),
            ReceiverStep::Snapshot(_) => recorded_numbers(steps.drop_last()),
        }
    }
}

/// Snapshots leave what a receiver knows of sequence numbers alone: after any run of
/// calls it knows what the recorded numbers alone give. From a receiver that has seen
/// nothing, the missing count is then the number of numbers between the first and the
/// highest recorded that were never recorded.
pub proof fn lemma_receiver_sequence_over_steps(v: ReceiverStatsView, steps: Seq<ReceiverStep>)
    ensures
        receiver_after_steps(v, steps).sequence == after_packets(v.sequence, recorded_numbers(steps)),
        ({
            let numbers = recorded_numbers(steps);
            let w = receiver_after_steps(v, steps).sequence;
            v.sequence == fresh_view() && numbers.len() > 0 ==> {
                &&& w.missing_packets == w.missing.len()
                &&& w.highest_seen matches Some(h) && forall|x: int|
                    w.missing.contains(x) <==> (numbers[0] < x < h && forall|i: int|
                        0 <= i < numbers.len() ==> numbers[i] != x)
            }
        }),
    decreases steps.len(),
{
    if steps.len() > 0 {
        let before = steps.drop_last();
        lemma_receiver_sequence_over_steps(v, before);
        if let ReceiverStep::Record(number, _) = steps.last() {
            assert(recorded_numbers(before).push(number).drop_last() =~= recorded_numbers(before));
        }
    }
    if v.sequence == fresh_view() && recorded_numbers(steps).len() > 0 {
        lemma_missing_are_skipped_numbers(recorded_numbers(steps));
    }
}

/// The instant of the last snapshot among a receiver's `steps`, where there is one.
pub open spec fn receiver_last_snapshot_instant(steps: Seq<ReceiverStep>) -> Option<Instant>
    decreases steps.len(),
{
    if steps.len() == 0 {
        None
    } else {
        match steps.last() {
            ReceiverStep::Snapshot(now) => Some(now),
            ReceiverStep::Record(_, _) => receiver_last_snapshot_instant(steps.drop_last()),
        }
    }
}

/// A receiver's snapshots start the next interval at the instant they were taken,
/// whatever was counted, and recording never moves that start.
pub proof fn lemma_receiver_interval_start_over_steps(
    v: ReceiverStatsView,
    steps: Seq<ReceiverStep>,
)
    ensures
        receiver_after_steps(v, steps).packets.last_snapshot_at == (
        match receiver_last_snapshot_instant(steps) {
            Some(now) => now,
            None => v.packets.last_snapshot_at,
        }),
    decreases steps.len(),
{
    if steps.len() > 0 {
        lemma_receiver_interval_start_over_steps(v, steps.drop_last());
    }
}

/// The totals of a receiver's counters.
#[derive(Debug, Clone, Copy, PartialEq, Eq, Structural)]
pub struct ReceiverPacketStatsTotals {
    pub total_packets: u64,
    pub total_bytes: u64,
    pub out_of_order_packets: u64,
    pub missing_packets: u64,
}

/// What a receiver's snapshot reads: the packet counts of the interval it closes,
/// and the sequence counters.
#[derive(Debug, Clone, Copy)]
pub struct ReceiverStatsInterval {
    pub total_packets: u64,
    pub total_bytes: u64,
    pub packets_since_snapshot: u64,
    pub bytes_since_snapshot: u64,
    pub previous_snapshot_at: Instant,
    pub taken_at: Instant,
    pub out_of_order_packets: u64,
    pub missing_packets: u64,
}

/// The counters of a receiver: packets and bytes, and the sequence numbers seen.
#[derive(Debug)]
pub struct ReceiverPacketStats {
    packet_stats: PacketStats,
    sequence_stats: SequenceTracker,
}

impl View for ReceiverPacketStats {
    type V = ReceiverStatsView;

    closed spec fn view(&self) -> ReceiverStatsView {
        ReceiverStatsView { packets: self.packet_stats@, sequence: self.sequence_stats@ }
    }
}

impl ReceiverPacketStats {
    #[verifier::type_invariant]
    closed spec fn parts_wf(self) -> bool {
        &&& self.sequence_stats.wf()
        &&& self.sequence_stats@.out_of_order_packets <= self.packet_stats@.total_packets
    }

    /// A receiver that has seen nothing, whose first interval starts now.
    pub fn new() -> (s: Self)
        ensures
            s@.packets.total_packets == 0,
            s@.packets.total_bytes == 0,
            s@.packets.packets_since_snapshot == 0,
            s@.packets.bytes_since_snapshot == 0,
            s@.sequence == fresh_view(),
            receiver_counts_wf(s@),
    {
        Self::with_started_at(clock_now())
    }

    /// A receiver that has seen nothing, whose first interval starts at `started_at`.
    pub fn with_started_at(started_at: Instant) -> (s: Self)
        ensures
            s@.packets.total_packets == 0,
            s@.packets.total_bytes == 0,
            s@.packets.packets_since_snapshot == 0,
            s@.packets.bytes_since_snapshot == 0,
            s@.packets.last_snapshot_at == started_at,
            s@.sequence == fresh_view(),
            receiver_counts_wf(s@),
    {
        ReceiverPacketStats {
            packet_stats: PacketStats::with_started_at(started_at),
            sequence_stats: SequenceTracker::new(),
        }
    }

    /// Counts a received packet of `bytes` bytes numbered `sequence_number`.
    pub fn record_packet(&mut self, sequence_number: u64, bytes: usize)
        requires
            old(self)@.packets.total_packets < u64::MAX,
            old(self)@.packets.total_bytes + bytes <= u64::MAX,
        ensures
            final(self)@.packets == after_recording(old(self)@.packets, bytes as nat),
            final(self)@.sequence == after_packet(old(self)@.sequence, sequence_number),
            receiver_counts_wf(final(self)@),
            final(self)@.packets.total_packets == old(self)@.packets.total_packets + 1,
            final(self)@.packets.total_bytes == old(self)@.packets.total_bytes + bytes,
            final(self)@.packets.last_snapshot_at == old(self)@.packets.last_snapshot_at,
            old(self)@.sequence.highest_seen is Some && sequence_number > old(self)@.sequence.highest_seen->0 ==> {
                &&& final(self)@.sequence.out_of_order_packets
                    == old(self)@.sequence.out_of_order_packets
                &&& final(self)@.sequence.missing_packets
                    == old(self)@.sequence.missing_packets + (sequence_number - old(self)@.sequence.highest_seen->0 - 1)
                &&& final(self)@.sequence.highest_seen == Some(sequence_number)
            },
            old(self)@.sequence.missing.contains(sequence_number as int) ==> {
                &&& final(self)@.sequence.out_of_order_packets
                    == old(self)@.sequence.out_of_order_packets + 1
                &&& final(self)@.sequence.missing_packets + 1
                    == old(self)@.sequence.missing_packets
                &&& !final(self)@.sequence.missing.contains(sequence_number as int)
            },
    {
        proof {
            use_type_invariant(&*self);
            self.sequence_stats.lemma_view_wf();
            lemma_arrival_counts(self.sequence_stats@, sequence_number);
        }
        self.packet_stats.record_packet(bytes);
        let mut sequence_stats = SequenceTracker::new();
        std::mem::swap(&mut sequence_stats, &mut self.sequence_stats);
        sequence_stats.record_packet(sequence_number);
        self.sequence_stats = sequence_stats;
        proof {
            use_type_invariant(&*self);
            use_type_invariant(&self.packet_stats);
            self.sequence_stats.lemma_view_wf();
        }
    }

    /// Closes the current interval at `now` and reads the counters.
    pub fn snapshot_at(&mut self, now: Instant) -> (r: ReceiverStatsInterval)
        ensures
            final(self)@.packets == after_snapshot(old(self)@.packets, now),
            final(self)@.packets.last_snapshot_at == now,
            final(self)@.packets.packets_since_snapshot == 0,
            final(self)@.packets.bytes_since_snapshot == 0,
            final(self)@.packets.total_packets == old(self)@.packets.total_packets,
            final(self)@.packets.total_bytes == old(self)@.packets.total_bytes,
            final(self)@.sequence == old(self)@.sequence,
            receiver_counts_wf(final(self)@),
            r.total_packets == old(self)@.packets.total_packets,
            r.total_bytes == old(self)@.packets.total_bytes,
            r.packets_since_snapshot == old(self)@.packets.packets_since_snapshot,
            r.bytes_since_snapshot == old(self)@.packets.bytes_since_snapshot,
            r.previous_snapshot_at == old(self)@.packets.last_snapshot_at,
            r.taken_at == now,
            r.out_of_order_packets == old(self)@.sequence.out_of_order_packets,
            r.missing_packets == old(self)@.sequence.missing_packets,
    {
        proof {
            use_type_invariant(&*self);
        }
        let packet_snapshot = self.packet_stats.snapshot_at(now);
        let sequence_snapshot = self.sequence_stats.snapshot();
        proof {
            use_type_invariant(&*self);
            use_type_invariant(&self.packet_stats);
            self.sequence_stats.lemma_view_wf();
        }
        ReceiverStatsInterval {
            total_packets: packet_snapshot.total_packets,
            total_bytes: packet_snapshot.total_bytes,
            packets_since_snapshot: packet_snapshot.packets_since_snapshot,
            bytes_since_snapshot: packet_snapshot.bytes_since_snapshot,
            previous_snapshot_at: packet_snapshot.previous_snapshot_at,
            taken_at: packet_snapshot.taken_at,
            out_of_order_packets: sequence_snapshot.out_of_order_packets,
            missing_packets: sequence_snapshot.missing_packets,
        }
    }

    /// Closes the current interval at the current instant and reads the counters.
    pub fn snapshot(&mut self) -> (r: ReceiverStatsInterval)
        ensures
            final(self)@.packets == after_snapshot(old(self)@.packets, r.taken_at),
            final(self)@.packets.last_snapshot_at == r.taken_at,
            final(self)@.packets.packets_since_snapshot == 0,
            final(self)@.packets.bytes_since_snapshot == 0,
            final(self)@.packets.total_packets == old(self)@.packets.total_packets,
            final(self)@.packets.total_bytes == old(self)@.packets.total_bytes,
            final(self)@.sequence == old(self)@.sequence,
            receiver_counts_wf(final(self)@),
            r.total_packets == old(self)@.packets.total_packets,
            r.total_bytes == old(self)@.packets.total_bytes,
            r.packets_since_snapshot == old(self)@.packets.packets_since_snapshot,
            r.bytes_since_snapshot == old(self)@.packets.bytes_since_snapshot,
            r.previous_snapshot_at == old(self)@.packets.last_snapshot_at,
            r.out_of_order_packets == old(self)@.sequence.out_of_order_packets,
            r.missing_packets == old(self)@.sequence.missing_packets,
    {
        self.snapshot_at(clock_now())
    }

    /// Packets counted so far.
    pub fn total_packets(&self) -> (n: u64)
        ensures
            n == self@.packets.total_packets,
    {
        self.packet_stats.total_packets()
    }

    /// Bytes counted so far.
    pub fn total_bytes(&self) -> (n: u64)
        ensures
            n == self@.packets.total_bytes,
    {
        self.packet_stats.total_bytes()
    }

    /// Packets that arrived late so far.
    pub fn out_of_order_packets(&self) -> (n: u64)
        ensures
            n == self@.sequence.out_of_order_packets,
    {
        self.sequence_stats.snapshot().out_of_order_packets
    }

    /// Sequence numbers still awaited.
    pub fn missing_packets(&self) -> (n: u64)
        ensures
            n == self@.sequence.missing_packets,
    {
        self.sequence_stats.snapshot().missing_packets
    }

    /// The totals counted so far.
    pub fn totals(&self) -> (t: ReceiverPacketStatsTotals)
        ensures
            t.total_packets == self@.packets.total_packets,
            t.total_bytes == self@.packets.total_bytes,
            t.out_of_order_packets == self@.sequence.out_of_order_packets,
            t.missing_packets == self@.sequence.missing_packets,
    {
        let sequence = self.sequence_stats.snapshot();
        ReceiverPacketStatsTotals {
            total_packets: self.packet_stats.total_packets(),
            total_bytes: self.packet_stats.total_bytes(),
            out_of_order_packets: sequence.out_of_order_packets,
            missing_packets: sequence.missing_packets,
        }
    }
}

} // verus!
