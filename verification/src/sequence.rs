//! Tracking of received sequence numbers: which are still missing, and how
//! many packets arrived out of order.

use std::collections::BTreeMap;
use vstd::prelude::*;
use vstd::set_lib::set_int_range;
use crate::ranges::{
    covered, covers, entry_at_or_below, first_entry, is_lowest_start, lemma_add_range_above,
    lemma_without_number, ranges_disjoint, ranges_wf, without_number,
};

verus! {

/// What a receiver knows of the sequence numbers it has seen.
pub struct SequenceView {
    /// The number of the first packet; `None` before it arrives.
    pub first_seen: Option<u64>,
    /// The highest sequence number seen so far; `None` before the first packet.
    pub highest_seen: Option<u64>,
    /// The numbers below the highest one seen that are still awaited.
    pub missing: Set<int>,
    /// Packets that arrived late: those that filled a missing number, and repeats of
    /// numbers below the next expected one.
    pub out_of_order_packets: nat,
    /// How many numbers are still awaited.
    pub missing_packets: nat,
}

/// `n + 1`, or `n` where that does not fit a `u64`.
pub open spec fn saturating_successor(n: u64) -> int {
    if n == u64::MAX {
        n as int
    } else {
        n + 1
    }
}

/// `s` lies below the next expected number: below every missing number and
/// below the successor of the highest number seen `h`.
pub open spec fn below_next_expected(v: SequenceView, h: u64, s: u64) -> bool {
    &&& forall|x: int| #[trigger] v.missing.contains(x) ==> s < x
    &&& s < saturating_successor(h)
}

/// What the receiver knows after a packet numbered `s` arrives.
/// - The first packet only sets the highest number seen.
/// - A number above the highest seen makes every number in between missing.
/// - A missing number is no longer missing, and its packet counts as out of order.
/// - A repeated number below the next expected one counts as out of order.
/// - Any other repeat changes nothing.
pub open spec fn after_packet(v: SequenceView, s: u64) -> SequenceView {
    match v.highest_seen {
        None => SequenceView { first_seen: Some(s), highest_seen: Some(s), ..v },
        Some(h) => if s > h {
            SequenceView {
                highest_seen: Some(s),
                missing: v.missing.union(set_int_range(h + 1, s as int)),
                missing_packets: v.missing_packets + (s - h - 1) as nat,
                ..v
            }
        } else if v.missing.contains(s as int) {
            SequenceView {
                missing: v.missing.remove(s as int),
                out_of_order_packets: v.out_of_order_packets + 1,
                missing_packets: (v.missing_packets - 1) as nat,
                ..v
            }
        } else if below_next_expected(v, h, s) {
            SequenceView { out_of_order_packets: v.out_of_order_packets + 1, ..v }
        } else {
            v
        },
    }
}

/// What holds of every state a receiver can reach: before the first packet nothing
/// is known; after it, the first number is at most the highest one, the missing numbers
/// are finitely many and lie strictly between the two, and the missing count is how
/// many there are.
pub open spec fn sequence_view_wf(v: SequenceView) -> bool {
    match v.highest_seen {
        None => {
            &&& v.first_seen is None
            &&& v.missing.is_empty()
            &&& v.out_of_order_packets == 0
            &&& v.missing_packets == 0
        },
        Some(h) => {
            &&& v.first_seen matches Some(f) && f <= h && forall|x: int| #[trigger]
                v.missing.contains(x) ==> f < x < h
            &&& v.missing.finite()
            &&& v.missing_packets == v.missing.len()
        },
    }
}

/// What a receiver that has seen nothing knows.
pub open spec fn fresh_view() -> SequenceView {
    SequenceView {
        first_seen: None,
        highest_seen: None,
        missing: Set::empty(),
        out_of_order_packets: 0,
        missing_packets: 0,
    }
}

/// What the receiver knows after the packets numbered `numbers` arrive, in that order.
pub open spec fn after_packets(v: SequenceView, numbers: Seq<u64>) -> SequenceView
    decreases numbers.len(),
{
    if numbers.len() == 0 {
        v
    } else {
        after_packet(after_packets(v, numbers.drop_last()), numbers.last())
    }
}

/// Every arrival keeps the receiver's knowledge well formed: the missing numbers stay
/// finitely many and below the highest number seen, and the missing count stays their number.
pub proof fn lemma_after_packet_keeps_wf(v: SequenceView, s: u64)
    requires
        sequence_view_wf(v),
    ensures
        sequence_view_wf(after_packet(v, s)),
{
    if let Some(h) = v.highest_seen {
        if s > h {
            let gap = set_int_range(h + 1, s as int);
            vstd::set_lib::lemma_int_range(h + 1, s as int);
            assert(v.missing.disjoint(gap));
            vstd::set_lib::lemma_set_disjoint_lens(v.missing, gap);
        }
    }
}

/// What one arrival can change: the out-of-order count grows by at most one, the
/// missing count drops by at most one and only when the out-of-order count grows, the
/// highest number seen becomes the larger of the old one and the number that arrived,
/// the first number seen stays once set, and the number that arrived is not missing
/// afterwards.
pub proof fn lemma_after_packet_progress(v: SequenceView, s: u64)
    requires
        sequence_view_wf(v),
    ensures
        ({
            let w = after_packet(v, s);
            &&& w.out_of_order_packets == v.out_of_order_packets || w.out_of_order_packets
                == v.out_of_order_packets + 1
            &&& w.missing_packets + 1 >= v.missing_packets
            &&& w.missing_packets < v.missing_packets ==> w.out_of_order_packets
                == v.out_of_order_packets + 1
            &&& w.highest_seen == Some(
                match v.highest_seen {
                    None => s,
                    Some(h) => if s > h {
                        s
                    } else {
                        h
                    },
                },
            )
            &&& w.first_seen == (if v.first_seen is None {
                Some(s)
            } else {
                v.first_seen
            })
            &&& !w.missing.contains(s as int)
        }),
{
}

/// What one arrival does to the counts, case by case.
/// - The first packet changes no count and leaves nothing missing.
/// - A number above the highest seen never counts as out of order; every number
///   strictly between the two becomes missing, and the missing count grows by how
///   many those are.
/// - A missing number counts as out of order, once, and is no longer missing.
/// - Any other number at or below the highest seen leaves the missing numbers alone,
///   and counts as out of order exactly when it lies below every missing number and
///   below the successor of the highest number seen.
pub proof fn lemma_arrival_counts(v: SequenceView, s: u64)
    requires
        sequence_view_wf(v),
    ensures
        ({
            let w = after_packet(v, s);
            match v.highest_seen {
                None => {
                    &&& w.out_of_order_packets == v.out_of_order_packets
                    &&& w.missing_packets == 0
                    &&& w.missing.is_empty()
                    &&& w.highest_seen == Some(s)
                    &&& w.first_seen == Some(s)
                },
                Some(h) => {
                    &&& s > h ==> {
                        &&& w.out_of_order_packets == v.out_of_order_packets
                        &&& w.missing_packets == v.missing_packets + (s - h - 1)
                        &&& forall|x: int|
                            w.missing.contains(x) <==> (v.missing.contains(x) || h < x < s)
                        &&& w.highest_seen == Some(s)
                    }
                    &&& s <= h && v.missing.contains(s as int) ==> {
                        &&& w.out_of_order_packets == v.out_of_order_packets + 1
                        &&& w.missing_packets + 1 == v.missing_packets
                        &&& forall|x: int|
                            w.missing.contains(x) <==> (v.missing.contains(x) && x != s)
                        &&& w.highest_seen == v.highest_seen
                    }
                    &&& s <= h && !v.missing.contains(s as int) ==> {
                        &&& w.missing == v.missing
                        &&& w.missing_packets == v.missing_packets
                        &&& w.highest_seen == v.highest_seen
                        &&& w.out_of_order_packets == v.out_of_order_packets + (if (forall|x: int|
                            v.missing.contains(x) ==> s < x) && (s < h || h < u64::MAX) {
                            1int
                        } else {
                            0int
                        })
                    }
                    &&& w.first_seen == v.first_seen
                },
            }
        }),
{
    lemma_after_packet_keeps_wf(v, s);
}

/// A number that arrived before arrives again: the missing numbers, the missing count
/// and the first and highest numbers seen stay as they are, and the packet counts as
/// out of order exactly when its number lies below the next expected one.
pub proof fn lemma_repeated_number(numbers: Seq<u64>, i: int)
    requires
        0 <= i < numbers.len(),
    ensures
        ({
            let v = after_packets(fresh_view(), numbers);
            let w = after_packet(v, numbers[i]);
            v.highest_seen matches Some(h) && {
                &&& w.missing == v.missing
                &&& w.missing_packets == v.missing_packets
                &&& w.first_seen == v.first_seen
                &&& w.highest_seen == v.highest_seen
                &&& w.out_of_order_packets == v.out_of_order_packets + (if below_next_expected(
                    v,
                    h,
                    numbers[i],
                ) {
                    1int
                } else {
                    0int
                })
            }
        }),
{
    lemma_missing_are_skipped_numbers(numbers);
    let v = after_packets(fresh_view(), numbers);
    assert(!v.missing.contains(numbers[i] as int));
}

/// The numbers a receiver awaits are exactly those between the first number that
/// arrived and the highest one that have not arrived; the missing count is how many
/// there are.
pub proof fn lemma_missing_are_skipped_numbers(numbers: Seq<u64>)
    requires
        numbers.len() > 0,
    ensures
        ({
            let v = after_packets(fresh_view(), numbers);
            &&& sequence_view_wf(v)
            &&& v.first_seen == Some(numbers[0])
            &&& v.highest_seen matches Some(h) && {
                &&& numbers.contains(h)
                &&& forall|i: int| 0 <= i < numbers.len() ==> numbers[i] <= h
                &&& forall|x: int|
                    v.missing.contains(x) <==> (numbers[0] < x < h && forall|i: int|
                        0 <= i < numbers.len() ==> numbers[i] != x)
            }
        }),
    decreases numbers.len(),
{
    let v = after_packets(fresh_view(), numbers);
    let s = numbers.last();
    let before = numbers.drop_last();
    if numbers.len() == 1 {
        assert(after_packets(fresh_view(), before) == fresh_view());
        assert(numbers.contains(numbers[0]));
        assert(v.missing =~= Set::empty());
    } else {
        lemma_missing_are_skipped_numbers(before);
        let u = after_packets(fresh_view(), before);
        lemma_after_packet_keeps_wf(u, s);
        let h = u.highest_seen->0;
        assert(before[0] == numbers[0]);
        assert forall|i: int| 0 <= i < before.len() implies numbers[i] == before[i] by {}
        if s > h {
            assert(numbers.contains(s)) by {
                assert(numbers[numbers.len() - 1] == s);
            }
            assert forall|i: int| 0 <= i < numbers.len() implies numbers[i] <= s by {
                if i < before.len() {
                    assert(before[i] <= h);
                }
            }
            assert forall|x: int| v.missing.contains(x) <==> (numbers[0] < x < s && forall|i: int|
                0 <= i < numbers.len() ==> numbers[i] != x) by {
                if h < x < s {
                    assert forall|i: int| 0 <= i < numbers.len() implies numbers[i] != x by {
                        if i < before.len() {
                            assert(before[i] <= h);
                        }
                    }
                }
                if x == h {
                    let j = choose|j: int| 0 <= j < before.len() && before[j] == h;
                    assert(numbers[j] == h);
                }
                if x < h && !u.missing.contains(x) && numbers[0] < x {
                    let j = choose|j: int| 0 <= j < before.len() && before[j] == x;
                    assert(numbers[j] == x);
                }
                if x < h && u.missing.contains(x) {
                    assert forall|i: int| 0 <= i < numbers.len() implies numbers[i] != x by {
                        if i < before.len() {
                            assert(before[i] != x);
                        }
                    }
                }
            }
        } else {
            let j = choose|j: int| 0 <= j < before.len() && before[j] == h;
            assert(numbers[j] == h);
            assert forall|i: int| 0 <= i < numbers.len() implies numbers[i] <= h by {
                if i < before.len() {
                    assert(before[i] <= h);
                }
            }
            assert forall|x: int| v.missing.contains(x) <==> (numbers[0] < x < h && forall|i: int|
                0 <= i < numbers.len() ==> numbers[i] != x) by {
                if x == s {
                    assert(numbers[numbers.len() - 1] == s);
                } else {
                    if u.missing.contains(x) {
                        assert forall|i: int| 0 <= i < numbers.len() implies numbers[i] != x by {
                            if i < before.len() {
                                assert(before[i] != x);
                            }
                        }
                    } else if numbers[0] < x < h {
                        let k = choose|k: int| 0 <= k < before.len() && before[k] == x;
                        assert(numbers[k] == x);
                    }
                }
            }
        }
    }
}

/// Packets that arrive one after another with consecutive numbers leave nothing missing
/// and none out of order.
pub proof fn lemma_consecutive_arrival(first: u64, count: nat)
    requires
        first + count <= u64::MAX + 1,
    ensures
        ({
            let v = after_packets(fresh_view(), Seq::new(count, |i: int| (first + i) as u64));
            &&& v.missing.is_empty()
            &&& v.missing_packets == 0
            &&& v.out_of_order_packets == 0
            &&& count > 0 ==> v.highest_seen == Some((first + count - 1) as u64)
        }),
    decreases count,
{
    let numbers = Seq::new(count, |i: int| (first + i) as u64);
    if count > 0 {
        let before = Seq::new((count - 1) as nat, |i: int| (first + i) as u64);
        assert(numbers.drop_last() =~= before);
        lemma_consecutive_arrival(first, (count - 1) as nat);
        let u = after_packets(fresh_view(), before);
        if count > 1 {
            assert(set_int_range(first + count - 1, first + count - 1) =~= Set::empty());
            assert(u.missing.union(set_int_range(first + count - 1, first + count - 1))
                =~= Set::empty());
        }
    }
}

/// Taking a number out of a finite set of numbers lowers its size by one where the
/// number was in it, and changes nothing where it was not.
proof fn lemma_remove_number(numbers: Set<int>, n: int)
    requires
        numbers.finite(),
    ensures
        numbers.contains(n) ==> numbers.remove(n).len() == numbers.len() - 1,
        !numbers.contains(n) ==> numbers.remove(n) == numbers,
{
    if !numbers.contains(n) {
        assert(numbers.remove(n) =~= numbers);
    }
}

/// The counters a sequence tracker reports.
#[derive(Debug, Clone, Copy, PartialEq, Eq, Structural)]
pub struct SequenceStatsSnapshot {
    pub out_of_order_packets: u64,
    pub missing_packets: u64,
}

/// Follows the sequence numbers of received packets.
#[derive(Debug)]
pub struct SequenceTracker {
    first_sequence_number_seen: Option<u64>,
    next_expected_sequence_number: Option<u64>,
    highest_sequence_number_seen: Option<u64>,
    missing_ranges: BTreeMap<u64, u64>,
    out_of_order_packets: u64,
    missing_packets: u64,
}

impl View for SequenceTracker {
    type V = SequenceView;

    closed spec fn view(&self) -> SequenceView {
        SequenceView {
            first_seen: self.first_sequence_number_seen,
            highest_seen: self.highest_sequence_number_seen,
            missing: covered(self.missing_ranges@),
            out_of_order_packets: self.out_of_order_packets as nat,
            missing_packets: self.missing_packets as nat,
        }
    }
}

impl SequenceTracker {
    /// The next expected number follows from the rest: the lowest missing number,
    /// or the successor of the highest one seen where none is missing.
    pub closed spec fn next_expected_wf(&self) -> bool {
        match (self.next_expected_sequence_number, self.highest_sequence_number_seen) {
            (None, None) => true,
            (Some(next), Some(h)) => if self.missing_ranges@.dom().is_empty() {
                next == saturating_successor(h)
            } else {
                is_lowest_start(self.missing_ranges@, next)
            },
            _ => false,
        }
    }

    /// The ranges are well formed, the view is well formed, and the next expected
    /// number follows from the rest.
    pub closed spec fn wf(&self) -> bool {
        &&& ranges_wf(self.missing_ranges@)
        &&& sequence_view_wf(self@)
        &&& self.next_expected_wf()
    }

    /// A well-formed tracker presents a well-formed view.
    pub proof fn lemma_view_wf(&self)
        requires
            self.wf(),
        ensures
            sequence_view_wf(self@),
    {
    }

    /// A tracker that has seen nothing.
    pub fn new() -> (t: Self)
        ensures
            t.wf(),
            t@ == fresh_view(),
    {
        let t = SequenceTracker {
            first_sequence_number_seen: None,
            next_expected_sequence_number: None,
            highest_sequence_number_seen: None,
            missing_ranges: BTreeMap::new(),
            out_of_order_packets: 0,
            missing_packets: 0,
        };
        proof {
            assert(covered(t.missing_ranges@) =~= Set::empty());
        }
        t
    }

    /// Takes `sequence_number` out of the missing ranges; says whether it was missing.
    fn remove_missing_sequence_number(&mut self, sequence_number: u64) -> (removed: bool)
        requires
            ranges_disjoint(old(self).missing_ranges@),
        ensures
            removed == covered(old(self).missing_ranges@).contains(sequence_number as int),
            !removed ==> final(self).missing_ranges@ == old(self).missing_ranges@,
            ranges_disjoint(final(self).missing_ranges@),
            ranges_wf(old(self).missing_ranges@) ==> ranges_wf(final(self).missing_ranges@),
            covered(final(self).missing_ranges@) == covered(old(self).missing_ranges@).remove(
                sequence_number as int,
            ),
            forall|k: u64| #[trigger]
                final(self).missing_ranges@.contains_key(k) ==> old(self).missing_ranges@.contains_key(k) || k == sequence_number + 1,
            forall|k: u64| #[trigger]
                old(self).missing_ranges@.contains_key(k) && k != sequence_number ==> final(self).missing_ranges@.contains_key(k),
            final(self).next_expected_sequence_number == old(self).next_expected_sequence_number,
            final(self).highest_sequence_number_seen == old(self).highest_sequence_number_seen,
            final(self).first_sequence_number_seen == old(self).first_sequence_number_seen,
            final(self).out_of_order_packets == old(self).out_of_order_packets,
            final(self).missing_packets == old(self).missing_packets,
    {
        let ghost ranges = self.missing_ranges@;
        let (range_start, range_end) = match entry_at_or_below(
            &self.missing_ranges,
            sequence_number,
        ) {
            Some(entry) => entry,
            None => {
                proof {
                    assert(!covers(ranges, sequence_number as int));
                    assert(covered(ranges).remove(sequence_number as int) =~= covered(ranges));
                }
                return false;
            },
        };
        if sequence_number > range_end {
            proof {
                assert(!covers(ranges, sequence_number as int)) by {
                    if covers(ranges, sequence_number as int) {
                        let k = choose|k: u64| #[trigger]
                            ranges.contains_key(k) && k <= sequence_number <= ranges[k];
                        if k < range_start {
                            assert(ranges[k] < range_start);
                        }
                    }
                }
                assert(covered(ranges).remove(sequence_number as int) =~= covered(ranges));
            }
            return false;
        }
        self.missing_ranges.remove(&range_start);
        if range_start < sequence_number {
            self.missing_ranges.insert(range_start, sequence_number.saturating_sub(1));
        }
        if sequence_number < range_end {
            self.missing_ranges.insert(sequence_number.saturating_add(1), range_end);
        }
        proof {
            lemma_without_number(ranges, range_start, sequence_number);
            assert(self.missing_ranges@ =~= without_number(ranges, range_start, sequence_number));
            assert(ranges.contains_key(range_start));
        }
        true
    }

    /// Moves the next expected number up to the lowest missing number, or past the
    /// highest number seen where none is missing.
    fn advance_next_expected_sequence_number(&mut self)
        requires
            old(self).next_expected_sequence_number is Some,
            old(self).highest_sequence_number_seen is Some,
            forall|k: u64| #[trigger]
                old(self).missing_ranges@.contains_key(k) ==> old(self).next_expected_sequence_number->0 <= k,
        ensures
            final(self).next_expected_sequence_number is Some,
            final(self).highest_sequence_number_seen == old(self).highest_sequence_number_seen,
            final(self).first_sequence_number_seen == old(self).first_sequence_number_seen,
            final(self).missing_ranges == old(self).missing_ranges,
            final(self).out_of_order_packets == old(self).out_of_order_packets,
            final(self).missing_packets == old(self).missing_packets,
            ({
                let next = old(self).next_expected_sequence_number->0;
                let h = old(self).highest_sequence_number_seen->0;
                let ranges = old(self).missing_ranges@;
                let new_next = final(self).next_expected_sequence_number->0;
                if next > h {
                    new_next == next
                } else if ranges.dom().is_empty() {
                    new_next == saturating_successor(h)
                } else {
                    is_lowest_start(ranges, new_next)
                }
            }),
    {
        let mut next_expected_sequence_number = self.next_expected_sequence_number.unwrap();
        let highest_sequence_number_seen = self.highest_sequence_number_seen.unwrap();
        if next_expected_sequence_number > highest_sequence_number_seen {
            return;
        }
        if let Some((range_start, _)) = first_entry(&self.missing_ranges) {
            if next_expected_sequence_number < range_start {
                next_expected_sequence_number = range_start;
            }
        } else {
            next_expected_sequence_number = highest_sequence_number_seen.saturating_add(1);
        }
        self.next_expected_sequence_number = Some(next_expected_sequence_number);
    }

    /// Facts that follow from well-formedness once a packet has been seen.
    proof fn lemma_started_facts(&self)
        requires
            self.wf(),
            self.highest_sequence_number_seen is Some,
        ensures
            self.next_expected_sequence_number is Some,
            ({
                let h = self.highest_sequence_number_seen->0;
                let next = self.next_expected_sequence_number->0;
                let ranges = self.missing_ranges@;
                &&& forall|k: u64| #[trigger] ranges.contains_key(k) ==> next <= k && ranges[k] < h
                &&& forall|x: int| #[trigger] covered(ranges).contains(x) ==> next <= x < h
                    && self.first_sequence_number_seen->0 < x
                &&& next <= saturating_successor(h)
                &&& !ranges.dom().is_empty() ==> covered(ranges).contains(next as int) && next < h
                &&& covered(ranges).finite()
                &&& covered(ranges).len() <= h
                &&& forall|s: u64|
                    s <= h ==> (below_next_expected(self@, h, s) <==> s < next)
            }),
    {
        let h = self.highest_sequence_number_seen->0;
        let next = self.next_expected_sequence_number->0;
        let ranges = self.missing_ranges@;
        assert forall|k: u64| #[trigger] ranges.contains_key(k) implies next <= k && ranges[k] < h by {
            assert(covered(ranges).contains(ranges[k] as int));
        }
        assert forall|x: int| #[trigger] covered(ranges).contains(x) implies next <= x < h
            && self.first_sequence_number_seen->0 < x by {
            let k = choose|k: u64| #[trigger] ranges.contains_key(k) && k <= x <= ranges[k];
        }
        if !ranges.dom().is_empty() {
            assert(covered(ranges).contains(next as int));
        }
        vstd::set_lib::lemma_int_range(0, h as int);
        vstd::set_lib::lemma_len_subset(covered(ranges), vstd::set_lib::set_int_range(0, h as int));
        assert forall|s: u64| s <= h implies (below_next_expected(self@, h, s) <==> s < next) by {
            if !ranges.dom().is_empty() {
                assert(covered(ranges).contains(next as int));
            }
        }
    }

    /// Records the arrival of the packet numbered `sequence_number`.
    pub fn record_packet(&mut self, sequence_number: u64)
        requires
            old(self).wf(),
            old(self)@.out_of_order_packets < u64::MAX,
        ensures
            final(self).wf(),
            final(self)@ == after_packet(old(self)@, sequence_number),
    {
        let ghost old_view = self@;
        let ghost ranges = self.missing_ranges@;
        let next_expected_sequence_number = match self.next_expected_sequence_number {
            Some(next) => next,
            None => {
                proof {
                    assert(ranges.dom().is_empty()) by {
                        if !ranges.dom().is_empty() {
                            let k = ranges.dom().choose();
                            assert(covered(ranges).contains(k as int));
                        }
                    }
                }
                self.first_sequence_number_seen = Some(sequence_number);
                self.next_expected_sequence_number = Some(sequence_number.saturating_add(1));
                self.highest_sequence_number_seen = Some(sequence_number);
                proof {
                    assert(self@ == after_packet(old_view, sequence_number));
                }
                return;
            },
        };
        let highest_sequence_number_seen = self.highest_sequence_number_seen.unwrap();
        proof {
            self.lemma_started_facts();
        }
        if sequence_number < next_expected_sequence_number {
            self.out_of_order_packets += 1;
            proof {
                assert(!covered(ranges).contains(sequence_number as int));
                assert(self@ == after_packet(old_view, sequence_number));
            }
            return;
        }
        if sequence_number == next_expected_sequence_number {
            if sequence_number <= highest_sequence_number_seen {
                let removed = self.remove_missing_sequence_number(sequence_number);
                if removed {
                    self.out_of_order_packets += 1;
                    self.missing_packets = self.missing_packets.saturating_sub(1);
                }
                proof {
                    lemma_remove_number(covered(ranges), sequence_number as int);
                    assert(!self.missing_ranges@.contains_key(sequence_number)) by {
                        if self.missing_ranges@.contains_key(sequence_number) {
                            assert(covered(self.missing_ranges@).contains(sequence_number as int));
                        }
                    }
                }
            } else {
                self.highest_sequence_number_seen = Some(sequence_number);
                proof {
                    assert(set_int_range(highest_sequence_number_seen + 1, sequence_number as int)
                        =~= Set::empty());
                    assert(covered(ranges).union(
                        set_int_range(highest_sequence_number_seen + 1, sequence_number as int),
                    ) =~= covered(ranges));
                }
            }
            self.next_expected_sequence_number = Some(sequence_number.saturating_add(1));
            self.advance_next_expected_sequence_number();
            proof {
                let h2 = self.highest_sequence_number_seen->0;
                let m2 = self.missing_ranges@;
                assert forall|x: int| #[trigger] covered(m2).contains(x) implies self.first_sequence_number_seen->0 < x < h2 by {
                    assert(covered(ranges).contains(x));
                }
                if !m2.dom().is_empty() {
                    let k = m2.dom().choose();
                    assert(covered(m2).contains(k as int));
                }
                assert(self@ == after_packet(old_view, sequence_number));
            }
            return;
        }
        if sequence_number > highest_sequence_number_seen {
            let gap_start = highest_sequence_number_seen.saturating_add(1);
            let gap_end = sequence_number.saturating_sub(1);
            if gap_start <= gap_end {
                self.missing_ranges.insert(gap_start, gap_end);
                proof {
                    lemma_add_range_above(ranges, gap_start, gap_end);
                    vstd::set_lib::lemma_int_range(gap_start as int, gap_end + 1);
                    assert(covered(ranges).disjoint(
                        set_int_range(gap_start as int, gap_end + 1),
                    ));
                    vstd::set_lib::lemma_set_disjoint_lens(
                        covered(ranges),
                        set_int_range(gap_start as int, gap_end + 1),
                    );
                }
                self.missing_packets += gap_end - gap_start + 1;
            } else {
                proof {
                    assert(set_int_range(highest_sequence_number_seen + 1, sequence_number as int)
                        =~= Set::empty());
                    assert(covered(ranges).union(
                        set_int_range(highest_sequence_number_seen + 1, sequence_number as int),
                    ) =~= covered(ranges));
                }
            }
            self.highest_sequence_number_seen = Some(sequence_number);
            proof {
                let m2 = self.missing_ranges@;
                assert(!m2.dom().is_empty());
                assert forall|k: u64| #[trigger] m2.contains_key(k) implies next_expected_sequence_number <= k by {
                    if k != gap_start {
                        assert(ranges.contains_key(k));
                    }
                }
                assert(m2.contains_key(next_expected_sequence_number));
                assert(self@ == after_packet(old_view, sequence_number));
            }
            return;
        }
        if self.remove_missing_sequence_number(sequence_number) {
            self.out_of_order_packets += 1;
            self.missing_packets = self.missing_packets.saturating_sub(1);
        }
        proof {
            lemma_remove_number(covered(ranges), sequence_number as int);
            let m2 = self.missing_ranges@;
            assert(!ranges.dom().is_empty());
            assert(m2.contains_key(next_expected_sequence_number));
            assert forall|k: u64| #[trigger] m2.contains_key(k) implies next_expected_sequence_number <= k by {
                if k != sequence_number + 1 {
                    assert(ranges.contains_key(k));
                }
            }
            assert forall|x: int| #[trigger] covered(m2).contains(x) implies self.first_sequence_number_seen->0 < x < highest_sequence_number_seen by {
                assert(covered(ranges).contains(x));
            }
            assert(self@ == after_packet(old_view, sequence_number));
        }
    }

    /// The out-of-order and missing counts.
    pub fn snapshot(&self) -> (s: SequenceStatsSnapshot)
        ensures
            s.out_of_order_packets == self@.out_of_order_packets,
            s.missing_packets == self@.missing_packets,
    {
        SequenceStatsSnapshot {
            out_of_order_packets: self.out_of_order_packets,
            missing_packets: self.missing_packets,
        }
    }
}

} // verus!
