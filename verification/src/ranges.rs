//! Sorted, disjoint, inclusive ranges of `u64` held in a `BTreeMap` from
//! each range's first number to its last.

use std::collections::BTreeMap;
use std::collections::btree_map::Iter;
use vstd::prelude::*;
use vstd::std_specs::btree::{increasing_seq, key_obeys_cmp_spec, spec_btree_map_iter};
use vstd::std_specs::cmp::OrdSpec;
use vstd::std_specs::iter::IteratorSpec;

verus! {

broadcast use vstd::laws_cmp::group_laws_cmp;

/// Some range of `ranges` holds `n`.
pub open spec fn covers(ranges: Map<u64, u64>, n: int) -> bool {
    exists|k: u64| #[trigger] ranges.contains_key(k) && k <= n <= ranges[k]
}

/// The numbers that the ranges hold.
pub open spec fn covered(ranges: Map<u64, u64>) -> Set<int> {
    Set::new(|n: int| covers(ranges, n))
}

/// Every range is non-empty, and a range that starts lower ends below the start of
/// every range that starts higher: the ranges do not overlap.
pub open spec fn ranges_disjoint(ranges: Map<u64, u64>) -> bool {
    &&& forall|k: u64| #[trigger] ranges.contains_key(k) ==> k <= ranges[k]
    &&& forall|j: u64, k: u64|
        #![trigger ranges.contains_key(j), ranges.contains_key(k)]
        ranges.contains_key(j) && ranges.contains_key(k) && j < k ==> ranges[j] < k
}

/// The ranges do not overlap, and a range that starts lower ends at least two below
/// the start of every range that starts higher: ranges do not touch either, so the
/// numbers they hold fix the ranges.
pub open spec fn ranges_wf(ranges: Map<u64, u64>) -> bool {
    &&& ranges_disjoint(ranges)
    &&& forall|j: u64, k: u64|
        #![trigger ranges.contains_key(j), ranges.contains_key(k)]
        ranges.contains_key(j) && ranges.contains_key(k) && j < k ==> ranges[j] + 1 < k
}

/// `k` is the lowest start among the ranges.
pub open spec fn is_lowest_start(ranges: Map<u64, u64>, k: u64) -> bool {
    &&& ranges.contains_key(k)
    &&& forall|j: u64| #[trigger] ranges.contains_key(j) ==> k <= j
}

/// The entries of a map's iterator come in strictly increasing key order.
proof fn lemma_entries_increasing(entries: Iter<'_, u64, u64>)
    requires
        increasing_seq(entries.remaining().map_values(|kv: (&u64, &u64)| *kv.0)),
    ensures
        forall|i: int, j: int|
            0 <= i < j < entries.remaining().len() ==> *entries.remaining()[i].0
                < *entries.remaining()[j].0,
{
    let keys = entries.remaining().map_values(|kv: (&u64, &u64)| *kv.0);
    assert forall|i: int, j: int|
        0 <= i < j < entries.remaining().len() implies *entries.remaining()[i].0
        < *entries.remaining()[j].0 by {
        assert(keys[i].cmp_spec(&keys[j]) is Less);
    }
}

/// The range with the lowest start, if there is one.
pub fn first_entry(ranges: &BTreeMap<u64, u64>) -> (r: Option<(u64, u64)>)
    ensures
        r is None <==> ranges@.dom().is_empty(),
        r matches Some((k, v)) ==> is_lowest_start(ranges@, k) && ranges@[k] == v,
{
    let mut result: Option<(u64, u64)> = None;
    let entries = ranges.iter();
    proof {
        assert(key_obeys_cmp_spec::<u64>());
        lemma_entries_increasing(entries);
    }
    let ghost all = entries.remaining();
    assert(all == spec_btree_map_iter(ranges).remaining());
    for (k, v) in it: entries
        invariant_except_break
            it.seq() == all,
            result is None,
            it.index() == 0,
        ensures
            result is None ==> all.len() == 0,
            result matches Some((k, v)) ==> k == *all[0].0 && v == *all[0].1 && all.len() > 0,
    {
        result = Some((*k, *v));
        break;
    }
    proof {
        if let Some((k, v)) = result {
            assert forall|j: u64| ranges@.contains_key(j) implies k <= j by {
                assert(all.contains((&j, &ranges@[j])));
                let i = choose|i: int| 0 <= i < all.len() && all[i] == (&j, &ranges@[j]);
                if i > 0 {
                    assert(*all[0].0 < *all[i].0);
                }
            }
            assert(ranges@.contains_key(*all[0].0));
        } else {
            if !ranges@.dom().is_empty() {
                let j = ranges@.dom().choose();
                assert(all.contains((&j, &ranges@[j])));
            }
        }
    }
    result
}

/// The range with the highest start at or below `bound`, if there is one.
pub fn entry_at_or_below(ranges: &BTreeMap<u64, u64>, bound: u64) -> (r: Option<(u64, u64)>)
    ensures
        r matches Some((k, v)) ==> {
            &&& ranges@.contains_key(k)
            &&& ranges@[k] == v
            &&& k <= bound
            &&& forall|j: u64| #[trigger] ranges@.contains_key(j) && j <= bound ==> j <= k
        },
        r is None ==> forall|j: u64| #[trigger] ranges@.contains_key(j) ==> bound < j,
{
    let mut found: Option<(u64, u64)> = None;
    let entries = ranges.iter();
    proof {
        assert(key_obeys_cmp_spec::<u64>());
        lemma_entries_increasing(entries);
    }
    let ghost all = entries.remaining();
    assert(all == spec_btree_map_iter(ranges).remaining());
    let ghost mut count: int = 0;
    for (k, v) in it: entries
        invariant_except_break
            it.seq() == all,
            count == it.index(),
            forall|i: int, j: int| 0 <= i < j < all.len() ==> *all[i].0 < *all[j].0,
            forall|i: int| 0 <= i < count ==> *all[i].0 <= bound,
            found == (if count == 0 {
                None
            } else {
                Some((*all[count - 1].0, *all[count - 1].1))
            }),
        ensures
            0 <= count <= all.len(),
            forall|i: int| 0 <= i < count ==> *all[i].0 <= bound,
            forall|i: int| count <= i < all.len() ==> bound < *all[i].0,
            found == (if count == 0 {
                None
            } else {
                Some((*all[count - 1].0, *all[count - 1].1))
            }),
    {
        if *k <= bound {
            found = Some((*k, *v));
            proof {
                count = count + 1;
            }
        } else {
            break;
        }
    }
    proof {
        assert forall|j: u64| #[trigger] ranges@.contains_key(j) implies (bound < j || (
        0 < count && j <= *all[count - 1].0)) by {
            assert(all.contains((&j, &ranges@[j])));
            let i = choose|i: int| 0 <= i < all.len() && all[i] == (&j, &ranges@[j]);
            if i < count - 1 {
                assert(*all[i].0 < *all[count - 1].0);
            }
        }
        if count > 0 {
            assert(ranges@.contains_key(*all[count - 1].0));
        }
    }
    found
}

/// The ranges after the number `s` is taken out of the range that starts at `a`:
/// that range gives way to the parts of it below and above `s`, where they are not empty.
pub open spec fn without_number(ranges: Map<u64, u64>, a: u64, s: u64) -> Map<u64, u64> {
    let b = ranges[a];
    let rest = ranges.remove(a);
    let below = if a < s {
        rest.insert(a, (s - 1) as u64)
    } else {
        rest
    };
    if s < b {
        below.insert((s + 1) as u64, b)
    } else {
        below
    }
}

/// Taking `s` out of the range that holds it keeps the ranges disjoint (and apart,
/// where they were apart) and removes exactly `s` from the numbers they hold.
pub proof fn lemma_without_number(ranges: Map<u64, u64>, a: u64, s: u64)
    requires
        ranges_disjoint(ranges),
        ranges.contains_key(a),
        a <= s <= ranges[a],
    ensures
        ranges_disjoint(without_number(ranges, a, s)),
        ranges_wf(ranges) ==> ranges_wf(without_number(ranges, a, s)),
        covered(without_number(ranges, a, s)) == covered(ranges).remove(s as int),
        forall|k: u64| #[trigger]
            without_number(ranges, a, s).contains_key(k) ==> ranges.contains_key(k) || k == s
                + 1,
        forall|k: u64| #[trigger] ranges.contains_key(k) && k != s ==> without_number(
            ranges,
            a,
            s,
        ).contains_key(k),
{
    let b = ranges[a];
    let split = without_number(ranges, a, s);
    assert forall|k: u64| #[trigger] ranges.contains_key(k) && k != a implies split.contains_key(
        k,
    ) && split[k] == ranges[k] by {
        if k < a {
            assert(ranges[k] < a);
        } else {
            assert(b < k);
        }
    }
    assert forall|k: u64| #[trigger] split.contains_key(k) implies (ranges.contains_key(k) && k
        != a && split[k] == ranges[k]) || (k == a && a < s && split[k] == s - 1) || (k == s + 1
        && s < b && split[k] == b) by {}
    assert forall|n: int| covers(split, n) <==> (covers(ranges, n) && n != s) by {
        if covers(split, n) {
            let k = choose|k: u64| #[trigger] split.contains_key(k) && k <= n <= split[k];
            if k != a && k != s + 1 {
                assert(ranges.contains_key(k));
                if k < a {
                    assert(ranges[k] < a);
                } else {
                    assert(b < k);
                }
            } else if k == a {
                assert(ranges.contains_key(a));
            } else {
                assert(ranges.contains_key(a));
            }
        }
        if covers(ranges, n) && n != s {
            let k = choose|k: u64| #[trigger] ranges.contains_key(k) && k <= n <= ranges[k];
            if k != a {
                assert(split.contains_key(k));
            } else if n < s {
                assert(split.contains_key(a));
            } else {
                assert(split.contains_key((s + 1) as u64));
            }
        }
    }
    assert(covered(split) =~= covered(ranges).remove(s as int));
    assert forall|j: u64, k: u64|
        #![trigger split.contains_key(j), split.contains_key(k)]
        split.contains_key(j) && split.contains_key(k) && j < k implies split[j] < k by {
        if j != a && j != s + 1 && k != a && k != s + 1 {
        } else if j == a && k != s + 1 {
            assert(b < k);
        } else if j == s + 1 {
            assert(b < k);
        } else if k == a {
            assert(ranges[j] < a);
        } else {
            if j != a {
                assert(ranges[j] < a);
            }
        }
    }
    if ranges_wf(ranges) {
        assert forall|j: u64, k: u64|
            #![trigger split.contains_key(j), split.contains_key(k)]
            split.contains_key(j) && split.contains_key(k) && j < k implies split[j] + 1 < k by {
            if j != a && j != s + 1 && k != a && k != s + 1 {
            } else if j == a && k != s + 1 {
                assert(b + 1 < k);
            } else if j == s + 1 {
                assert(b + 1 < k);
            } else if k == a {
                assert(ranges[j] + 1 < a);
            } else {
                if j != a {
                    assert(ranges[j] + 1 < a);
                }
            }
        }
    }
}

/// Adding a range that lies above every range keeps the ranges well formed
/// and adds exactly its numbers.
pub proof fn lemma_add_range_above(ranges: Map<u64, u64>, first: u64, last: u64)
    requires
        ranges_wf(ranges),
        first <= last,
        forall|k: u64| #[trigger] ranges.contains_key(k) ==> ranges[k] + 1 < first,
    ensures
        ranges_wf(ranges.insert(first, last)),
        covered(ranges.insert(first, last)) == covered(ranges).union(
            vstd::set_lib::set_int_range(first as int, last + 1),
        ),
{
    let grown = ranges.insert(first, last);
    assert forall|n: int| covers(grown, n) <==> (covers(ranges, n) || first <= n <= last) by {
        if covers(grown, n) {
            let k = choose|k: u64| #[trigger] grown.contains_key(k) && k <= n <= grown[k];
            if k != first {
                assert(ranges.contains_key(k));
            }
        }
        if covers(ranges, n) {
            let k = choose|k: u64| #[trigger] ranges.contains_key(k) && k <= n <= ranges[k];
            assert(grown.contains_key(k));
        }
        if first <= n <= last {
            assert(grown.contains_key(first));
        }
    }
    assert(covered(grown) =~= covered(ranges).union(
        vstd::set_lib::set_int_range(first as int, last + 1),
    ));
    assert forall|j: u64, k: u64|
        #![trigger grown.contains_key(j), grown.contains_key(k)]
        grown.contains_key(j) && grown.contains_key(k) && j < k implies grown[j] + 1 < k by {
        if k == first {
            assert(ranges.contains_key(j));
        } else if j == first {
            assert(ranges.contains_key(k));
            assert(k <= ranges[k]);
        }
    }
}

/// Well-formed ranges are fixed by the numbers they hold: two such maps that hold
/// the same numbers are the same map.
pub proof fn lemma_ranges_determined(left: Map<u64, u64>, right: Map<u64, u64>)
    requires
        ranges_wf(left),
        ranges_wf(right),
        covered(left) == covered(right),
    ensures
        left == right,
{
    lemma_starts_agree(left, right);
    lemma_starts_agree(right, left);
    assert forall|k: u64| #[trigger] left.contains_key(k) implies left[k] == right[k] by {
        lemma_end_bounded(left, right, k);
        lemma_end_bounded(right, left, k);
    }
    assert(left =~= right);
}

/// A start of one well-formed map is a start of every well-formed map holding the same numbers.
proof fn lemma_starts_agree(left: Map<u64, u64>, right: Map<u64, u64>)
    requires
        ranges_wf(left),
        ranges_wf(right),
        covered(left) == covered(right),
    ensures
        forall|k: u64| #[trigger] left.contains_key(k) ==> right.contains_key(k),
{
    assert forall|k: u64| #[trigger] left.contains_key(k) implies right.contains_key(k) by {
        assert(covered(left).contains(k as int));
        let j = choose|j: u64| #[trigger] right.contains_key(j) && j <= k <= right[j];
        if j < k {
            assert(covered(right).contains(k - 1));
            let i = choose|i: u64| #[trigger] left.contains_key(i) && i <= k - 1 <= left[i];
            assert(left[i] + 1 < k);
        }
    }
}

/// A range of one well-formed map ends no later than the range with the same start in
/// another well-formed map holding the same numbers.
proof fn lemma_end_bounded(left: Map<u64, u64>, right: Map<u64, u64>, k: u64)
    requires
        ranges_wf(left),
        ranges_wf(right),
        covered(left) == covered(right),
        left.contains_key(k),
        right.contains_key(k),
    ensures
        left[k] <= right[k],
{
    lemma_starts_agree(right, left);
    assert(covered(left).contains(left[k] as int));
    let j = choose|j: u64| #[trigger] right.contains_key(j) && j <= left[k] <= right[j];
    if j < k {
        assert(right[j] + 1 < k);
    } else if j > k {
        assert(left.contains_key(j));
        assert(left[k] + 1 < j);
    }
}

} // verus!
