//! Datagram sequence numbers: 24-bit circular arithmetic, the window over received numbers, and
//! lists of numbers as ranges.
use std::collections::{BTreeMap, BTreeSet};
use vstd::prelude::*;
use vstd::std_specs::cmp::OrdSpec;
use vstd::std_specs::iter::IteratorSpec;

use super::datagram::AckRange;

verus! {

broadcast use vstd::std_specs::btree::group_btree_axioms;

/// How many sequence numbers there are.
pub const SEQ_COUNT: u32 = 0x100_0000;

/// Half of the sequence numbers: a number less than this far ahead of another is newer.
pub const SEQ_HALF: u32 = 0x80_0000;

// ==================== Circular arithmetic ====================

/// The sequence number `k` steps after `seq`.
pub open spec fn seq_plus(seq: u32, k: int) -> u32 {
    ((seq + k) % (SEQ_COUNT as int)) as u32
}

/// How many steps lead from `from` to `to`.
pub open spec fn distance(from: u32, to: u32) -> u32 {
    ((to - from) % (SEQ_COUNT as int)) as u32
}

/// `a` is strictly newer than `b`.
pub open spec fn ahead(a: u32, b: u32) -> bool {
    0 < distance(b, a) < SEQ_HALF
}

/// Steps add up.
pub proof fn lemma_seq_plus(seq: u32, a: int, b: int)
    ensures
        seq_plus(seq_plus(seq, a), b) == seq_plus(seq, a + b),
        seq_plus(seq, a) < SEQ_COUNT,
{
}

/// The sequence number after `seq`.
pub fn seq_next(seq: u32) -> (r: u32)
    ensures
        r == seq_plus(seq, 1),
        r < SEQ_COUNT,
{
    seq.wrapping_add(1) % SEQ_COUNT
}

/// The sequence number before `seq`.
pub fn wrapping_dec(seq: u32) -> (r: u32)
    ensures
        r == seq_plus(seq, -1),
        r < SEQ_COUNT,
{
    seq.wrapping_sub(1) % SEQ_COUNT
}

/// How many steps lead from `from` to `to`; zero when they are equal.
pub fn seq_forward_distance(from: u32, to: u32) -> (r: u32)
    ensures
        r == distance(from, to),
        r < SEQ_COUNT,
{
    to.wrapping_sub(from) % SEQ_COUNT
}

/// Whether `a` is strictly newer than `b`: less than half the numbers ahead of it.
pub fn seq_greater(a: u32, b: u32) -> (r: bool)
    ensures
        r == ahead(a, b),
{
    let diff: u32 = a.wrapping_sub(b) % SEQ_COUNT;
    diff != 0 && diff < SEQ_HALF
}

/// Stepping the distance from one 24-bit number to another arrives there.
pub proof fn law_distance(from: u32, to: u32)
    requires
        to < SEQ_COUNT,
    ensures
        seq_plus(from, distance(from, to) as int) == to,
        distance(from, to) < SEQ_COUNT,
{
}

/// The distance to the number some steps ahead is the number of steps.
pub proof fn lemma_distance_of_plus(seq: u32, k: int)
    requires
        seq < SEQ_COUNT,
        0 <= k < SEQ_COUNT,
    ensures
        distance(seq, seq_plus(seq, k)) == k,
{
}

/// Of two different 24-bit numbers at most one is newer than the other, and one is unless they
/// are half the numbers apart.
pub proof fn law_newer_is_one_sided(a: u32, b: u32)
    requires
        a < SEQ_COUNT,
        b < SEQ_COUNT,
        a != b,
    ensures
        !(ahead(a, b) && ahead(b, a)),
        ahead(a, b) || ahead(b, a) || distance(a, b) == SEQ_HALF,
{
}

// ==================== Ranges ====================

/// The list entry for the numbers from `start` to `end`.
pub open spec fn entry(start: u32, end: u32) -> AckRange {
    AckRange::make(
        start,
        if start == end {
            None
        } else {
            Some(end)
        },
    )
}

/// The list entry for an inclusive span, a single one where it holds one number.
pub fn range_or_single(start: u32, end: u32) -> (r: AckRange)
    ensures
        r == entry(start, end),
{
    if start == end {
        AckRange::single(start)
    } else {
        AckRange::range(start, end)
    }
}

/// The runs of consecutive numbers in a list, in order, each as its first and last number.
pub open spec fn runs_of(seqs: Seq<u32>) -> Seq<(u32, u32)>
    decreases seqs.len(),
{
    if seqs.len() == 0 {
        seq![]
    } else {
        let before = runs_of(seqs.drop_last());
        let x = seqs.last();
        if before.len() > 0 && before.last().1 + 1 == x {
            before.drop_last().push((before.last().0, x))
        } else {
            before.push((x, x))
        }
    }
}

/// Runs as list entries.
pub open spec fn entries(runs: Seq<(u32, u32)>) -> Seq<AckRange> {
    runs.map_values(|p: (u32, u32)| entry(p.0, p.1))
}

/// Joins runs of consecutive numbers into ranges. A run never spans the end of the 24-bit
/// numbers.
pub fn coalesce_ranges(seqs: &[u32]) -> (r: Vec<AckRange>)
    ensures
        r@ == entries(runs_of(seqs@)),
{
    let mut ranges: Vec<AckRange> = Vec::new();
    if seqs.len() == 0 {
        assert(ranges@ == entries(runs_of(seqs@)));
        return ranges;
    }
    let mut start: u32 = seqs[0];
    let mut prev: u32 = start;
    let mut i: usize = 1;
    let ghost mut closed_runs: Seq<(u32, u32)> = Seq::empty();
    proof {
        assert(seqs@.take(1).drop_last() == Seq::<u32>::empty());
        reveal_with_fuel(runs_of, 2);
        assert(runs_of(seqs@.take(1)) == closed_runs.push((start, prev)));
    }
    while i < seqs.len()
        invariant
            1 <= i <= seqs@.len(),
            runs_of(seqs@.take(i as int)) == closed_runs.push((start, prev)),
            ranges@ == entries(closed_runs),
        decreases seqs@.len() - i,
    {
        let cur: u32 = seqs[i];
        proof {
            assert(seqs@.take(i as int + 1).drop_last() == seqs@.take(i as int));
            assert(closed_runs.push((start, prev)).drop_last() == closed_runs);
        }
        if cur > prev && cur - prev == 1 {
            prev = cur;
        } else {
            ranges.push(range_or_single(start, prev));
            proof {
                let more = closed_runs.push((start, prev));
                assert(ranges@ == entries(more));
                closed_runs = more;
            }
            start = cur;
            prev = cur;
        }
        i = i + 1;
    }
    ranges.push(range_or_single(start, prev));
    proof {
        assert(seqs@.take(i as int) == seqs@);
        assert(ranges@ == entries(closed_runs.push((start, prev))));
    }
    ranges
}

/// A strictly increasing list.
pub open spec fn increasing(seqs: Seq<u32>) -> bool {
    forall|i: int, j: int| 0 <= i < j < seqs.len() ==> seqs[i] < seqs[j]
}

/// A number lies in one of the runs.
pub open spec fn in_runs(runs: Seq<(u32, u32)>, x: u32) -> bool {
    exists|i: int| 0 <= i < runs.len() && (#[trigger] runs[i]).0 <= x <= runs[i].1
}

/// The runs of an increasing list cover exactly its numbers, and a number is left out between
/// any two of them.
pub proof fn law_runs_cover_the_list(seqs: Seq<u32>)
    requires
        increasing(seqs),
    ensures
        forall|x: u32| #[trigger] in_runs(runs_of(seqs), x) <==> seqs.contains(x),
        forall|i: int| 0 <= i < runs_of(seqs).len() ==> (#[trigger] runs_of(seqs)[i]).0
            <= runs_of(seqs)[i].1,
        forall|i: int, j: int|
            0 <= i < j < runs_of(seqs).len() ==> (#[trigger] runs_of(seqs)[i]).1 + 1 < (
            #[trigger] runs_of(seqs)[j]).0,
        seqs.len() > 0 ==> runs_of(seqs).len() > 0 && runs_of(seqs).last().1 == seqs.last(),
    decreases seqs.len(),
{
    if seqs.len() > 0 {
        let prev = seqs.drop_last();
        let before = runs_of(prev);
        let x = seqs.last();
        let runs = runs_of(seqs);
        assert forall|i: int, j: int| 0 <= i < j < prev.len() implies prev[i] < prev[j] by {
            assert(prev[i] == seqs[i] && prev[j] == seqs[j]);
        }
        law_runs_cover_the_list(prev);
        if prev.len() > 0 {
            assert(prev.last() == seqs[seqs.len() - 2]);
            assert(prev.last() < x);
        }
        let n = runs.len() - 1;
        assert forall|y: u32| #[trigger] in_runs(runs, y) <==> seqs.contains(y) by {
            if in_runs(runs, y) {
                let i = choose|i: int| 0 <= i < runs.len() && (#[trigger] runs[i]).0 <= y
                    <= runs[i].1;
                if i < n {
                    assert(before[i] == runs[i]);
                    assert(in_runs(before, y));
                    assert(prev.contains(y));
                    let k = choose|k: int| 0 <= k < prev.len() && prev[k] == y;
                    assert(seqs[k] == y);
                } else if y == x {
                    assert(seqs[seqs.len() - 1] == y);
                } else {
                    assert(before.len() > 0 && before[n].0 <= y <= before[n].1);
                    assert(in_runs(before, y));
                    assert(prev.contains(y));
                    let k = choose|k: int| 0 <= k < prev.len() && prev[k] == y;
                    assert(seqs[k] == y);
                }
            }
            if seqs.contains(y) {
                let k = choose|k: int| 0 <= k < seqs.len() && seqs[k] == y;
                if k < prev.len() {
                    assert(prev[k] == y);
                    assert(prev.contains(y));
                    assert(in_runs(before, y));
                    let i = choose|i: int| 0 <= i < before.len() && (#[trigger] before[i]).0 <= y
                        <= before[i].1;
                    if i < n {
                        assert(runs[i] == before[i]);
                    } else {
                        assert(runs[n].0 <= y <= runs[n].1);
                    }
                } else {
                    assert(runs[n].0 <= y <= runs[n].1);
                }
                assert(in_runs(runs, y));
            }
        }
        assert forall|i: int, j: int| 0 <= i < j < runs.len() implies (#[trigger] runs[i]).1 + 1
            < (#[trigger] runs[j]).0 by {
            assert(runs[i] == before[i]);
            if j < n {
                assert(runs[j] == before[j]);
            } else if before.len() == runs.len() {
                assert(before[i].1 + 1 < before[j].0);
            } else {
                assert(before.last() == before[before.len() - 1]);
                if i < before.len() - 1 {
                    assert(before[i].1 + 1 < before[before.len() - 1].0);
                }
            }
        }
        assert forall|i: int| 0 <= i < runs.len() implies (#[trigger] runs[i]).0 <= runs[i].1 by {
            if i < n {
                assert(runs[i] == before[i]);
            } else if before.len() == runs.len() {
                assert(before[i].0 <= before[i].1);
            }
        }
    }
}

// ==================== Sets of numbers in order ====================

/// The members of `s` below `n`, smallest first.
pub open spec fn below(s: Set<u32>, n: nat) -> Seq<u32>
    decreases n,
{
    if n == 0 {
        seq![]
    } else if s.contains((n - 1) as u32) {
        below(s, (n - 1) as nat).push((n - 1) as u32)
    } else {
        below(s, (n - 1) as nat)
    }
}

/// The members of `s`, smallest first.
pub open spec fn ascending(s: Set<u32>) -> Seq<u32> {
    below(s, 0x1_0000_0000)
}

proof fn lemma_below_unique(s: Set<u32>, n: nat, keys: Seq<u32>)
    requires
        n <= 0x1_0000_0000,
        increasing(keys),
        forall|x: u32| #[trigger] keys.contains(x) <==> s.contains(x) && x < n,
    ensures
        keys == below(s, n),
    decreases n,
{
    if n == 0 {
        if keys.len() > 0 {
            assert(keys.contains(keys[0]));
        }
        assert(keys == Seq::<u32>::empty());
    } else {
        let m = (n - 1) as u32;
        if s.contains(m) {
            assert(keys.contains(m));
            let i = choose|i: int| 0 <= i < keys.len() && keys[i] == m;
            if i < keys.len() - 1 {
                assert(keys[i] < keys[keys.len() - 1]);
                assert(keys.contains(keys[keys.len() - 1]));
            }
            let rest = keys.drop_last();
            assert forall|x: u32| #[trigger] rest.contains(x) <==> s.contains(x) && x < (n
                - 1) by {
                if rest.contains(x) {
                    let j = choose|j: int| 0 <= j < rest.len() && rest[j] == x;
                    assert(keys[j] == x && keys[j] < keys[keys.len() - 1]);
                    assert(keys.contains(x));
                }
                if s.contains(x) && x < n - 1 {
                    assert(keys.contains(x));
                    let j = choose|j: int| 0 <= j < keys.len() && keys[j] == x;
                    assert(rest[j] == x);
                }
            }
            lemma_below_unique(s, (n - 1) as nat, rest);
            assert(keys == rest.push(m));
        } else {
            assert forall|x: u32| #[trigger] keys.contains(x) <==> s.contains(x) && x < (n
                - 1) by {
            }
            lemma_below_unique(s, (n - 1) as nat, keys);
        }
    }
}

/// A strictly increasing list of the members of a set is the set in order.
pub proof fn lemma_ascending_unique(s: Set<u32>, keys: Seq<u32>)
    requires
        increasing(keys),
        keys.to_set() == s,
    ensures
        keys == ascending(s),
{
    assert forall|x: u32| #[trigger] keys.contains(x) <==> s.contains(x) && x
        < 0x1_0000_0000 by {
        assert(keys.to_set().contains(x) <==> keys.contains(x));
    }
    lemma_below_unique(s, 0x1_0000_0000, keys);
}

proof fn lemma_below_members(s: Set<u32>, n: nat)
    requires
        n <= 0x1_0000_0000,
    ensures
        increasing(below(s, n)),
        forall|x: u32| #[trigger] below(s, n).contains(x) <==> s.contains(x) && x < n,
    decreases n,
{
    if n > 0 {
        let rest = below(s, (n - 1) as nat);
        let all = below(s, n);
        lemma_below_members(s, (n - 1) as nat);
        assert forall|i: int, j: int| 0 <= i < j < all.len() implies all[i] < all[j] by {
            if j < rest.len() {
                assert(rest[i] < rest[j]);
            } else {
                assert(rest.contains(rest[i]));
            }
        }
        assert forall|x: u32| #[trigger] all.contains(x) <==> s.contains(x) && x < n by {
            if all.contains(x) {
                let i = choose|i: int| 0 <= i < all.len() && all[i] == x;
                if i < rest.len() {
                    assert(rest[i] == x);
                    assert(rest.contains(x));
                }
            }
            if s.contains(x) && x < n {
                if x < n - 1 {
                    assert(rest.contains(x));
                    let i = choose|i: int| 0 <= i < rest.len() && rest[i] == x;
                    assert(all[i] == x);
                } else {
                    assert(all[all.len() - 1] == x);
                }
            }
        }
    }
}

/// The list of a set in order is strictly increasing and holds its members.
pub proof fn lemma_ascending_members(s: Set<u32>)
    ensures
        increasing(ascending(s)),
        forall|x: u32| #[trigger] ascending(s).contains(x) <==> s.contains(x),
{
    lemma_below_members(s, 0x1_0000_0000);
}

proof fn lemma_reference_order()
    ensures
        vstd::laws_cmp::obeys_cmp::<&'static u32>(),
{
    broadcast use vstd::laws_eq::group_laws_eq;
    broadcast use vstd::laws_cmp::group_laws_cmp;

    reveal(vstd::laws_eq::obeys_eq_spec_properties);
    reveal(vstd::laws_cmp::obeys_partial_cmp_spec_properties);
    reveal(vstd::laws_cmp::obeys_cmp_partial_ord);
    reveal(vstd::laws_cmp::obeys_cmp_ord);
    assert(vstd::laws_cmp::obeys_cmp::<u32>());
}

proof fn lemma_increasing_references(keys: Seq<&u32>)
    requires
        vstd::std_specs::btree::increasing_seq(keys),
    ensures
        increasing(keys.unref()),
{
    lemma_reference_order();
    assert forall|i: int, j: int| 0 <= i < j < keys.len() implies keys.unref()[i]
        < keys.unref()[j] by {
        assert(OrdSpec::cmp_spec(&keys[i], &keys[j]) is Less);
    }
}

/// The keys of a map in order.
pub fn sorted_keys<V>(map: &BTreeMap<u32, V>) -> (r: Vec<u32>)
    ensures
        r@ == ascending(map@.dom()),
{
    let mut out: Vec<u32> = Vec::new();
    let ghost keys = map.keys().remaining();
    for x in it: map.keys()
        invariant
            it.seq() == keys,
            out@ == keys.unref().take(it.index()),
    {
        out.push(*x);
        assert(out@ == keys.unref().take(it.index() + 1));
    }
    assert(out@ == keys.unref());
    proof {
        lemma_increasing_references(keys);
        lemma_ascending_unique(map@.dom(), out@);
    }
    out
}

/// The members of a set in order.
pub fn sorted_members(set: &BTreeSet<u32>) -> (r: Vec<u32>)
    ensures
        r@ == ascending(set@),
{
    let mut out: Vec<u32> = Vec::new();
    let ghost members = set.iter().remaining();
    for x in it: set.iter()
        invariant
            it.seq() == members,
            out@ == members.unref().take(it.index()),
    {
        out.push(*x);
        assert(out@ == members.unref().take(it.index() + 1));
    }
    assert(out@ == members.unref());
    proof {
        lemma_increasing_references(members);
        lemma_ascending_unique(set@, out@);
    }
    out
}

// ==================== The receive window ====================

/// A sliding window over received datagram sequence numbers.
#[derive(Debug, Default)]
pub struct DatagramWindow {
    lowest_unseen: u32,
    highest_seen: u32,
    received: BTreeSet<u32>,
    started: bool,
    prefix_len: u32,
    early: BTreeSet<u32>,
}

/// What a [`DatagramWindow`] holds: the number after the contiguous prefix, the highest number
/// seen, the numbers received out of order, whether anything was received at all, how long the
/// contiguous prefix is, counted up to half of all numbers, and the numbers received from before
/// the prefix.
#[verifier::ext_equal]
pub struct WindowView {
    pub low: u32,
    pub high: u32,
    pub received: Set<u32>,
    pub started: bool,
    pub prefix: u32,
    pub early: Set<u32>,
}

impl View for DatagramWindow {
    type V = WindowView;

    closed spec fn view(&self) -> WindowView {
        WindowView {
            low: self.lowest_unseen,
            high: self.highest_seen,
            received: self.received@,
            started: self.started,
            prefix: self.prefix_len,
            early: self.early@,
        }
    }
}

impl WindowView {
    /// All numbers have 24 bits, and the first number after the prefix is not there yet.
    pub open spec fn wf(self) -> bool {
        &&& self.low < SEQ_COUNT
        &&& self.high < SEQ_COUNT
        &&& self.received.finite()
        &&& forall|x: u32| #[trigger] self.received.contains(x) ==> x < SEQ_COUNT
        &&& !self.received.contains(self.low)
        &&& self.prefix <= SEQ_HALF
        &&& self.early.finite()
        &&& forall|x: u32| #[trigger] self.early.contains(x) ==> x < SEQ_COUNT
        &&& !self.started ==> self == new_window()
    }
}

/// A window before anything was received.
pub open spec fn new_window() -> WindowView {
    WindowView {
        low: 0,
        high: 0,
        received: Set::empty(),
        started: false,
        prefix: 0,
        early: Set::empty(),
    }
}

/// The length of a prefix with `n` more numbers, counted up to half of all numbers.
pub open spec fn longer(prefix: u32, n: int) -> u32 {
    if prefix + n < SEQ_HALF {
        (prefix + n) as u32
    } else {
        SEQ_HALF
    }
}

/// The contiguous prefix taken as far as the received numbers reach: the first number after it,
/// its length, and the received numbers that are left.
pub open spec fn advance(low: u32, prefix: u32, received: Set<u32>) -> (u32, u32, Set<u32>)
    decreases received.len(),
{
    if received.finite() && received.contains(low) {
        advance(seq_plus(low, 1), longer(prefix, 1), received.remove(low))
    } else {
        (low, prefix, received)
    }
}

/// A number behind the first one after the contiguous prefix was recorded: it lies in the prefix,
/// or it was received from before it.
pub open spec fn is_behind_and_seen(w: WindowView, seq: u32) -> bool {
    ahead(w.low, seq) && (distance(seq, w.low) <= w.prefix || w.early.contains(seq))
}

/// What recording a number does: the next window, and whether the number was new. A number from
/// before the first one recorded is new the first time it comes.
pub open spec fn record_step(w: WindowView, number: u32) -> (WindowView, bool) {
    let seq = seq_plus(number, 0);
    if !w.started {
        let (low, prefix, received) = advance(seq, 0, w.received.insert(seq));
        (WindowView { low, high: seq, received, started: true, prefix, early: w.early }, true)
    } else if is_behind_and_seen(w, seq) || w.received.contains(seq) {
        (w, false)
    } else if ahead(w.low, seq) {
        (WindowView { early: w.early.insert(seq), ..w }, true)
    } else {
        let (low, prefix, received) = advance(w.low, w.prefix, w.received.insert(seq));
        (
            WindowView {
                low,
                high: if ahead(seq, w.high) {
                    seq
                } else {
                    w.high
                },
                received,
                started: true,
                prefix,
                early: w.early,
            },
            true,
        )
    }
}

/// The number `k` steps after `low` was not received.
pub open spec fn absent(low: u32, received: Set<u32>, k: int) -> bool {
    !received.contains(seq_plus(low, k))
}

/// The maximal runs of absent numbers among the `n` from `low` on, as offsets of their first and
/// last number.
pub open spec fn gaps(low: u32, received: Set<u32>, n: nat) -> Seq<(int, int)>
    decreases n,
{
    if n == 0 {
        seq![]
    } else {
        let before = gaps(low, received, (n - 1) as nat);
        let k = n - 1;
        if !absent(low, received, k) {
            before
        } else if before.len() > 0 && before.last().1 == k - 1 {
            before.drop_last().push((before.last().0, k))
        } else {
            before.push((k, k))
        }
    }
}

/// Gaps as list entries.
pub open spec fn gap_entries(low: u32, runs: Seq<(int, int)>) -> Seq<AckRange> {
    runs.map_values(|p: (int, int)| entry(seq_plus(low, p.0), seq_plus(low, p.1)))
}

/// The missing numbers between the contiguous prefix and the highest number seen.
pub open spec fn missing_of(w: WindowView) -> Seq<AckRange> {
    if !w.started || w.received.is_empty() {
        seq![]
    } else {
        gap_entries(w.low, gaps(w.low, w.received, (distance(w.low, w.high) + 1) as nat))
    }
}

proof fn lemma_advance(low: u32, prefix: u32, received: Set<u32>) -> (n: nat)
    requires
        received.finite(),
        low < SEQ_COUNT,
        prefix <= SEQ_HALF,
    ensures
        n <= received.len(),
        ({
            let (end, len, rest) = advance(low, prefix, received);
            &&& end == seq_plus(low, n as int)
            &&& end < SEQ_COUNT
            &&& len == longer(prefix, n as int)
            &&& len <= SEQ_HALF
            &&& rest.finite()
            &&& !rest.contains(end)
            &&& forall|x: u32| #[trigger] rest.contains(x) ==> received.contains(x)
            &&& forall|x: u32|
                received.contains(x) && !(#[trigger] rest.contains(x)) ==> exists|j: int|
                    0 <= j < n && x == #[trigger] seq_plus(low, j)
            &&& forall|j: int|
                0 <= j < n ==> received.contains(#[trigger] seq_plus(low, j)) && !rest.contains(
                    seq_plus(low, j),
                )
        }),
    decreases received.len(),
{
    if received.contains(low) {
        let less = received.remove(low);
        let m = lemma_advance(seq_plus(low, 1), longer(prefix, 1), less);
        let rest = advance(low, prefix, received).2;
        assert forall|x: u32| received.contains(x) && !(#[trigger] rest.contains(x)) implies exists|
            j: int,
        |
            0 <= j < m + 1 && x == #[trigger] seq_plus(low, j) by {
            if x == low {
                assert(x == seq_plus(low, 0));
            } else {
                let j = choose|j: int| 0 <= j < m && x == #[trigger] seq_plus(seq_plus(low, 1), j);
                assert(x == seq_plus(low, j + 1));
            }
        }
        assert forall|j: int| 0 <= j < m + 1 implies received.contains(#[trigger] seq_plus(low, j))
            && !rest.contains(seq_plus(low, j)) by {
            if j == 0 {
                assert(seq_plus(low, 0) == low);
            } else {
                lemma_seq_plus(low, 1, j - 1);
                assert(less.contains(seq_plus(seq_plus(low, 1), j - 1)));
            }
        }
        m + 1
    } else {
        0
    }
}

impl DatagramWindow {
    /// The window is one that recording numbers leads to.
    pub open spec fn wf(&self) -> bool {
        self@.wf()
    }

    /// A window before anything was received.
    pub fn new() -> (r: DatagramWindow)
        ensures
            r.wf(),
            r@ == new_window(),
    {
        let r = DatagramWindow {
            lowest_unseen: 0,
            highest_seen: 0,
            received: BTreeSet::new(),
            started: false,
            prefix_len: 0,
            early: BTreeSet::new(),
        };
        assert(r@ == new_window());
        r
    }

    /// The number after the contiguous prefix.
    pub fn lowest_unseen(&self) -> (r: u32)
        ensures
            r == self@.low,
    {
        self.lowest_unseen
    }

    /// The highest number seen.
    pub fn highest_seen(&self) -> (r: u32)
        ensures
            r == self@.high,
    {
        self.highest_seen
    }

    /// Records a number; `true` if it was new, `false` if it is to be ignored.
    pub fn record(&mut self, number: u32) -> (r: bool)
        requires
            old(self).wf(),
        ensures
            final(self).wf(),
            (final(self)@, r) == record_step(old(self)@, number),
    {
        let seq: u32 = number % SEQ_COUNT;
        if !self.started {
            self.started = true;
            self.lowest_unseen = seq;
            self.highest_seen = seq;
            self.received.insert(seq);
            self.advance_contiguous();
            return true;
        }
        if seq_greater(self.lowest_unseen, seq) {
            if seq_forward_distance(seq, self.lowest_unseen) <= self.prefix_len {
                return false;
            }
            if self.early.contains(&seq) || self.received.contains(&seq) {
                return false;
            }
            self.early.insert(seq);
            return true;
        }
        if self.received.contains(&seq) {
            return false;
        }
        self.received.insert(seq);
        if seq_greater(seq, self.highest_seen) {
            self.highest_seen = seq;
        }
        self.advance_contiguous();
        true
    }

    /// Takes the contiguous prefix as far as the received numbers reach.
    fn advance_contiguous(&mut self)
        requires
            old(self)@.received.finite(),
            old(self)@.low < SEQ_COUNT,
            old(self)@.prefix <= SEQ_HALF,
        ensures
            (final(self)@.low, final(self)@.prefix, final(self)@.received) == advance(
                old(self)@.low,
                old(self)@.prefix,
                old(self)@.received,
            ),
            final(self)@.high == old(self)@.high,
            final(self)@.started == old(self)@.started,
            final(self)@.early == old(self)@.early,
            final(self)@.low < SEQ_COUNT,
            final(self)@.prefix <= SEQ_HALF,
            final(self)@.received.finite(),
            !final(self)@.received.contains(final(self)@.low),
            forall|x: u32| #[trigger]
                final(self)@.received.contains(x) ==> old(self)@.received.contains(x),
    {
        let ghost end = advance(self@.low, self@.prefix, self@.received);
        proof {
            let n = lemma_advance(self.lowest_unseen, self.prefix_len, self.received@);
        }
        loop
            invariant
                self@.received.finite(),
                self@.low < SEQ_COUNT,
                self@.prefix <= SEQ_HALF,
                advance(self@.low, self@.prefix, self@.received) == end,
                self@.high == old(self)@.high,
                self@.started == old(self)@.started,
                self@.early == old(self)@.early,
            ensures
                (self@.low, self@.prefix, self@.received) == end,
                self@.received.finite(),
            decreases self@.received.len(),
        {
            if !self.received.remove(&self.lowest_unseen) {
                break;
            }
            self.lowest_unseen = seq_next(self.lowest_unseen);
            if self.prefix_len < SEQ_HALF {
                self.prefix_len = self.prefix_len + 1;
            }
        }
    }

    /// The missing numbers between the contiguous prefix and the highest number seen, as ranges
    /// for a NACK.
    #[verifier::spinoff_prover]
    #[verifier::rlimit(50)]
    pub fn missing(&self) -> (r: Vec<AckRange>)
        requires
            self.wf(),
        ensures
            r@ == missing_of(self@),
    {
        let mut ranges: Vec<AckRange> = Vec::new();
        if !self.started || self.received.is_empty() {
            assert(ranges@ == missing_of(self@));
            return ranges;
        }
        let span: u32 = seq_forward_distance(self.lowest_unseen, self.highest_seen);
        let mut range_start: Option<u32> = None;
        let mut cur: u32 = self.lowest_unseen;
        let mut k: u32 = 0;
        let ghost w = self@;
        let ghost mut done: Seq<(int, int)> = Seq::empty();
        let ghost mut open_at: int = 0;
        while k <= span
            invariant
                w == self@,
                w.wf(),
                span == distance(w.low, w.high),
                span < SEQ_COUNT,
                k <= span + 1,
                cur == seq_plus(w.low, k as int),
                ranges@ == gap_entries(w.low, done),
                match range_start {
                    Some(start) => start == seq_plus(w.low, open_at) && gaps(w.low, w.received, k as nat)
                        == done.push((open_at, k - 1)) && k > 0,
                    None => gaps(w.low, w.received, k as nat) == done && (done.len() > 0 ==> done.last().1 < k
                        - 1),
                },
            decreases span + 1 - k,
        {
            proof {
                lemma_seq_plus(w.low, k as int, 1);
                lemma_seq_plus(w.low, k as int, -1);
                assert(gaps(w.low, w.received, (k + 1) as nat) == {
                    let before = gaps(w.low, w.received, k as nat);
                    if !absent(w.low, w.received, k as int) {
                        before
                    } else if before.len() > 0 && before.last().1 == k - 1 {
                        before.drop_last().push((before.last().0, k as int))
                    } else {
                        before.push((k as int, k as int))
                    }
                });
            }
            if !self.received.contains(&cur) {
                match range_start {
                    Some(_) => {
                        proof {
                            assert(done.push((open_at, k - 1)).drop_last() == done);
                        }
                    },
                    None => {
                        range_start = Some(cur);
                        proof {
                            open_at = k as int;
                        }
                    },
                }
            } else {
                match range_start {
                    Some(start) => {
                        let prev: u32 = wrapping_dec(cur);
                        ranges.push(range_or_single(start, prev));
                        proof {
                            let more = done.push((open_at, k - 1));
                            assert(prev == seq_plus(w.low, k - 1));
                            assert(ranges@ == gap_entries(w.low, more));
                            done = more;
                        }
                        range_start = None;
                    },
                    None => {},
                }
            }
            cur = seq_next(cur);
            k = k + 1;
        }
        match range_start {
            Some(start) => {
                ranges.push(range_or_single(start, self.highest_seen));
                proof {
                    law_distance(w.low, w.high);
                    assert(ranges@ == gap_entries(w.low, done.push((open_at, span as int))));
                }
            },
            None => {},
        }
        ranges
    }
}

/// Offset `k` lies in one of the gaps.
pub open spec fn in_gaps(runs: Seq<(int, int)>, k: int) -> bool {
    exists|i: int| 0 <= i < runs.len() && (#[trigger] runs[i]).0 <= k <= runs[i].1
}

/// The gaps cover exactly the absent numbers, and a received number lies between
/// any two of them.
pub proof fn law_gaps_cover_the_absent(low: u32, received: Set<u32>, n: nat)
    ensures
        forall|k: int| #[trigger] in_gaps(gaps(low, received, n), k) <==> 0 <= k < n && absent(low, received, k),
        forall|i: int|
            0 <= i < gaps(low, received, n).len() ==> 0 <= (#[trigger] gaps(low, received, n)[i]).0 <= gaps(low, received, n)[i].1
                < n,
        forall|i: int, j: int|
            0 <= i < j < gaps(low, received, n).len() ==> (#[trigger] gaps(low, received, n)[i]).1 + 1 < (
            #[trigger] gaps(low, received, n)[j]).0,
    decreases n,
{
    if n > 0 {
        let before = gaps(low, received, (n - 1) as nat);
        let runs = gaps(low, received, n);
        let last = n - 1;
        law_gaps_cover_the_absent(low, received, (n - 1) as nat);
        if absent(low, received, last) {
            let m = runs.len() - 1;
            assert forall|i: int| 0 <= i < m implies runs[i] == before[i] by {}
            if before.len() == runs.len() {
                assert(before[m] == before.last());
            }
            assert forall|k: int| #[trigger] in_gaps(runs, k) <==> 0 <= k < n && absent(low, received, k) by {
                if in_gaps(runs, k) {
                    let i = choose|i: int| 0 <= i < runs.len() && (#[trigger] runs[i]).0 <= k
                        <= runs[i].1;
                    if i < m {
                        assert(before[i].0 <= k <= before[i].1);
                        assert(in_gaps(before, k));
                    } else if k != last {
                        assert(before[m].0 <= k <= before[m].1);
                        assert(in_gaps(before, k));
                    }
                }
                if 0 <= k < n && absent(low, received, k) {
                    if k == last {
                        assert(runs[m].0 <= k <= runs[m].1);
                    } else {
                        assert(in_gaps(before, k));
                        let i = choose|i: int| 0 <= i < before.len() && (#[trigger] before[i]).0
                            <= k <= before[i].1;
                        if i < m {
                            assert(runs[i].0 <= k <= runs[i].1);
                        } else {
                            assert(runs[m].0 <= k <= runs[m].1);
                        }
                    }
                    assert(in_gaps(runs, k));
                }
            }
            assert forall|i: int, j: int| 0 <= i < j < runs.len() implies (#[trigger] runs[i]).1
                + 1 < (#[trigger] runs[j]).0 by {
                if j < m {
                    assert(before[i].1 + 1 < before[j].0);
                } else if before.len() == runs.len() {
                    assert(before[i].1 + 1 < before[j].0);
                } else {
                    assert(before[i].1 < last);
                    if before[i].1 == last - 1 {
                        if i < before.len() - 1 {
                            assert(before[i].1 + 1 < before[before.len() - 1].0);
                        }
                    }
                }
            }
        } else {
            assert forall|k: int| #[trigger] in_gaps(runs, k) <==> 0 <= k < n && absent(low, received, k) by {
                assert(in_gaps(before, k) <==> 0 <= k < last && absent(low, received, k));
            }
        }
    } else {
        assert forall|k: int| #[trigger] in_gaps(gaps(low, received, n), k) <==> 0 <= k < n && absent(low, received, 
            k,
        ) by {}
    }
}

/// Every number is new only once: recorded again right away, it is ignored. This holds while
/// fewer than half of all numbers are buffered out of order.
pub proof fn law_recorded_number_is_not_new_again(w: WindowView, number: u32)
    requires
        w.wf(),
        w.received.len() < SEQ_HALF - 1,
    ensures
        record_step(record_step(w, number).0, number) == (record_step(w, number).0, false),
{
    let seq = seq_plus(number, 0);
    let (next, _) = record_step(w, number);
    if !w.started {
        let all = w.received.insert(seq);
        let n = lemma_advance(seq, 0, all);
        assert(all.len() <= 1);
        if !next.received.contains(seq) {
            assert(distance(seq, next.low) == n);
        }
    } else if is_behind_and_seen(w, seq) || w.received.contains(seq) || ahead(w.low, seq) {
    } else {
        let all = w.received.insert(seq);
        let n = lemma_advance(w.low, w.prefix, all);
        if !next.received.contains(seq) {
            let j = choose|j: int| 0 <= j < n && seq == #[trigger] seq_plus(w.low, j);
            assert(next.low == seq_plus(w.low, n as int));
            assert(distance(seq, next.low) == n - j);
        }
    }
}

/// A number of the contiguous prefix is ignored, and so is one that was received from before the
/// prefix or that is buffered.
pub proof fn law_old_numbers_are_ignored(w: WindowView, number: u32)
    requires
        w.started,
        is_behind_and_seen(w, seq_plus(number, 0)) || w.received.contains(seq_plus(number, 0)),
    ensures
        record_step(w, number) == (w, false),
{
}

// ==================== A list of recordings ====================

/// The window after numbers were recorded one after the other.
pub open spec fn recorded(list: Seq<u32>) -> WindowView
    decreases list.len(),
{
    if list.len() == 0 {
        new_window()
    } else {
        record_step(recorded(list.drop_last()), list.last()).0
    }
}

/// The sequence numbers of a list.
pub open spec fn numbers_of(list: Seq<u32>) -> Set<u32> {
    list.map_values(|x: u32| seq_plus(x, 0)).to_set()
}

/// A number lies at most `behind` steps before the first one or at most `ahead` steps after it.
#[verifier::opaque]
pub open spec fn is_near(first: u32, x: u32, behind: nat, ahead: nat) -> bool {
    distance(first, x) <= ahead || distance(x, first) <= behind
}

/// No number of a list lies more than `behind` steps before its first one or more than `ahead`
/// steps after it, and that is less than half of all numbers.
pub open spec fn spans(list: Seq<u32>, behind: nat, ahead: nat) -> bool {
    &&& list.len() > 0
    &&& behind + ahead + 1 < SEQ_HALF
    &&& forall|i: int|
        0 <= i < list.len() ==> is_near(list[0], #[trigger] list[i], behind, ahead)
}

proof fn lemma_numbers_of(list: Seq<u32>)
    requires
        list.len() > 0,
    ensures
        numbers_of(list) == numbers_of(list.drop_last()).insert(seq_plus(list.last(), 0)),
{
    let all = list.map_values(|x: u32| seq_plus(x, 0));
    let prev = list.drop_last().map_values(|x: u32| seq_plus(x, 0));
    let last = seq_plus(list.last(), 0);
    assert forall|x: u32| all.contains(x) <==> prev.contains(x) || x == last by {
        if all.contains(x) {
            let i = choose|i: int| 0 <= i < all.len() && all[i] == x;
            if i < prev.len() {
                assert(prev[i] == x);
            }
        }
        if prev.contains(x) {
            let i = choose|i: int| 0 <= i < prev.len() && prev[i] == x;
            assert(all[i] == x);
        }
        assert(all[all.len() - 1] == last);
    }
    assert(numbers_of(list) =~= numbers_of(list.drop_last()).insert(last));
}

/// The distance from `s`, whose arithmetic the proofs below go into only where they need it.
#[verifier::opaque]
spec fn offset(s: u32, x: u32) -> int {
    distance(s, x) as int
}

/// An offset names one number.
proof fn lemma_offset(s: u32, x: u32)
    requires
        s < SEQ_COUNT,
        x < SEQ_COUNT,
    ensures
        0 <= offset(s, x) < SEQ_COUNT,
        offset(s, x) == distance(s, x),
        seq_plus(s, offset(s, x)) == x,
        offset(s, x) == 0 <==> x == s,
{
    reveal(offset);
}

/// The distances between two numbers, from their offsets.
proof fn lemma_offsets(s: u32, a: u32, b: u32)
    requires
        s < SEQ_COUNT,
        a < SEQ_COUNT,
        b < SEQ_COUNT,
        offset(s, a) <= offset(s, b),
    ensures
        distance(a, b) == offset(s, b) - offset(s, a),
        distance(b, a) == (if a == b {
            0
        } else {
            SEQ_COUNT - (offset(s, b) - offset(s, a))
        }),
        a == b <==> offset(s, a) == offset(s, b),
{
    reveal(offset);
}

proof fn lemma_offset_of_plus(s: u32, a: u32, j: int)
    requires
        s < SEQ_COUNT,
        a < SEQ_COUNT,
        0 <= j,
        offset(s, a) + j < SEQ_COUNT,
    ensures
        offset(s, seq_plus(a, j)) == offset(s, a) + j,
        seq_plus(a, j) < SEQ_COUNT,
{
    reveal(offset);
}

/// The window holds what was seen, where `s` was seen first: the prefix from `s` on was seen, the
/// number after it was not, the buffered numbers are those seen beyond, the early ones those seen
/// before `s`, and none of those after `s` is farther than the highest.
#[verifier::opaque]
spec fn tracks(w: WindowView, s: u32, seen: Set<u32>, behind: nat, far: nat) -> bool {
    &&& s < SEQ_COUNT
    &&& behind + far + 1 < SEQ_HALF
    &&& w.started
    &&& w.low < SEQ_COUNT
    &&& w.received.finite()
    &&& 1 <= offset(s, w.low) <= far + 1
    &&& w.prefix == offset(s, w.low)
    &&& !seen.contains(w.low)
    &&& forall|x: u32| #[trigger]
        seen.contains(x) ==> x < SEQ_COUNT && (offset(s, x) <= far || offset(s, x) >= SEQ_COUNT
            - behind)
    &&& forall|x: u32|
        x < SEQ_COUNT && offset(s, x) < offset(s, w.low) ==> #[trigger] seen.contains(x)
    &&& forall|x: u32| #[trigger]
        w.received.contains(x) <==> seen.contains(x) && offset(s, w.low) < offset(s, x) <= far
    &&& forall|x: u32| #[trigger]
        w.early.contains(x) <==> seen.contains(x) && offset(s, x) > far
    &&& seen.contains(w.high)
    &&& offset(s, w.high) <= far
    &&& forall|x: u32| #[trigger]
        seen.contains(x) && offset(s, x) <= far ==> offset(s, x) <= offset(s, w.high)
}

/// What taking the prefix on does, in offsets from `s`.
proof fn lemma_advance_offsets(s: u32, low: u32, prefix: u32, received: Set<u32>, far: nat) -> (n:
    nat)
    requires
        s < SEQ_COUNT,
        low < SEQ_COUNT,
        prefix <= SEQ_HALF,
        received.finite(),
        far + 1 < SEQ_HALF,
        0 <= offset(s, low) <= far + 1,
        forall|x: u32| #[trigger]
            received.contains(x) ==> x < SEQ_COUNT && offset(s, low) <= offset(s, x) <= far,
    ensures
        ({
            let (end, len, rest) = advance(low, prefix, received);
            let e = offset(s, low) + n;
            &&& end < SEQ_COUNT
            &&& offset(s, end) == e
            &&& e <= far + 1
            &&& len == longer(prefix, n as int)
            &&& rest.finite()
            &&& !received.contains(end)
            &&& forall|x: u32| #[trigger]
                rest.contains(x) <==> received.contains(x) && offset(s, x) >= e
            &&& forall|x: u32|
                x < SEQ_COUNT && offset(s, low) <= offset(s, x) < e ==> #[trigger]
                received.contains(x)
        }),
{
    let n = lemma_advance(low, prefix, received);
    let (end, len, rest) = advance(low, prefix, received);
    let p = offset(s, low);
    let e = p + n;
    if e > far + 1 {
        let j = far + 1 - p;
        lemma_offset_of_plus(s, low, j);
        assert(received.contains(seq_plus(low, j)));
    }
    lemma_offset_of_plus(s, low, n as int);
    assert forall|x: u32| #[trigger]
        rest.contains(x) <==> received.contains(x) && offset(s, x) >= e by {
        if rest.contains(x) && offset(s, x) < e {
            let j = offset(s, x) - p;
            lemma_offset_of_plus(s, low, j);
            lemma_offset(s, x);
            lemma_offset(s, seq_plus(low, j));
            assert(x == seq_plus(low, j));
        }
        if received.contains(x) && offset(s, x) >= e && !rest.contains(x) {
            let j = choose|j: int| 0 <= j < n && x == #[trigger] seq_plus(low, j);
            lemma_offset_of_plus(s, low, j);
        }
    }
    assert forall|x: u32| x < SEQ_COUNT && p <= offset(s, x) < e implies #[trigger]
    received.contains(x) by {
        let j = offset(s, x) - p;
        lemma_offset_of_plus(s, low, j);
        lemma_offset(s, x);
        lemma_offset(s, seq_plus(low, j));
        assert(x == seq_plus(low, j));
    }
    assert(!rest.contains(end));
    n
}

proof fn lemma_first_recorded(number: u32, behind: nat, far: nat)
    requires
        behind + far + 1 < SEQ_HALF,
    ensures
        ({
            let s = seq_plus(number, 0);
            tracks(
                record_step(new_window(), number).0,
                s,
                Set::empty().insert(s),
                behind,
                far,
            )
        }),
{
    let s = seq_plus(number, 0);
    let all = Set::<u32>::empty().insert(s);
    let w = record_step(new_window(), number).0;
    lemma_offset(s, s);
    let n = lemma_advance_offsets(s, s, 0, all, far);
    reveal(tracks);
    lemma_offset(s, w.low);
    if n > 1 {
        lemma_offset_of_plus(s, s, 1);
        assert(all.contains(seq_plus(s, 1)));
    }
    assert(n == 1);
    assert forall|x: u32| x < SEQ_COUNT && offset(s, x) < offset(s, w.low) implies #[trigger]
    all.contains(x) by {
        lemma_offset(s, x);
    }
}

proof fn lemma_recorded_next(
    w: WindowView,
    s: u32,
    seen: Set<u32>,
    behind: nat,
    far: nat,
    number: u32,
)
    requires
        tracks(w, s, seen, behind, far),
        is_near(s, number, behind, far),
    ensures
        tracks(
            record_step(w, number).0,
            s,
            seen.insert(seq_plus(number, 0)),
            behind,
            far,
        ),
        record_step(w, number).1 <==> !seen.contains(seq_plus(number, 0)),
{
    let seq = seq_plus(number, 0);
    assert(s < SEQ_COUNT && w.low < SEQ_COUNT && offset(s, w.low) >= 1 && behind + far + 1
        < SEQ_HALF) by {
        reveal(tracks);
    }
    reveal(is_near);
    assert(distance(s, number) == distance(s, seq));
    assert(distance(number, s) == distance(seq, s));
    lemma_offset(s, seq);
    lemma_offset(s, s);
    lemma_offsets(s, s, seq);
    lemma_offset(s, w.low);
    lemma_recorded_seq(w, s, seen, behind, far, seq);
    assert(seq_plus(seq, 0) == seq);
}

proof fn lemma_recorded_seq(
    w: WindowView,
    s: u32,
    seen: Set<u32>,
    behind: nat,
    far: nat,
    seq: u32,
)
    requires
        tracks(w, s, seen, behind, far),
        seq < SEQ_COUNT,
        0 <= offset(s, seq) <= far || SEQ_COUNT - behind <= offset(s, seq) < SEQ_COUNT,
    ensures
        tracks(record_step(w, seq).0, s, seen.insert(seq), behind, far),
        record_step(w, seq).1 <==> !seen.contains(seq),
{
    assert(seq_plus(seq, 0) == seq);
    reveal(tracks);
    let d = offset(s, seq);
    let p = offset(s, w.low);
    if d < p {
        lemma_offsets(s, seq, w.low);
        assert(seen.contains(seq));
    } else {
        lemma_offsets(s, w.low, seq);
        if d <= far && !seen.contains(seq) {
            lemma_new_recorded(w, s, seen, behind, far, seq);
        }
    }
    if seen.contains(seq) {
        assert(seen.insert(seq) =~= seen);
    }
}

proof fn lemma_new_recorded(
    w: WindowView,
    s: u32,
    seen: Set<u32>,
    behind: nat,
    far: nat,
    seq: u32,
)
    requires
        tracks(w, s, seen, behind, far),
        seq < SEQ_COUNT,
        offset(s, w.low) <= offset(s, seq) <= far,
        !seen.contains(seq),
    ensures
        ({
            let (low, prefix, received) = advance(w.low, w.prefix, w.received.insert(seq));
            let high = if ahead(seq, w.high) {
                seq
            } else {
                w.high
            };
            tracks(
                WindowView { low, high, received, started: true, prefix, early: w.early },
                s,
                seen.insert(seq),
                behind,
                far,
            )
        }),
{
    reveal(tracks);
    let all = w.received.insert(seq);
    let more = seen.insert(seq);
    let n = lemma_advance_offsets(s, w.low, w.prefix, all, far);
    let (low, prefix, received) = advance(w.low, w.prefix, all);
    lemma_offset(s, w.high);
    if offset(s, w.high) <= offset(s, seq) {
        lemma_offsets(s, w.high, seq);
    } else {
        lemma_offsets(s, seq, w.high);
    }
    assert(ahead(seq, w.high) <==> offset(s, seq) > offset(s, w.high));
    if n == 0 {
        lemma_offset(s, w.low);
        lemma_offset(s, low);
        assert(low == w.low);
    }
    assert(!more.contains(low)) by {
        if seen.contains(low) {
            assert(w.received.contains(low));
        }
    }
    assert forall|x: u32| x < SEQ_COUNT && offset(s, x) < offset(s, low) implies #[trigger]
    more.contains(x) by {
        if offset(s, x) >= offset(s, w.low) {
            assert(all.contains(x));
        } else {
            assert(seen.contains(x));
        }
    }
    assert forall|x: u32| #[trigger]
        received.contains(x) <==> more.contains(x) && offset(s, low) < offset(s, x) <= far by {
        if more.contains(x) && offset(s, low) < offset(s, x) <= far {
            assert(all.contains(x));
        }
        if received.contains(x) && offset(s, x) == offset(s, low) {
            lemma_offset(s, x);
            lemma_offset(s, low);
        }
    }
}

proof fn lemma_near_number(first: u32, x: u32, behind: nat, far: nat)
    requires
        is_near(first, x, behind, far),
    ensures
        is_near(seq_plus(first, 0), x, behind, far),
{
    reveal(is_near);
}

/// All but the last number of a list lie round the first one as well, and so does the last.
proof fn lemma_spans_less(list: Seq<u32>, behind: nat, far: nat)
    requires
        spans(list, behind, far),
        list.len() > 1,
    ensures
        spans(list.drop_last(), behind, far),
        is_near(seq_plus(list[0], 0), list.last(), behind, far),
{
    let prev = list.drop_last();
    assert forall|i: int| 0 <= i < prev.len() implies is_near(
        prev[0],
        #[trigger] prev[i],
        behind,
        far,
    ) by {
        assert(prev[i] == list[i]);
    }
    assert(list[list.len() - 1] == list.last());
    lemma_near_number(list[0], list.last(), behind, far);
}

proof fn lemma_recorded_tracks(list: Seq<u32>, behind: nat, far: nat)
    requires
        spans(list, behind, far),
    ensures
        tracks(recorded(list), seq_plus(list[0], 0), numbers_of(list), behind, far),
    decreases list.len(),
{
    let prev = list.drop_last();
    let s = seq_plus(list[0], 0);
    lemma_numbers_of(list);
    if list.len() == 1 {
        assert(prev.map_values(|x: u32| seq_plus(x, 0)) =~= Seq::<u32>::empty());
        assert(numbers_of(prev) =~= Set::<u32>::empty());
        assert(recorded(prev) == new_window());
        lemma_first_recorded(list[0], behind, far);
    } else {
        lemma_spans_less(list, behind, far);
        lemma_recorded_tracks(prev, behind, far);
        let last = list.last();
        lemma_recorded_next(recorded(prev), s, numbers_of(prev), behind, far, last);
    }
}

/// However numbers come, within less than half of all numbers round the first one: a number is
/// new exactly when it was never recorded before, also where it lies before the first one.
pub proof fn law_new_exactly_once(list: Seq<u32>, number: u32, behind: nat, ahead: nat)
    requires
        spans(list.push(number), behind, ahead),
    ensures
        record_step(recorded(list), number).1 <==> !numbers_of(list).contains(
            seq_plus(number, 0),
        ),
{
    let more = list.push(number);
    if list.len() == 0 {
        assert(list.map_values(|x: u32| seq_plus(x, 0)) =~= Seq::<u32>::empty());
        assert(!numbers_of(list).contains(seq_plus(number, 0)));
    } else {
        let s = seq_plus(list[0], 0);
        assert(more.drop_last() =~= list);
        lemma_spans_less(more, behind, ahead);
        lemma_recorded_tracks(list, behind, ahead);
        lemma_recorded_next(recorded(list), s, numbers_of(list), behind, ahead, number);
    }
}

/// The gaps from `low` on are those from `p` numbers earlier on, where all of these were seen.
proof fn lemma_gaps_shift(s: u32, p: nat, seen: Set<u32>, received: Set<u32>, n: nat)
    requires
        s < SEQ_COUNT,
        forall|k: int| 0 <= k < p ==> !absent(s, seen, k),
        forall|k: int|
            0 <= k < n ==> (#[trigger] absent(seq_plus(s, p as int), received, k) <==> absent(
                s,
                seen,
                p + k,
            )),
    ensures
        gaps(s, seen, p + n) == gaps(seq_plus(s, p as int), received, n).map_values(
            |r: (int, int)| (r.0 + p, r.1 + p),
        ),
    decreases p + n,
{
    let low = seq_plus(s, p as int);
    let up = |r: (int, int)| (r.0 + p, r.1 + p);
    if n == 0 {
        if p > 0 {
            let less = (p - 1) as nat;
            lemma_gaps_shift(s, less, seen, received, 0);
            assert(!absent(s, seen, p - 1));
        }
        assert(gaps(s, seen, p + n) =~= gaps(low, received, n).map_values(up));
    } else {
        let m = (n - 1) as nat;
        lemma_gaps_shift(s, p, seen, received, m);
        let before = gaps(low, received, m);
        let shifted = before.map_values(up);
        assert(gaps(s, seen, p + m) == shifted);
        assert(absent(low, received, m as int) <==> absent(s, seen, (p + m) as int));
        if before.len() > 0 {
            assert(shifted.last() == up(before.last()));
            assert(shifted.drop_last() =~= before.drop_last().map_values(up));
        }
        assert(gaps(s, seen, (p + n) as nat) =~= gaps(low, received, n).map_values(up));
    }
}

/// The missing numbers are those that were never recorded: however numbers come, within less than
/// half of all numbers round the first one, the highest number seen is the farthest one after the
/// first, and the list of the missing numbers names, as maximal runs in circular order, exactly
/// the numbers between these two that were never recorded. It is empty when there are none.
pub proof fn law_missing_was_never_recorded(list: Seq<u32>, behind: nat, ahead: nat)
    requires
        spans(list, behind, ahead),
    ensures
        ({
            let w = recorded(list);
            let first = seq_plus(list[0], 0);
            let seen = numbers_of(list);
            let span = distance(first, w.high);
            &&& seen.contains(w.high)
            &&& span <= ahead
            &&& forall|x: u32| #[trigger]
                seen.contains(x) && distance(first, x) <= ahead ==> distance(first, x) <= span
            &&& missing_of(w) == gap_entries(first, gaps(first, seen, (span + 1) as nat))
            &&& missing_of(w).len() == 0 <==> forall|k: int|
                0 <= k <= span ==> seen.contains(#[trigger] seq_plus(first, k))
        }),
{
    let w = recorded(list);
    let s = seq_plus(list[0], 0);
    let seen = numbers_of(list);
    lemma_recorded_tracks(list, behind, ahead);
    lemma_missing(w, s, seen, behind, ahead);
    assert forall|x: u32| #[trigger] seen.contains(x) && distance(s, x) <= ahead implies distance(
        s,
        x,
    ) <= distance(s, w.high) by {
        reveal(tracks);
        reveal(offset);
    }
}

proof fn lemma_missing(w: WindowView, s: u32, seen: Set<u32>, behind: nat, far: nat)
    requires
        tracks(w, s, seen, behind, far),
    ensures
        ({
            let span = distance(s, w.high);
            &&& seen.contains(w.high)
            &&& span <= far
            &&& missing_of(w) == gap_entries(s, gaps(s, seen, (span + 1) as nat))
            &&& missing_of(w).len() == 0 <==> forall|k: int|
                0 <= k <= span ==> seen.contains(#[trigger] seq_plus(s, k))
        }),
{
    reveal(tracks);
    let p = offset(s, w.low) as nat;
    let span = offset(s, w.high) as nat;
    lemma_offset(s, w.low);
    lemma_offset(s, w.high);
    lemma_offset(s, s);
    assert forall|k: int| 0 <= k < SEQ_COUNT implies #[trigger] seq_plus(s, k) < SEQ_COUNT
        && offset(s, seq_plus(s, k)) == k by {
        lemma_offset_of_plus(s, s, k);
    }
    assert forall|k: int| 0 <= k < p implies !absent(s, seen, k) by {}
    if w.received.is_empty() {
        if span > p {
            assert(w.received.contains(w.high));
        }
        assert(seen.contains(seq_plus(s, p - 1)));
        assert(span == p - 1);
        lemma_gaps_shift(s, p, seen, w.received, 0);
        assert(gaps(s, seen, p).len() == 0);
        assert(missing_of(w) =~= gap_entries(s, gaps(s, seen, (span + 1) as nat)));
    } else {
        let buffered = choose|x: u32| w.received.contains(x);
        assert(w.received.contains(buffered));
        let n = (span + 1 - p) as nat;
        lemma_offsets(s, w.low, w.high);
        assert forall|k: int| 0 <= k < n implies (#[trigger] absent(
            seq_plus(s, p as int),
            w.received,
            k,
        ) <==> absent(s, seen, p + k)) by {
            assert(seq_plus(seq_plus(s, p as int), k) == seq_plus(s, p + k)) by {
                lemma_seq_plus(s, p as int, k);
            }
        }
        lemma_gaps_shift(s, p, seen, w.received, n);
        lemma_entries_shift(s, p, gaps(w.low, w.received, n));
    }
    law_gaps_cover_the_absent(s, seen, span + 1);
    let runs = gaps(s, seen, span + 1);
    if runs.len() == 0 {
        assert forall|k: int| 0 <= k <= span implies seen.contains(#[trigger] seq_plus(s, k)) by {
            assert(!in_gaps(runs, k));
            assert(!absent(s, seen, k));
        }
    } else {
        let k = runs[0].0;
        assert(in_gaps(runs, k));
        assert(!seen.contains(seq_plus(s, k)));
    }
}

proof fn lemma_entries_shift(s: u32, p: nat, runs: Seq<(int, int)>)
    ensures
        gap_entries(seq_plus(s, p as int), runs) == gap_entries(
            s,
            runs.map_values(|r: (int, int)| (r.0 + p, r.1 + p)),
        ),
{
    let low = seq_plus(s, p as int);
    let up = runs.map_values(|r: (int, int)| (r.0 + p, r.1 + p));
    assert forall|i: int| 0 <= i < runs.len() implies #[trigger] gap_entries(low, runs)[i]
        == gap_entries(s, up)[i] by {
        lemma_seq_plus(s, p as int, runs[i].0);
        lemma_seq_plus(s, p as int, runs[i].1);
    }
    assert(gap_entries(low, runs) =~= gap_entries(s, up));
}

// ==================== Circular numbers ====================

/// The 24-bit numbers are a circle: behind the last one comes 0, and before 0 the last one. A number
/// is newer than another if it is less than half of the circle ahead of it.
#[verifier::spinoff_prover]
pub proof fn law_circle(a: u32, b: u32)
    requires
        a < 0x100_0000,
        b < 0x100_0000,
    ensures
        seq_plus(a, 0) == a,
        seq_plus(a, 1) == (if a == 0xff_ffff {
            0
        } else {
            a + 1
        }),
        seq_plus(a, -1) == (if a == 0 {
            0xff_ffff
        } else {
            a - 1
        }),
        a <= b ==> distance(a, b) == b - a,
        a > b ==> distance(a, b) == 0x100_0000 - a + b,
        ahead(a, b) <==> (b < a < b + 0x80_0000 || a + 0x80_0000 < b),
{
}

/// A window begins with nothing received, awaits number 0 and misses nothing; the first number that
/// is recorded is new, whatever it is, and nothing is missing then.
pub proof fn law_new_window(number: u32)
    ensures
        ({
            let w = new_window();
            let (next, new) = record_step(w, number);
            &&& w.wf()
            &&& w.low == 0 && w.high == 0 && w.prefix == 0
            &&& !w.started && w.received.is_empty() && w.early.is_empty()
            &&& missing_of(w).len() == 0
            &&& new && next.started
            &&& next.high == number % 0x100_0000
            &&& next.low == (number + 1) % 0x100_0000
            &&& missing_of(next).len() == 0
        }),
{
    let seq = seq_plus(number, 0);
    let one = Set::<u32>::empty().insert(seq);
    assert(one.remove(seq) =~= Set::<u32>::empty());
    reveal_with_fuel(advance, 3);
    let (low, prefix, rest) = advance(seq, 0, one);
    assert(one.contains(seq) && one.finite());
    assert(!Set::<u32>::empty().contains(seq_plus(seq, 1)));
    assert(low == seq_plus(seq, 1));
    assert(rest =~= Set::<u32>::empty());
    lemma_seq_plus(number, 0, 1);
}

} // verus!
