//! Half-open intervals, the overlap test, and the plain left-to-right scan that
//! every faster search is measured against.

use vstd::prelude::*;
use vstd::seq_lib::{to_multiset_contains, to_multiset_len, to_multiset_remove};

verus! {

/// A half-open range `[st, en)` together with `max`, the slot in which a tree
/// keeps the largest end found below this entry.
#[derive(Clone, Copy, Debug, PartialEq, Eq, Structural)]
pub struct Interval {
    pub st: i32,
    pub en: i32,
    pub max: i32,
}

/// `[iv.st, iv.en)` and `[st, en)` overlap: each starts before the other ends.
pub open spec fn overlaps(iv: Interval, st: int, en: int) -> bool {
    iv.st < en && st < iv.en
}

/// Ascending by start; equal starts stand in any order.
pub open spec fn sorted_by_start(s: Seq<Interval>) -> bool {
    forall|i: int, j: int| 0 <= i <= j < s.len() ==> s[i].st <= s[j].st
}

/// The ranges that `s` holds, in order, without the `max` slots.
pub open spec fn spans(s: Seq<Interval>) -> Seq<(int, int)> {
    Seq::new(s.len(), |i: int| (s[i].st as int, s[i].en as int))
}

/// The entries of `s` that overlap `[st, en)`, in the order in which they stand
/// in `s`: what testing every entry in turn gives.
pub open spec fn scan(s: Seq<Interval>, st: int, en: int) -> Seq<Interval>
    decreases s.len(),
{
    if s.len() == 0 {
        Seq::empty()
    } else {
        let rest = scan(s.drop_last(), st, en);
        if overlaps(s.last(), st, en) {
            rest.push(s.last())
        } else {
            rest
        }
    }
}

/// Scanning one entry further appends that entry if it overlaps.
pub proof fn lemma_scan_step(s: Seq<Interval>, st: int, en: int, c: int)
    requires
        0 <= c < s.len(),
    ensures
        scan(s.take(c + 1), st, en) == if overlaps(s[c], st, en) {
            scan(s.take(c), st, en).push(s[c])
        } else {
            scan(s.take(c), st, en)
        },
{
    assert(s.take(c + 1).drop_last() =~= s.take(c));
}

/// A stretch without overlapping entries adds nothing to the scan.
pub proof fn lemma_scan_skip(s: Seq<Interval>, st: int, en: int, a: int, b: int)
    requires
        0 <= a <= b <= s.len(),
        forall|j: int| a <= j < b ==> !overlaps(#[trigger] s[j], st, en),
    ensures
        scan(s.take(b), st, en) == scan(s.take(a), st, en),
    decreases b - a,
{
    if a < b {
        lemma_scan_skip(s, st, en, a, b - 1);
        lemma_scan_step(s, st, en, b - 1);
    }
}

/// The scan holds exactly the overlapping entries: none is missing, and none
/// that stands in it fails the test.
pub proof fn lemma_scan_members(s: Seq<Interval>, st: int, en: int)
    ensures
        forall|iv: Interval|
            (#[trigger] scan(s, st, en).contains(iv)) <==> s.contains(iv) && overlaps(iv, st, en),
    decreases s.len(),
{
    if s.len() > 0 {
        let t = s.drop_last();
        let l = s.last();
        lemma_scan_members(t, st, en);
        let r = scan(t, st, en);
        assert forall|iv: Interval|
            (#[trigger] scan(s, st, en).contains(iv)) <==> s.contains(iv) && overlaps(iv, st, en) by {
            if scan(s, st, en).contains(iv) {
                if overlaps(l, st, en) {
                    let i = choose|i: int| 0 <= i < r.push(l).len() && r.push(l)[i] == iv;
                    if i < r.len() {
                        assert(r[i] == iv);
                        assert(r.contains(iv));
                    } else {
                        assert(iv == l);
                    }
                }
                if iv != l || !overlaps(l, st, en) {
                    assert(r.contains(iv));
                    let i = choose|i: int| 0 <= i < t.len() && t[i] == iv;
                    assert(s[i] == iv);
                } else {
                    assert(s[s.len() - 1] == iv);
                }
            }
            if s.contains(iv) && overlaps(iv, st, en) {
                let i = choose|i: int| 0 <= i < s.len() && s[i] == iv;
                if i < t.len() {
                    assert(t[i] == iv);
                    assert(t.contains(iv));
                    assert(r.contains(iv));
                    let k = choose|k: int| 0 <= k < r.len() && r[k] == iv;
                    if overlaps(l, st, en) {
                        assert(r.push(l)[k] == iv);
                    }
                } else {
                    assert(iv == l);
                    assert(r.push(l)[r.len() as int] == iv);
                }
            }
        }
    } else {
        assert forall|iv: Interval|
            (#[trigger] scan(s, st, en).contains(iv)) <==> s.contains(iv) && overlaps(iv, st, en) by {
            assert(!s.contains(iv));
        }
    }
}

/// The scan finds no more entries than there are.
pub proof fn lemma_scan_len(s: Seq<Interval>, st: int, en: int)
    ensures
        scan(s, st, en).len() <= s.len(),
    decreases s.len(),
{
    if s.len() > 0 {
        lemma_scan_len(s.drop_last(), st, en);
    }
}

/// The scan of a sorted sequence is sorted.
pub proof fn lemma_scan_sorted(s: Seq<Interval>, st: int, en: int)
    requires
        sorted_by_start(s),
    ensures
        sorted_by_start(scan(s, st, en)),
    decreases s.len(),
{
    if s.len() > 0 {
        let t = s.drop_last();
        let l = s.last();
        let r = scan(t, st, en);
        assert(sorted_by_start(t)) by {
            assert forall|i: int, j: int| 0 <= i <= j < t.len() implies t[i].st <= t[j].st by {
                assert(s[i].st <= s[j].st);
            }
        }
        lemma_scan_sorted(t, st, en);
        lemma_scan_members(t, st, en);
        if overlaps(l, st, en) {
            let q = r.push(l);
            assert forall|i: int, j: int| 0 <= i <= j < q.len() implies q[i].st <= q[j].st by {
                if j < r.len() {
                    assert(r[i].st <= r[j].st);
                } else if i < r.len() {
                    assert(r.contains(r[i]));
                    assert(t.contains(r[i]));
                    let k = choose|k: int| 0 <= k < t.len() && t[k] == r[i];
                    assert(s[k].st <= s[s.len() - 1].st);
                }
            }
        }
    }
}

/// Taking one entry away takes it out of the scan, if it was in it.
pub proof fn lemma_scan_remove(s: Seq<Interval>, st: int, en: int, i: int)
    requires
        0 <= i < s.len(),
    ensures
        scan(s.remove(i), st, en).len() + (if overlaps(s[i], st, en) { 1int } else { 0int }) == scan(
            s,
            st,
            en,
        ).len(),
    decreases s.len(),
{
    if i == s.len() - 1 {
        assert(s.remove(i) =~= s.drop_last());
    } else {
        let t = s.drop_last();
        lemma_scan_remove(t, st, en, i);
        assert(s.remove(i).drop_last() =~= t.remove(i));
        assert(s.remove(i).last() == s.last());
    }
}

/// How many entries overlap a window depends on which ranges are held and how
/// often, not on their order.
pub proof fn lemma_hits_by_content(s1: Seq<Interval>, s2: Seq<Interval>, st: int, en: int)
    requires
        spans(s1).to_multiset() == spans(s2).to_multiset(),
    ensures
        scan(s1, st, en).len() == scan(s2, st, en).len(),
    decreases s1.len(),
{
    to_multiset_len(spans(s1));
    to_multiset_len(spans(s2));
    if s1.len() > 0 {
        let last = s1.len() - 1;
        let v = spans(s1)[last];
        assert(spans(s1).contains(v));
        to_multiset_contains(spans(s1), v);
        to_multiset_contains(spans(s2), v);
        let i = choose|i: int| 0 <= i < spans(s2).len() && spans(s2)[i] == v;
        let t1 = s1.drop_last();
        let t2 = s2.remove(i);
        assert(spans(t1) =~= spans(s1).remove(last));
        assert(spans(t2) =~= spans(s2).remove(i));
        to_multiset_remove(spans(s1), last);
        to_multiset_remove(spans(s2), i);
        lemma_hits_by_content(t1, t2, st, en);
        lemma_scan_remove(s2, st, en, i);
        assert(overlaps(s1.last(), st, en) == overlaps(s2[i], st, en));
    }
}

} // verus!
