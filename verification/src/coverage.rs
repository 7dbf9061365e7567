//! How much of a window a set of intervals covers: the number of integer points
//! of the window that lie in at least one of them, found by one sweep over
//! intervals sorted by start.

use vstd::prelude::*;
use vstd::set_lib::{set_int_range, lemma_int_range, lemma_len_subset, lemma_set_disjoint_lens};
use vstd::seq_lib::to_multiset_contains;
use crate::interval::{Interval, overlaps, sorted_by_start, scan, spans, lemma_scan_members};

verus! {

/// Point `p` lies in one of the ranges of `s`.
pub open spec fn covers(s: Seq<Interval>, p: int) -> bool {
    exists|i: int| 0 <= i < s.len() && (#[trigger] s[i]).st <= p && p < s[i].en
}

/// The points of the window `[st, en)` that lie in one of the ranges of `s`.
pub open spec fn covered_points(s: Seq<Interval>, st: int, en: int) -> Set<int> {
    Set::new(|p: int| st <= p < en && covers(s, p))
}

/// The range of `iv` cut down to the window `[st, en)`; empty where the two do
/// not meet.
pub open spec fn clipped(iv: Interval, st: int, en: int) -> Set<int> {
    set_int_range(if st > iv.st { st } else { iv.st as int }, if en < iv.en { en } else { iv.en as int })
}

/// One more interval adds its clipped range to the covered points.
pub proof fn lemma_cover_step(s: Seq<Interval>, st: int, en: int, k: int)
    requires
        0 <= k < s.len(),
    ensures
        covered_points(s.take(k + 1), st, en) =~= covered_points(s.take(k), st, en) + clipped(
            s[k],
            st,
            en,
        ),
{
    let a = s.take(k);
    let b = s.take(k + 1);
    assert forall|p: int| st <= p < en implies (covers(b, p) <==> covers(a, p) || s[k].st <= p
        < s[k].en) by {
        if covers(b, p) {
            let i = choose|i: int| 0 <= i < b.len() && (#[trigger] b[i]).st <= p && p < b[i].en;
            if i < k {
                assert(a[i].st <= p && p < a[i].en);
            }
        }
        if covers(a, p) {
            let i = choose|i: int| 0 <= i < a.len() && (#[trigger] a[i]).st <= p && p < a[i].en;
            assert(b[i].st <= p && p < b[i].en);
        }
        if s[k].st <= p < s[k].en {
            assert(b[k].st <= p && p < b[k].en);
        }
    }
}

/// The covered points are finitely many, and no more than the window is long.
pub proof fn lemma_coverage_bounds(s: Seq<Interval>, st: int, en: int)
    ensures
        covered_points(s, st, en).finite(),
        st <= en ==> covered_points(s, st, en).len() <= en - st,
        st > en ==> covered_points(s, st, en).len() == 0,
{
    if st <= en {
        lemma_int_range(st, en);
        lemma_len_subset(covered_points(s, st, en), set_int_range(st, en));
    } else {
        assert(covered_points(s, st, en) =~= Set::empty());
    }
}

/// Only intervals that overlap the window cover any of it.
pub proof fn lemma_cover_by_hits(s: Seq<Interval>, st: int, en: int)
    ensures
        covered_points(scan(s, st, en), st, en) == covered_points(s, st, en),
{
    let h = scan(s, st, en);
    lemma_scan_members(s, st, en);
    assert forall|p: int| st <= p < en implies (covers(h, p) <==> covers(s, p)) by {
        if covers(h, p) {
            let i = choose|i: int| 0 <= i < h.len() && (#[trigger] h[i]).st <= p && p < h[i].en;
            assert(h.contains(h[i]));
            assert(s.contains(h[i]));
            let j = choose|j: int| 0 <= j < s.len() && s[j] == h[i];
            assert(s[j].st <= p && p < s[j].en);
        }
        if covers(s, p) {
            let j = choose|j: int| 0 <= j < s.len() && (#[trigger] s[j]).st <= p && p < s[j].en;
            assert(s.contains(s[j]));
            assert(overlaps(s[j], st, en));
            assert(h.contains(s[j]));
            let i = choose|i: int| 0 <= i < h.len() && h[i] == s[j];
            assert(h[i].st <= p && p < h[i].en);
        }
    }
    assert(covered_points(h, st, en) =~= covered_points(s, st, en));
}

/// Which points are covered depends on which ranges are held, not on their
/// order.
pub proof fn lemma_cover_by_content(s1: Seq<Interval>, s2: Seq<Interval>, st: int, en: int)
    requires
        spans(s1).to_multiset() == spans(s2).to_multiset(),
    ensures
        covered_points(s1, st, en) == covered_points(s2, st, en),
{
    assert forall|p: int| covers(s1, p) <==> covers(s2, p) by {
        if covers(s1, p) {
            lemma_cover_moves(s1, s2, p);
        }
        if covers(s2, p) {
            lemma_cover_moves(s2, s1, p);
        }
    }
    assert(covered_points(s1, st, en) =~= covered_points(s2, st, en));
}

/// A point covered by one sequence is covered by any other that holds the
/// same ranges.
proof fn lemma_cover_moves(s1: Seq<Interval>, s2: Seq<Interval>, p: int)
    requires
        spans(s1).to_multiset() == spans(s2).to_multiset(),
        covers(s1, p),
    ensures
        covers(s2, p),
{
    let i = choose|i: int| 0 <= i < s1.len() && (#[trigger] s1[i]).st <= p && p < s1[i].en;
    let v = spans(s1)[i];
    assert(spans(s1).contains(v));
    to_multiset_contains(spans(s1), v);
    to_multiset_contains(spans(s2), v);
    let j = choose|j: int| 0 <= j < spans(s2).len() && spans(s2)[j] == v;
    assert(s2[j].st <= p && p < s2[j].en);
}

/// Where nothing overlaps the window, nothing of it is covered.
pub proof fn lemma_no_hit_no_cover(s: Seq<Interval>, st: int, en: int)
    requires
        scan(s, st, en).len() == 0,
    ensures
        covered_points(s, st, en) == Set::<int>::empty(),
        covered_points(s, st, en).len() == 0,
{
    lemma_cover_by_hits(s, st, en);
    let h = scan(s, st, en);
    assert forall|p: int| !(st <= p < en && covers(h, p)) by {}
    assert(covered_points(h, st, en) =~= Set::<int>::empty());
}

/// The length of `[st, en)` that the intervals of `hits` cover, counted in
/// whole points. `hits` is swept once from the left, so it must be sorted by
/// start; intervals that miss the window add nothing.
pub fn covered_length(hits: &Vec<Interval>, st: i32, en: i32) -> (cov: i32)
    requires
        sorted_by_start(hits@),
        en - st <= i32::MAX,
    ensures
        cov == covered_points(hits@, st as int, en as int).len(),
        covered_points(hits@, st as int, en as int).finite(),
{
    let mut cov_st: i32 = st;
    let mut cov_en: i32 = st;
    let mut cov: i32 = 0;
    let ghost mut acc: Set<int> = Set::empty();
    let mut k: usize = 0;
    proof {
        lemma_int_range(st as int, st as int);
        assert(covered_points(hits@.take(0), st as int, en as int) =~= acc + set_int_range(
            cov_st as int,
            cov_en as int,
        ));
    }
    while k < hits.len()
        invariant
            k <= hits.len(),
            sorted_by_start(hits@),
            en - st <= i32::MAX,
            st <= cov_st <= cov_en,
            cov_en <= en || cov_en == st,
            forall|j: int| k <= j < hits.len() ==> cov_st <= (#[trigger] hits@[j]).st || cov_st == st,
            acc.finite(),
            acc.len() == cov,
            0 <= cov <= cov_st - st,
            forall|p: int| acc.contains(p) ==> st <= p < cov_st,
            covered_points(hits@.take(k as int), st as int, en as int) =~= acc + set_int_range(
                cov_st as int,
                cov_en as int,
            ),
        decreases hits.len() - k,
    {
        let iv = hits[k];
        let st1: i32 = if st > iv.st { st } else { iv.st };
        let en1: i32 = if en < iv.en { en } else { iv.en };
        proof {
            lemma_cover_step(hits@, st as int, en as int, k as int);
            assert(clipped(iv, st as int, en as int) == set_int_range(st1 as int, en1 as int));
            assert(cov_st <= hits@[k as int].st || cov_st == st);
        }
        if st1 < en1 {
            if st1 > cov_en {
                proof {
                    let run = set_int_range(cov_st as int, cov_en as int);
                    lemma_int_range(cov_st as int, cov_en as int);
                    assert(acc.disjoint(run));
                    lemma_set_disjoint_lens(acc, run);
                    acc = acc + run;
                    lemma_int_range(st as int, st1 as int);
                    lemma_len_subset(acc, set_int_range(st as int, st1 as int));
                }
                cov = cov + (cov_en - cov_st);
                cov_st = st1;
                cov_en = en1;
            } else if en1 > cov_en {
                cov_en = en1;
            }
        }
        k += 1;
    }
    proof {
        assert(hits@.take(k as int) =~= hits@);
        let run = set_int_range(cov_st as int, cov_en as int);
        lemma_int_range(cov_st as int, cov_en as int);
        assert(acc.disjoint(run));
        lemma_set_disjoint_lens(acc, run);
    }
    cov + (cov_en - cov_st)
}

} // verus!
