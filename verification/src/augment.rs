//! The augmentation of the implicit tree: every position keeps the largest end
//! found in its subtree. What that means, and the facts the build needs to
//! establish it level by level.

use vstd::prelude::*;
use vstd::arithmetic::power2::{pow2, lemma_pow2_pos, lemma_pow2_unfold, lemma_pow2_strictly_increases, lemma2_to64};
use vstd::arithmetic::div_mod::lemma_fundamental_div_mod_converse;
use vstd::seq_lib::{to_multiset_build, to_multiset_remove, to_multiset_insert, to_multiset_len, to_multiset_contains};
use crate::interval::{Interval, sorted_by_start, spans};
use crate::layout::{
    level_of, node_at, rank_of, subtree_hi, subtree_lo, lemma_children, lemma_level_fits,
    lemma_level_of_node, lemma_node_of_level, lemma_nodes_ordered,
};

verus! {

/// `m` is the largest end among the entries of `s` at positions `lo..hi`.
pub open spec fn is_max_end(s: Seq<Interval>, lo: int, hi: int, m: int) -> bool {
    &&& forall|j: int| lo <= j < hi ==> (#[trigger] s[j]).en <= m
    &&& exists|j: int| lo <= j < hi && (#[trigger] s[j]).en == m
}

/// The largest end among the entries of `s` at positions `lo..hi`, found by
/// looking at each in turn.
pub open spec fn max_end(s: Seq<Interval>, lo: int, hi: int) -> int
    decreases hi - lo,
{
    if hi - lo <= 1 {
        s[lo].en as int
    } else {
        let m = max_end(s, lo, hi - 1);
        if s[hi - 1].en > m {
            s[hi - 1].en as int
        } else {
            m
        }
    }
}

/// One past the last position that the subtree rooted at `p` holds in `s`: a
/// subtree at the right edge is cut off where `s` ends.
pub open spec fn reach(s: Seq<Interval>, p: int) -> int {
    if subtree_hi(p as nat) < s.len() {
        subtree_hi(p as nat)
    } else {
        s.len() as int
    }
}

/// The `max` slot at position `p` holds the largest end in the subtree of `p`.
pub open spec fn augmented(s: Seq<Interval>, p: int) -> bool {
    is_max_end(s, subtree_lo(p as nat), reach(s, p), s[p].max as int)
}

/// `s` is ready for searching: sorted by start, every position augmented.
pub open spec fn indexed(s: Seq<Interval>) -> bool {
    &&& sorted_by_start(s)
    &&& forall|p: int| 0 <= p < s.len() ==> #[trigger] augmented(s, p)
}

/// `s` and `t` hold the same ranges at the same positions; only the `max`
/// slots may differ.
pub open spec fn same_spans(s: Seq<Interval>, t: Seq<Interval>) -> bool {
    &&& s.len() == t.len()
    &&& forall|j: int| 0 <= j < s.len() ==> (#[trigger] s[j]).st == t[j].st && s[j].en == t[j].en
}

/// The largest end of a single entry is its own.
pub proof fn lemma_max_single(s: Seq<Interval>, i: int)
    ensures
        is_max_end(s, i, i + 1, s[i].en as int),
{
    assert(s[i].en == s[i].en);
}

/// The largest end over two stretches that touch or overlap is the larger of
/// their two largest ends.
pub proof fn lemma_max_union(s: Seq<Interval>, a: int, b: int, c: int, d: int, m1: int, m2: int)
    requires
        is_max_end(s, a, b, m1),
        is_max_end(s, c, d, m2),
        a <= c <= b,
    ensures
        is_max_end(s, a, if b < d { d } else { b }, if m1 < m2 { m2 } else { m1 }),
{
    let hi = if b < d { d } else { b };
    let m = if m1 < m2 { m2 } else { m1 };
    let j1 = choose|j: int| a <= j < b && (#[trigger] s[j]).en == m1;
    let j2 = choose|j: int| c <= j < d && (#[trigger] s[j]).en == m2;
    if m1 < m2 {
        assert(a <= j2 < hi && s[j2].en == m);
    } else {
        assert(a <= j1 < hi && s[j1].en == m);
    }
    assert forall|j: int| a <= j < hi implies (#[trigger] s[j]).en <= m by {
        if j < b {
        } else {
            assert(c <= j < d);
        }
    }
}

/// Looking at each entry in turn finds the largest end.
pub proof fn lemma_max_end_is_max(s: Seq<Interval>, lo: int, hi: int)
    requires
        lo < hi,
    ensures
        is_max_end(s, lo, hi, max_end(s, lo, hi)),
    decreases hi - lo,
{
    if hi - lo <= 1 {
        lemma_max_single(s, lo);
    } else {
        lemma_max_end_is_max(s, lo, hi - 1);
        lemma_max_single(s, hi - 1);
        lemma_max_union(s, lo, hi - 1, hi - 1, hi, max_end(s, lo, hi - 1), s[hi - 1].en as int);
    }
}

/// An augmented position holds what looking at every entry of its subtree
/// finds as the largest end.
pub proof fn lemma_augmented_is_max_end(s: Seq<Interval>, p: int)
    requires
        0 <= p < s.len(),
        augmented(s, p),
    ensures
        s[p].max == max_end(s, subtree_lo(p as nat), reach(s, p)),
{
    let lo = subtree_lo(p as nat);
    let hi = reach(s, p);
    let m = max_end(s, lo, hi);
    let j1 = choose|j: int| lo <= j < hi && (#[trigger] s[j]).en == s[p].max;
    lemma_max_end_is_max(s, lo, hi);
    let j2 = choose|j: int| lo <= j < hi && (#[trigger] s[j]).en == m;
    assert(s[j1].en <= m);
    assert(s[j2].en <= s[p].max);
}

/// In an indexed array the `max` slot of a position is no smaller than its own
/// end, nor than the `max` slot of either child.
pub proof fn lemma_max_dominates(s: Seq<Interval>, p: int)
    requires
        indexed(s),
        0 <= p < s.len(),
    ensures
        s[p].max >= s[p].en,
        level_of(p as nat) >= 1 ==> {
            let half = pow2((level_of(p as nat) - 1) as nat) as int;
            &&& 0 <= p - half
            &&& s[p].max >= s[p - half].max
            &&& p + half < s.len() ==> s[p].max >= s[p + half].max
        },
{
    lemma_level_fits(p as nat);
    assert(augmented(s, p));
    assert(s[p].en <= s[p].max);
    if level_of(p as nat) >= 1 {
        let half = pow2((level_of(p as nat) - 1) as nat) as int;
        lemma_children(p as nat);
        let l = p - half;
        assert(augmented(s, l));
        let jl = choose|j: int|
            subtree_lo(l as nat) <= j < reach(s, l) && (#[trigger] s[j]).en == s[l].max;
        assert(s[jl].en <= s[p].max);
        if p + half < s.len() {
            let r = p + half;
            assert(augmented(s, r));
            let jr = choose|j: int|
                subtree_lo(r as nat) <= j < reach(s, r) && (#[trigger] s[j]).en == s[r].max;
            assert(s[jr].en <= s[p].max);
        }
    }
}

/// Rewriting `max` slots elsewhere leaves an augmented position augmented.
pub proof fn lemma_augmented_kept(s: Seq<Interval>, t: Seq<Interval>, p: int)
    requires
        same_spans(s, t),
        0 <= p < s.len(),
        s[p].max == t[p].max,
        augmented(s, p),
    ensures
        augmented(t, p),
{
    lemma_level_fits(p as nat);
    let lo = subtree_lo(p as nat);
    let hi = reach(s, p);
    let j0 = choose|j: int| lo <= j < hi && (#[trigger] s[j]).en == s[p].max;
    assert(t[j0].en == t[p].max);
    assert forall|j: int| lo <= j < hi implies (#[trigger] t[j]).en <= t[p].max by {
        assert(s[j].en <= s[p].max);
    }
}

/// The same holds of any stretch: its largest end depends on the ranges alone.
pub proof fn lemma_max_kept(s: Seq<Interval>, t: Seq<Interval>, lo: int, hi: int, m: int)
    requires
        same_spans(s, t),
        0 <= lo,
        hi <= s.len(),
        is_max_end(s, lo, hi, m),
    ensures
        is_max_end(t, lo, hi, m),
{
    let j0 = choose|j: int| lo <= j < hi && (#[trigger] s[j]).en == m;
    assert(t[j0].en == m);
    assert forall|j: int| lo <= j < hi implies (#[trigger] t[j]).en <= m by {
        assert(s[j].en <= m);
    }
}

/// Two orderings of the same intervals hold the same ranges, each as often.
pub proof fn lemma_spans_permuted(s1: Seq<Interval>, s2: Seq<Interval>)
    requires
        s1.to_multiset() == s2.to_multiset(),
    ensures
        spans(s1).to_multiset() == spans(s2).to_multiset(),
    decreases s1.len(),
{
    to_multiset_len(s1);
    to_multiset_len(s2);
    if s1.len() == 0 {
        assert(spans(s1) =~= spans(s2));
    } else {
        let l = s1.last();
        let t1 = s1.drop_last();
        assert(s1[s1.len() - 1] == l);
        assert(s1.contains(l));
        to_multiset_contains(s1, l);
        to_multiset_contains(s2, l);
        let i = choose|i: int| 0 <= i < s2.len() && s2[i] == l;
        let t2 = s2.remove(i);
        assert(t1 =~= s1.remove(s1.len() - 1));
        to_multiset_remove(s1, s1.len() - 1);
        to_multiset_remove(s2, i);
        lemma_spans_permuted(t1, t2);
        let v = (l.st as int, l.en as int);
        assert(spans(s1) =~= spans(t1).push(v));
        assert(spans(s2) =~= spans(t2).insert(i, v));
        to_multiset_build(spans(t1), v);
        to_multiset_insert(spans(t2), i, v);
    }
}

/// Sequences with the same ranges at the same positions have equal `spans`.
pub proof fn lemma_same_spans(s: Seq<Interval>, t: Seq<Interval>)
    requires
        same_spans(s, t),
    ensures
        spans(s) == spans(t),
{
    assert(spans(s) =~= spans(t));
}

/// Where node `i` of level `k` has no right child in the array, the subtree
/// that is tracked along the right edge, one level down, lies inside the
/// subtree of `i` and holds everything to the right of `i`.
pub proof fn lemma_edge_flank(k: nat, j: nat, lj: nat, n: int)
    requires
        k >= 1,
        node_at(k, j) < n,
        node_at(k, j) + pow2((k - 1) as nat) >= n,
        node_at((k - 1) as nat, lj) + 1 - pow2((k - 1) as nat) < n,
        node_at((k - 1) as nat, lj) + pow2((k - 1) as nat) >= n - 1,
    ensures
        node_at(k, j) + 1 - pow2(k) <= node_at((k - 1) as nat, lj) + 1 - pow2((k - 1) as nat),
        node_at((k - 1) as nat, lj) + 1 - pow2((k - 1) as nat) <= node_at(k, j) + 1,
        node_at(k, j) + 1 < n ==> node_at((k - 1) as nat, lj) + pow2((k - 1) as nat) >= n,
{
    lemma_pow2_unfold(k);
    lemma_pow2_unfold(k + 1);
    lemma_pow2_pos((k - 1) as nat);
    let x = pow2((k - 1) as nat) as int;
    let b = pow2(k) as int;
    let c = pow2(k + 1) as int;
    let i = node_at(k, j) as int;
    let li = node_at((k - 1) as nat, lj) as int;
    assert(j * c >= 0 && lj * b >= 0) by (nonlinear_arith)
        requires
            j >= 0,
            lj >= 0,
            b > 0,
            c > 0,
    ;
    assert(i + 1 == (2 * j + 1) * b) by (nonlinear_arith)
        requires
            i == b - 1 + j * c,
            c == 2 * b,
    ;
    assert(li + 1 - x == lj * b);
    assert(lj <= 2 * j + 1) by (nonlinear_arith)
        requires
            lj * b < (2 * j + 1) * b + b,
            b > 0,
    ;
    assert(lj * b <= (2 * j + 1) * b) by (nonlinear_arith)
        requires
            lj <= 2 * j + 1,
            b > 0,
    ;
    if i + 1 < n && li + x == n - 1 {
        assert(lj >= 2 * j + 1) by (nonlinear_arith)
            requires
                (2 * j + 1) * b < lj * b + b,
                b > 0,
        ;
        assert(lj * b == (2 * j + 1) * b);
    }
}

/// One level up along the right edge: the parent of the tracked node is half
/// its span to the left if the node is a right child, to the right if it is a
/// left child, and which of the two shows in one bit of its position.
pub proof fn lemma_edge_up(k: nat, lj: nat)
    requires
        k >= 1,
    ensures
        node_at((k - 1) as nat, lj) as int / pow2(k) as int == lj,
        lj % 2 == 1 ==> node_at((k - 1) as nat, lj) - pow2((k - 1) as nat) == node_at(k, lj / 2),
        lj % 2 == 0 ==> node_at((k - 1) as nat, lj) + pow2((k - 1) as nat) == node_at(k, lj / 2),
        pow2(k) == 2 * pow2((k - 1) as nat),
{
    lemma_pow2_unfold(k);
    lemma_pow2_unfold(k + 1);
    lemma_pow2_pos((k - 1) as nat);
    let x = pow2((k - 1) as nat) as int;
    let b = pow2(k) as int;
    let c = pow2(k + 1) as int;
    let li = node_at((k - 1) as nat, lj) as int;
    let m = (lj / 2) as int;
    assert(lj * b >= 0 && m * c >= 0) by (nonlinear_arith)
        requires
            lj >= 0,
            m >= 0,
            b > 0,
            c > 0,
    ;
    lemma_fundamental_div_mod_converse(li, b, lj as int, x - 1);
    if lj % 2 == 1 {
        assert(lj * b == m * c + b) by (nonlinear_arith)
            requires
                lj == 2 * m + 1,
                c == 2 * b,
        ;
    } else {
        assert(lj * b == m * c) by (nonlinear_arith)
            requires
                lj == 2 * m,
                c == 2 * b,
        ;
    }
}

/// Every position below level `k` is augmented.
#[verifier::opaque]
pub open spec fn levels_done(s: Seq<Interval>, k: nat) -> bool {
    forall|p: int| 0 <= p < s.len() && level_of(p as nat) < k ==> #[trigger] augmented(s, p)
}

/// Every position of level `k` to the left of `i` is augmented.
#[verifier::opaque]
pub open spec fn level_done_upto(s: Seq<Interval>, k: nat, i: int) -> bool {
    forall|p: int| 0 <= p < s.len() && level_of(p as nat) == k && p < i ==> #[trigger] augmented(s, p)
}

/// The node `lj` of level `k` is the one whose subtree runs into the right
/// edge of the array, and `last` is the largest end in what the array holds of
/// that subtree. The node itself may lie past the end of the array.
#[verifier::opaque]
pub open spec fn edge_tracked(s: Seq<Interval>, k: nat, lj: nat, last: int) -> bool {
    let li = node_at(k, lj) as int;
    let x = pow2(k) as int;
    &&& li + 1 - x < s.len()
    &&& li + x >= s.len() - 1
    &&& is_max_end(s, li + 1 - x, if li + x < s.len() { li + x } else { s.len() as int }, last)
}

/// Once every leaf holds its own end, level 0 is augmented, and the last leaf
/// is the node from which the right edge is tracked upwards.
pub proof fn lemma_leaves_done(s: Seq<Interval>, last_i: int)
    requires
        0 <= last_i < s.len(),
        s.len() - 2 <= last_i,
        last_i % 2 == 0,
        forall|p: int| 0 <= p < s.len() && p % 2 == 0 ==> (#[trigger] s[p]).max == s[p].en,
    ensures
        levels_done(s, 1),
        last_i == node_at(0, (last_i / 2) as nat),
        edge_tracked(s, 0, (last_i / 2) as nat, s[last_i].en as int),
{
    reveal(levels_done);
    reveal(edge_tracked);
    lemma2_to64();
    let lj = last_i / 2;
    assert(last_i == pow2(0) - 1 + lj * pow2(1)) by (nonlinear_arith)
        requires
            last_i == 2 * lj,
            pow2(0) == 1,
            pow2(1) == 2,
    ;
    lemma_max_single(s, last_i);
    assert forall|p: int| 0 <= p < s.len() && level_of(p as nat) < 1 implies #[trigger] augmented(
        s,
        p,
    ) by {
        assert(p % 2 == 0);
        assert(s[p].max == s[p].en);
        lemma_max_single(s, p);
    }
}

/// Where a pass over level `k` starts and how far it strides: nothing of the
/// level lies left of its first node, and the nodes are a fixed step apart.
pub proof fn lemma_level_start(s: Seq<Interval>, k: nat)
    requires
        k >= 1,
    ensures
        level_done_upto(s, k, node_at(k, 0) as int),
        node_at(k, 0) == pow2(k) - 1,
        pow2(k) == 2 * pow2((k - 1) as nat),
        pow2(k + 1) == 4 * pow2((k - 1) as nat),
{
    reveal(level_done_upto);
    lemma_pow2_unfold(k);
    lemma_pow2_unfold(k + 1);
    lemma_pow2_pos(k);
    assert forall|p: int| 0 <= p < s.len() && level_of(p as nat) == k && p < node_at(
        k,
        0,
    ) implies #[trigger] augmented(s, p) by {
        lemma_node_of_level(p as nat);
        lemma_nodes_ordered(k, rank_of(p as nat), 0);
    }
}

/// Node `j` of level `k` has room for its left child, and the next node of
/// the level is one stride on.
pub proof fn lemma_node_room(k: nat, j: nat)
    requires
        k >= 1,
    ensures
        node_at(k, j) >= pow2(k) - 1,
        node_at(k, j + 1) == node_at(k, j) + pow2(k + 1),
{
    lemma_pow2_pos(k);
    lemma_pow2_pos(k + 1);
    let c = pow2(k + 1) as int;
    assert(j * c >= 0 && (j + 1) * c == j * c + c) by (nonlinear_arith)
        requires
            j >= 0,
            c > 0,
    ;
}

/// What belongs in the `max` slot of node `j` of level `k`: the largest of
/// its own end, the `max` of its left child, and the `max` of its right child
/// or, where that child lies past the end of the array, the largest end
/// tracked along the right edge.
pub open spec fn node_max(s: Seq<Interval>, k: nat, j: nat, last: int, e: int) -> bool {
    let i = node_at(k, j) as int;
    let x = pow2((k - 1) as nat) as int;
    let el = s[i - x].max as int;
    let en = s[i].en as int;
    let er = if i + x < s.len() {
        s[i + x].max as int
    } else {
        last
    };
    e >= el && e >= en && e >= er && (e == el || e == en || e == er)
}

/// That value is the largest end in the subtree of the node.
pub proof fn lemma_node_value(s: Seq<Interval>, k: nat, j: nat, lj: nat, last: int, e: int)
    requires
        k >= 1,
        node_at(k, j) < s.len(),
        levels_done(s, k),
        edge_tracked(s, (k - 1) as nat, lj, last),
        node_max(s, k, j, last, e),
    ensures
        level_of(node_at(k, j)) == k,
        subtree_lo(node_at(k, j)) >= 0,
        is_max_end(s, subtree_lo(node_at(k, j)), reach(s, node_at(k, j) as int), e),
{
    reveal(levels_done);
    reveal(edge_tracked);
    let n = s.len() as int;
    let i = node_at(k, j) as int;
    let x = pow2((k - 1) as nat) as int;
    let li = node_at((k - 1) as nat, lj) as int;
    let el = s[i - x].max as int;
    let en = s[i].en as int;
    let er = if i + x < n {
        s[i + x].max as int
    } else {
        last
    };
    let edge_hi = if li + x < n {
        li + x
    } else {
        n
    };
    let m1 = if el < en {
        en
    } else {
        el
    };
    lemma_node_room(k, j);
    lemma_level_of_node(k, j);
    lemma_children(i as nat);
    lemma_level_fits(i as nat);
    assert(augmented(s, i - x));
    lemma_max_single(s, i);
    lemma_max_union(s, i + 1 - 2 * x, i, i, i + 1, el, en);
    if i + x < n {
        assert(augmented(s, i + x));
        lemma_max_union(s, i + 1 - 2 * x, i + 1, i + 1, reach(s, i + x), m1, er);
    } else {
        lemma_edge_flank(k, j, lj, n);
        lemma_max_union(s, i + 1 - 2 * x, i + 1, li + 1 - x, edge_hi, m1, er);
    }
}

/// One node of level `k` filled in: the level is done one node further, and
/// what was established before still stands.
pub proof fn lemma_node_step(
    before: Seq<Interval>,
    after: Seq<Interval>,
    k: nat,
    j: nat,
    lj: nat,
    last: int,
)
    requires
        k >= 1,
        node_at(k, j) < before.len(),
        same_spans(before, after),
        forall|q: int|
            0 <= q < before.len() && q != node_at(k, j) ==> (#[trigger] after[q]).max == before[q].max,
        levels_done(before, k),
        level_done_upto(before, k, node_at(k, j) as int),
        edge_tracked(before, (k - 1) as nat, lj, last),
        node_max(before, k, j, last, after[node_at(k, j) as int].max as int),
    ensures
        levels_done(after, k),
        level_done_upto(after, k, node_at(k, j + 1) as int),
        edge_tracked(after, (k - 1) as nat, lj, last),
{
    let n = before.len() as int;
    let i = node_at(k, j) as int;
    let e = after[i].max as int;
    lemma_node_room(k, j);
    lemma_node_value(before, k, j, lj, last, e);
    lemma_max_kept(before, after, subtree_lo(i as nat), reach(before, i), e);
    assert(augmented(after, i));
    assert(edge_tracked(after, (k - 1) as nat, lj, last)) by {
        reveal(edge_tracked);
        let x = pow2((k - 1) as nat) as int;
        let li = node_at((k - 1) as nat, lj) as int;
        lemma_level_fits(li as nat);
        lemma_level_of_node((k - 1) as nat, lj);
        lemma_max_kept(before, after, li + 1 - x, if li + x < n { li + x } else { n }, last);
    }
    assert(levels_done(after, k)) by {
        reveal(levels_done);
        assert forall|p: int| 0 <= p < n && level_of(p as nat) < k implies #[trigger] augmented(
            after,
            p,
        ) by {
            lemma_augmented_kept(before, after, p);
        }
    }
    assert(level_done_upto(after, k, node_at(k, j + 1) as int)) by {
        reveal(level_done_upto);
        assert forall|p: int| 0 <= p < n && level_of(p as nat) == k && p < node_at(
            k,
            j + 1,
        ) implies #[trigger] augmented(after, p) by {
            lemma_node_of_level(p as nat);
            lemma_nodes_ordered(k, j, rank_of(p as nat));
            lemma_nodes_ordered(k, rank_of(p as nat), j);
            if p != i {
                lemma_augmented_kept(before, after, p);
            }
        }
    }
}

/// A pass over level `k` that has gone past the end of the array has done the
/// whole level.
pub proof fn lemma_level_end(s: Seq<Interval>, k: nat, i: int)
    requires
        levels_done(s, k),
        level_done_upto(s, k, i),
        i >= s.len(),
    ensures
        levels_done(s, k + 1),
{
    reveal(levels_done);
    reveal(level_done_upto);
}

/// The right edge followed one level up, after level `k` is done. The parent
/// of the tracked node takes its place; if it lies in the array, its `max` is
/// the new largest end, else the largest end stays what it was.
pub proof fn lemma_edge_step(s: Seq<Interval>, k: nat, lj: nat, last: int)
    requires
        k >= 1,
        levels_done(s, k + 1),
        edge_tracked(s, (k - 1) as nat, lj, last),
    ensures
        ({
            let li = node_at((k - 1) as nat, lj) as int;
            let x = pow2((k - 1) as nat) as int;
            let up = node_at(k, lj / 2) as int;
            let right_child = (li / (pow2(k) as int)) % 2 == 1;
            &&& right_child ==> up == li - x
            &&& !right_child ==> up == li + x
            &&& li < s.len() + x
            &&& edge_tracked(
                s,
                k,
                lj / 2,
                if up < s.len() && s[up].max > last {
                    s[up].max as int
                } else {
                    last
                },
            )
        }),
{
    reveal(levels_done);
    reveal(edge_tracked);
    let n = s.len() as int;
    let li = node_at((k - 1) as nat, lj) as int;
    let x = pow2((k - 1) as nat) as int;
    let up = node_at(k, lj / 2) as int;
    let edge_hi = if li + x < n {
        li + x
    } else {
        n
    };
    lemma_edge_up(k, lj);
    lemma_pow2_unfold(k);
    if up < n {
        lemma_level_of_node(k, lj / 2);
        lemma_level_fits(up as nat);
        assert(augmented(s, up));
        lemma_max_union(s, up + 1 - 2 * x, reach(s, up), li + 1 - x, edge_hi, s[up].max as int, last);
    }
}

/// Once every level that the array reaches is augmented, the whole array is.
pub proof fn lemma_build_done(sorted: Seq<Interval>, s: Seq<Interval>, k: nat)
    requires
        sorted_by_start(sorted),
        same_spans(sorted, s),
        s.len() < pow2(k),
        levels_done(s, k),
    ensures
        indexed(s),
        spans(s) == spans(sorted),
        forall|p: int|
            0 <= p < s.len() ==> (#[trigger] s[p]).max == max_end(s, subtree_lo(p as nat), reach(s, p)),
{
    reveal(levels_done);
    assert forall|p: int| 0 <= p < s.len() implies #[trigger] augmented(s, p) by {
        lemma_level_fits(p as nat);
        if level_of(p as nat) > k {
            lemma_pow2_strictly_increases(k, level_of(p as nat));
        }
    }
    assert forall|i: int, j: int| 0 <= i <= j < s.len() implies s[i].st <= s[j].st by {
        assert(sorted[i].st <= sorted[j].st);
    }
    lemma_same_spans(sorted, s);
    assert forall|p: int| 0 <= p < s.len() implies (#[trigger] s[p]).max == max_end(
        s,
        subtree_lo(p as nat),
        reach(s, p),
    ) by {
        lemma_augmented_is_max_end(s, p);
    }
}

} // verus!
