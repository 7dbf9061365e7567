//! Arithmetic of the implicit tree: which array position sits at which level,
//! which positions lie below it, and how tall the tree over `n` positions is.

use vstd::prelude::*;
use vstd::arithmetic::power2::{pow2, lemma_pow2_pos, lemma_pow2_unfold, lemma_pow2_strictly_increases, lemma2_to64};
use vstd::bits::{lemma_usize_shl_is_mul, lemma_usize_shr_is_div};

verus! {

/// The most intervals one tree holds: a hit count must fit in an `i32`.
pub const MAX_LEN: usize = 0x7fff_ffff;

/// The level of array position `p`: the number of one-bits below its lowest
/// zero-bit. Even positions are leaves.
pub open spec fn level_of(p: nat) -> nat
    decreases p,
{
    if p % 2 == 0 {
        0
    } else {
        1 + level_of(p / 2)
    }
}

/// The first position of the subtree rooted at `p`.
pub open spec fn subtree_lo(p: nat) -> int {
    p - (pow2(level_of(p)) - 1)
}

/// One past the last position that the subtree rooted at `p` may reach.
pub open spec fn subtree_hi(p: nat) -> int {
    (p + pow2(level_of(p))) as int
}

/// The `j`-th position of level `k`, counted from the left.
pub open spec fn node_at(k: nat, j: nat) -> nat {
    (pow2(k) - 1 + j * pow2(k + 1)) as nat
}

/// Which node of its level position `p` is, counted from the left.
pub open spec fn rank_of(p: nat) -> nat
    decreases p,
{
    if p % 2 == 0 {
        p / 2
    } else {
        rank_of(p / 2)
    }
}

/// The height of the tree over `n` positions: the level of its root.
pub open spec fn height(n: nat) -> nat
    decreases n,
{
    if n < 2 {
        0
    } else {
        1 + height(n / 2)
    }
}

/// The `j`-th position of level `k` is at level `k`, and is the `j`-th there.
pub proof fn lemma_level_of_node(k: nat, j: nat)
    ensures
        level_of(node_at(k, j)) == k,
        rank_of(node_at(k, j)) == j,
    decreases k,
{
    lemma_pow2_pos(k);
    lemma_pow2_pos(k + 1);
    if k == 0 {
        lemma2_to64();
        assert(node_at(0, j) == 2 * j);
    } else {
        lemma_pow2_unfold(k);
        lemma_pow2_unfold(k + 1);
        lemma_pow2_pos((k - 1) as nat);
        let q = node_at((k - 1) as nat, j);
        let a = pow2((k - 1) as nat) as int;
        let b = pow2(k) as int;
        let c = pow2(k + 1) as int;
        assert(b - 1 + j * c == 2 * (a - 1 + j * b) + 1) by (nonlinear_arith)
            requires
                b == 2 * a,
                c == 2 * b,
        ;
        assert(a - 1 + j * b >= 0) by (nonlinear_arith)
            requires
                a >= 1,
                b >= 1,
                j >= 0,
        ;
        assert(node_at(k, j) == 2 * q + 1);
        lemma_level_of_node((k - 1) as nat, j);
    }
}

/// Every position is the node of its level that its rank names.
pub proof fn lemma_node_of_level(p: nat)
    ensures
        p == node_at(level_of(p), rank_of(p)),
    decreases p,
{
    if p % 2 == 0 {
        lemma2_to64();
        assert((p / 2) * pow2(1) == p) by (nonlinear_arith)
            requires
                pow2(1) == 2,
                p % 2 == 0,
        ;
    } else {
        let q = p / 2;
        lemma_node_of_level(q);
        let k = level_of(q);
        let j = rank_of(q);
        lemma_pow2_unfold(k + 1);
        lemma_pow2_unfold(k + 2);
        lemma_pow2_pos(k);
        let a = pow2(k) as int;
        let b = pow2(k + 1) as int;
        let c = pow2(k + 2) as int;
        assert(b - 1 + j * c == 2 * (a - 1 + j * b) + 1) by (nonlinear_arith)
            requires
                b == 2 * a,
                c == 2 * b,
        ;
    }
}

/// A position is at least as large as the first one of its level, so its whole
/// left flank exists.
pub proof fn lemma_level_fits(p: nat)
    ensures
        pow2(level_of(p)) <= p + 1,
        subtree_lo(p) >= 0,
{
    lemma_node_of_level(p);
    let k = level_of(p);
    let j = rank_of(p);
    lemma_pow2_pos(k + 1);
    assert(j * pow2(k + 1) >= 0) by (nonlinear_arith)
        requires
            j >= 0,
            pow2(k + 1) > 0,
    ;
}

/// Two nodes of one level stand in the order of their ranks.
pub proof fn lemma_nodes_ordered(k: nat, i: nat, j: nat)
    ensures
        i < j <==> node_at(k, i) < node_at(k, j),
        i < j ==> node_at(k, i) + pow2(k + 1) <= node_at(k, j),
{
    lemma_pow2_pos(k);
    lemma_pow2_pos(k + 1);
    let c = pow2(k + 1) as int;
    assert(i < j ==> i * c + c <= j * c) by (nonlinear_arith)
        requires
            c > 0,
    ;
    assert(i >= j ==> i * c >= j * c) by (nonlinear_arith)
        requires
            c > 0,
    ;
    assert(i * c >= 0 && j * c >= 0) by (nonlinear_arith)
        requires
            c > 0,
            i >= 0,
            j >= 0,
    ;
}

/// The children of a node above the leaves: half its span to either side, one
/// level down.
pub proof fn lemma_children(p: nat)
    requires
        level_of(p) >= 1,
    ensures
        p >= pow2((level_of(p) - 1) as nat),
        level_of((p - pow2((level_of(p) - 1) as nat)) as nat) == level_of(p) - 1,
        level_of(p + pow2((level_of(p) - 1) as nat)) == level_of(p) - 1,
        pow2(level_of(p)) == 2 * pow2((level_of(p) - 1) as nat),
{
    let k = level_of(p);
    let j = rank_of(p);
    lemma_node_of_level(p);
    lemma_pow2_unfold(k);
    lemma_pow2_unfold(k + 1);
    lemma_pow2_pos((k - 1) as nat);
    let a = pow2((k - 1) as nat) as int;
    let b = pow2(k) as int;
    let c = pow2(k + 1) as int;
    assert(j * c == (2 * j) * b && (2 * j + 1) * b == j * c + b) by (nonlinear_arith)
        requires
            c == 2 * b,
    ;
    assert(j * c >= 0) by (nonlinear_arith)
        requires
            j >= 0,
            c > 0,
    ;
    assert(p - a == node_at((k - 1) as nat, 2 * j));
    assert(p + a == node_at((k - 1) as nat, 2 * j + 1));
    lemma_level_of_node((k - 1) as nat, 2 * j);
    lemma_level_of_node((k - 1) as nat, 2 * j + 1);
}

/// The height is the exponent of the largest power of two that `n` reaches.
pub proof fn lemma_height_bounds(n: nat, h: nat)
    requires
        pow2(h) <= n < pow2(h + 1),
    ensures
        height(n) == h,
    decreases h,
{
    lemma2_to64();
    if h == 0 {
        assert(n == 1);
    } else {
        lemma_pow2_unfold(h);
        lemma_pow2_unfold(h + 1);
        lemma_height_bounds(n / 2, (h - 1) as nat);
    }
}

/// `2^k` as a machine word.
pub fn pow2_usize(k: usize) -> (r: usize)
    requires
        k <= 31,
    ensures
        r == pow2(k as nat),
        1 <= r <= 0x8000_0000,
{
    proof {
        lemma2_to64();
        if k < 31 {
            lemma_pow2_strictly_increases(k as nat, 31);
        }
        lemma_pow2_pos(k as nat);
        lemma_usize_shl_is_mul(1usize, k);
    }
    1usize << k
}

/// Whether bit `k` of `v` is set.
pub fn bit_set(v: usize, k: usize) -> (b: bool)
    requires
        k <= 31,
    ensures
        b == ((v as nat / pow2(k as nat)) % 2 == 1),
{
    let w: usize = v >> k;
    proof {
        lemma_usize_shr_is_div(v, k);
        assert(w & 1 == w % 2) by (bit_vector);
    }
    (w & 1) > 0
}

/// The height of the tree over `n` positions.
pub fn tree_height(n: usize) -> (h: usize)
    requires
        n <= MAX_LEN,
    ensures
        h == height(n as nat),
        h <= 30,
        n >= 1 ==> pow2(h as nat) <= n < pow2((h + 1) as nat),
{
    let mut k: usize = 1;
    proof {
        lemma2_to64();
    }
    while pow2_usize(k) <= n
        invariant
            1 <= k <= 31,
            n <= MAX_LEN,
            n >= 1 ==> pow2((k - 1) as nat) <= n,
            n == 0 ==> k == 1,
        decreases 31 - k,
    {
        proof {
            lemma2_to64();
            if k < 31 {
                lemma_pow2_strictly_increases(k as nat, 31);
            }
        }
        k += 1;
    }
    proof {
        if n >= 1 {
            lemma_height_bounds(n as nat, (k - 1) as nat);
        } else {
            assert(height(0) == 0);
        }
    }
    k - 1
}

} // verus!
