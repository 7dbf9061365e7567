//! The tree itself: intervals are added in any order, one build pass sorts and
//! augments them, and from then on the tree answers overlap queries.

use vstd::prelude::*;
use vstd::arithmetic::power2::{pow2, lemma_pow2_pos, lemma_pow2_unfold, lemma_pow2_strictly_increases, lemma2_to64};
use crate::augment::{
    augmented, edge_tracked, indexed, level_done_upto, levels_done, max_end, reach, same_spans,
    lemma_build_done, lemma_edge_step, lemma_leaves_done, lemma_level_end, lemma_level_start,
    lemma_node_room, lemma_node_step, lemma_spans_permuted,
};
use crate::coverage::{
    covered_length, covered_points, lemma_cover_by_hits, lemma_coverage_bounds,
    lemma_no_hit_no_cover,
};
use crate::interval::{
    overlaps, scan, sorted_by_start, spans, Interval, lemma_scan_len, lemma_scan_skip,
    lemma_scan_sorted, lemma_scan_step,
};
use crate::layout::{
    bit_set, height, level_of, node_at, pow2_usize, subtree_lo, tree_height, lemma_children,
    lemma_height_bounds, lemma_level_fits, lemma_level_of_node, MAX_LEN,
};

verus! {

/// One step of a pending traversal: the node at `x`, its level, and whether its
/// left subtree has been dealt with.
#[derive(Clone, Copy, Debug)]
struct Frame {
    x: usize,
    level: usize,
    left_done: bool,
}

impl Frame {
    /// The first position this frame still has to look at.
    spec fn lo(&self) -> int {
        if self.left_done {
            self.x as int
        } else {
            self.x - (pow2(self.level as nat) - 1)
        }
    }

    /// One past the last position of this frame's subtree.
    spec fn hi(&self) -> int {
        self.x + pow2(self.level as nat)
    }

    /// The frame names a node of the tree whose subtree ends by `total`; a
    /// subtree small enough to be scanned is never entered half-way.
    spec fn valid(&self, total: int) -> bool {
        &&& self.level <= 30
        &&& level_of(self.x as nat) == self.level
        &&& self.left_done ==> self.level > 3
        &&& self.hi() <= total
    }

    /// How many more frames this one can put on top of itself.
    spec fn rank(&self) -> nat {
        (2 * self.level + if self.left_done { 0nat } else { 1nat }) as nat
    }
}

/// The position up to which a traversal at `c` has covered an array of `n`.
spec fn clip(c: int, n: int) -> int {
    if c < n {
        c
    } else {
        n
    }
}

/// An implicit interval tree over one array of intervals.
#[derive(Debug)]
pub struct IITree {
    a: Vec<Interval>,
    stack: Vec<Frame>,
    built: bool,
}

impl View for IITree {
    type V = Seq<Interval>;

    /// The stored intervals, in array order.
    closed spec fn view(&self) -> Seq<Interval> {
        self.a@
    }
}

/// `slice::sort_unstable_by_key` with the start as the key. Afterwards the
/// vector holds the same intervals, each as often as before, in ascending
/// order of start; which of two intervals with one start comes first is left
/// open.
#[verifier::external_body]
fn sort_by_start(a: &mut Vec<Interval>)
    ensures
        final(a)@.to_multiset() == old(a)@.to_multiset(),
        sorted_by_start(final(a)@),
{
    a.sort_unstable_by_key(|k| k.st);
}

impl IITree {
    /// Whether the build pass has run.
    pub closed spec fn is_built(&self) -> bool {
        self.built
    }

    /// No traversal is under way: the stack that a search works on is empty.
    pub closed spec fn is_idle(&self) -> bool {
        self.stack@.len() == 0
    }

    /// The tree is within its size limit, at rest between searches and, once
    /// built, sorted and augmented.
    pub open spec fn wf(&self) -> bool {
        &&& self@.len() <= MAX_LEN
        &&& self.is_idle()
        &&& self.is_built() ==> indexed(self@)
    }

    /// An empty tree, not yet built.
    pub fn new() -> (t: Self)
        ensures
            t.wf(),
            !t.is_built(),
            t@ == Seq::<Interval>::empty(),
    {
        IITree { a: Vec::new(), stack: Vec::new(), built: false }
    }

    /// The number of stored intervals.
    pub fn len(&self) -> (n: usize)
        ensures
            n == self@.len(),
    {
        self.a.len()
    }

    /// The interval at position `i`.
    pub fn get(&self, i: usize) -> (iv: Interval)
        requires
            i < self@.len(),
        ensures
            iv == self@[i as int],
    {
        self.a[i]
    }

    /// Whether the build pass has run.
    pub fn built(&self) -> (b: bool)
        ensures
            b == self.is_built(),
    {
        self.built
    }

    /// Appends the interval `[st, en)`. `max` fills the slot that the build
    /// pass overwrites.
    pub fn add(&mut self, st: i32, en: i32, max: i32)
        requires
            old(self).wf(),
            !old(self).is_built(),
            old(self)@.len() < MAX_LEN,
        ensures
            final(self).wf(),
            !final(self).is_built(),
            final(self)@ == old(self)@.push(Interval { st, en, max }),
    {
        self.a.push(Interval { st, en, max })
    }

    /// Builds the tree: sorts the intervals by start and fills every `max`
    /// slot with the largest end in the subtree of its position, one level
    /// after the other from the leaves up. Returns the height of the tree.
    pub fn index(&mut self) -> (h: usize)
        requires
            old(self).wf(),
            !old(self).is_built(),
        ensures
            final(self).wf(),
            final(self).is_built(),
            final(self)@.len() == old(self)@.len(),
            spans(final(self)@).to_multiset() == spans(old(self)@).to_multiset(),
            sorted_by_start(final(self)@),
            forall|p: int|
                0 <= p < final(self)@.len() ==> (#[trigger] final(self)@[p]).max == max_end(
                    final(self)@,
                    subtree_lo(p as nat),
                    reach(final(self)@, p),
                ),
            h == height(old(self)@.len()),
    {
        sort_by_start(&mut self.a);
        let ghost sorted = self.a@;
        let n: usize = self.a.len();
        proof {
            vstd::seq_lib::to_multiset_len(old(self).a@);
            vstd::seq_lib::to_multiset_len(sorted);
            lemma_spans_permuted(sorted, old(self).a@);
        }
        if n == 0 {
            self.built = true;
            assert(height(0) == 0);
            return 0;
        }
        // Level 0: every even position is a leaf and holds its own end.
        // `last_i` ends as the last leaf, `last` as its end.
        let mut last: i32 = 0;
        let mut last_i: usize = 0;
        let mut i: usize = 0;
        while i < n
            invariant
                n == self.a@.len(),
                1 <= n <= MAX_LEN,
                self.is_idle(),
                i % 2 == 0,
                i <= n + 1,
                same_spans(sorted, self.a@),
                forall|p: int| 0 <= p < n && p < i && p % 2 == 0 ==> (#[trigger] self.a@[p]).max == self.a@[p].en,
                i > 0 ==> last_i == i - 2 && last == self.a@[last_i as int].en,
            decreases n + 1 - i,
        {
            let e: i32 = self.a[i].en;
            self.a[i].max = e;
            last = e;
            last_i = i;
            i += 2;
        }
        let mut k: usize = 1;
        let ghost mut lj: nat = (last_i / 2) as nat;
        proof {
            lemma2_to64();
            lemma_leaves_done(self.a@, last_i as int);
        }
        while pow2_usize(k) <= n
            invariant
                1 <= k <= 31,
                n == self.a@.len(),
                1 <= n <= MAX_LEN,
                self.is_idle(),
                pow2((k - 1) as nat) <= n,
                same_spans(sorted, self.a@),
                levels_done(self.a@, k as nat),
                last_i == node_at((k - 1) as nat, lj),
                edge_tracked(self.a@, (k - 1) as nat, lj, last as int),
            decreases 31 - k,
        {
            proof {
                lemma2_to64();
                if k < 31 {
                    lemma_pow2_strictly_increases(k as nat, 31);
                }
                lemma_level_start(self.a@, k as nat);
            }
            // Level k: its nodes start at 2^k - 1 and stand 2^(k+1) apart;
            // their children stand 2^(k-1) to either side.
            let x: usize = pow2_usize(k - 1);
            let step: usize = pow2_usize(k + 1);
            let mut i: usize = pow2_usize(k) - 1;
            let ghost mut j: nat = 0;
            while i < n
                invariant
                    1 <= k <= 30,
                    n == self.a@.len(),
                    1 <= n <= MAX_LEN,
                    self.is_idle(),
                    x == pow2((k - 1) as nat),
                    2 * x == pow2(k as nat),
                    step == pow2((k + 1) as nat),
                    1 <= step <= 0x8000_0000,
                    i == node_at(k as nat, j),
                    same_spans(sorted, self.a@),
                    levels_done(self.a@, k as nat),
                    level_done_upto(self.a@, k as nat, i as int),
                    edge_tracked(self.a@, (k - 1) as nat, lj, last as int),
                decreases n + step - i,
            {
                let ghost before = self.a@;
                proof {
                    lemma_node_room(k as nat, j);
                }
                let el: i32 = self.a[i - x].max;
                let en_i: i32 = self.a[i].en;
                let er: i32 = if i + x < n {
                    self.a[i + x].max
                } else {
                    last
                };
                let mut e: i32 = if en_i > el {
                    en_i
                } else {
                    el
                };
                if er > e {
                    e = er;
                }
                self.a[i].max = e;
                proof {
                    lemma_node_step(before, self.a@, k as nat, j, lj, last as int);
                    j = j + 1;
                }
                i += step;
            }
            proof {
                lemma_level_end(self.a@, k as nat, i as int);
                lemma_edge_step(self.a@, k as nat, lj, last as int);
                lj = lj / 2;
            }
            // Follow the right edge one level up: to the parent of the node
            // tracked so far, which may lie past the end of the array.
            if bit_set(last_i, k) {
                last_i = last_i - x;
            } else {
                last_i = last_i + x;
            }
            if last_i < n {
                let m: i32 = self.a[last_i].max;
                if m > last {
                    last = m;
                }
            }
            k += 1;
        }
        proof {
            lemma_height_bounds(n as nat, (k - 1) as nat);
            lemma_build_done(sorted, self.a@, k as nat);
        }
        self.built = true;
        k - 1
    }

    /// The stored intervals that overlap `[st, en)`, in ascending order of
    /// position. The tree is walked in order with an explicit stack; a left
    /// subtree whose largest end does not reach past `st` is skipped whole,
    /// and nothing right of the first start at or past `en` is looked at.
    pub fn search(&mut self, st: i32, en: i32) -> (hits: Vec<Interval>)
        requires
            old(self).wf(),
            old(self).is_built(),
        ensures
            final(self).wf(),
            final(self).is_built(),
            final(self)@ == old(self)@,
            hits@ == scan(old(self)@, st as int, en as int),
            sorted_by_start(hits@),
    {
        let mut out: Vec<Interval> = Vec::new();
        let n: usize = self.a.len();
        let h: usize = tree_height(n);
        let root: usize = pow2_usize(h) - 1;
        let ghost total: int = root + pow2(h as nat);
        let ghost s = self.a@;
        let ghost mut c: int = 0;
        proof {
            lemma2_to64();
            lemma_pow2_unfold((h + 1) as nat);
            if h < 30 {
                lemma_pow2_strictly_increases(h as nat, 30);
            }
            assert(root == node_at(h as nat, 0));
            lemma_level_of_node(h as nat, 0);
            assert(s.take(0) =~= Seq::<Interval>::empty());
        }
        self.stack.push(Frame { x: root, level: h, left_done: false });
        while self.stack.len() > 0
            invariant
                self.a@ == s,
                self.built == old(self).built,
                n == s.len(),
                n <= MAX_LEN,
                indexed(s),
                0 <= c <= total,
                n <= total <= 0x7fff_ffff,
                out@ == scan(s.take(clip(c, n as int)), st as int, en as int),
                forall|t: int| 0 <= t < self.stack@.len() ==> (#[trigger] self.stack@[t]).valid(total),
                forall|t: int| 0 < t < self.stack@.len() ==> (#[trigger] self.stack@[t]).hi() == self.stack@[t - 1].lo(),
                self.stack@.len() > 0 ==> self.stack@[0].hi() == total && self.stack@[self.stack@.len() - 1].lo() == c,
                self.stack@.len() == 0 ==> c == total,
                forall|t: int| 0 <= t < self.stack@.len() ==> t + (#[trigger] self.stack@[t]).level <= h,
                self.stack@.len() <= h + 1,
            decreases total - c, (if self.stack@.len() > 0 { self.stack@[self.stack@.len() - 1].rank() } else { 0 }),
        {
            let ghost below = self.stack@.drop_last();
            let f: Frame = self.stack.pop().unwrap();
            proof {
                assert(self.stack@ == below);
                assert(f.valid(total));
                lemma_pow2_pos(f.level as nat);
                lemma_level_fits(f.x as nat);
                if below.len() > 0 {
                    assert(f.hi() == below[below.len() - 1].lo());
                } else {
                    assert(f.hi() == total);
                }
            }
            if f.level <= 3 {
                // A small subtree is scanned from its first position on.
                let w: usize = pow2_usize(f.level);
                let mut i: usize = f.x - (w - 1);
                let mut i1: usize = i + 2 * w - 1;
                if i1 >= n {
                    i1 = n;
                }
                while i < i1 && self.a[i].st < en
                    invariant
                        self.a@ == s,
                        n == s.len(),
                        i1 <= n,
                        i1 == clip(f.hi(), n as int),
                        f.lo() <= i,
                        i <= i1 || i == f.lo(),
                        out@ == scan(s.take(clip(i as int, n as int)), st as int, en as int),
                    decreases i1 - i,
                {
                    proof {
                        lemma_scan_step(s, st as int, en as int, i as int);
                    }
                    if st < self.a[i].en {
                        out.push(self.a[i]);
                    }
                    i += 1;
                }
                proof {
                    if i < i1 {
                        assert forall|j: int| i <= j < i1 implies !overlaps(#[trigger] s[j], st as int, en as int) by {
                            assert(s[i as int].st <= s[j].st);
                        }
                        lemma_scan_skip(s, st as int, en as int, i as int, i1 as int);
                    }
                    c = f.hi();
                }
            } else if !f.left_done {
                // Come back to this node later; first the left subtree,
                // unless no end in it reaches past `st`.
                let half: usize = pow2_usize(f.level - 1);
                proof {
                    lemma_children(f.x as nat);
                }
                let y: usize = f.x - half;
                let again = Frame { x: f.x, level: f.level, left_done: true };
                self.stack.push(again);
                if y >= n || self.a[y].max > st {
                    let left = Frame { x: y, level: f.level - 1, left_done: false };
                    self.stack.push(left);
                    proof {
                        assert(left.valid(total));
                        assert(left.hi() == again.lo());
                        assert(left.lo() == c);
                        assert(self.stack@ =~= below.push(again).push(left));
                    }
                } else {
                    proof {
                        assert(augmented(s, y as int));
                        assert forall|j: int| c <= j < clip(f.x as int, n as int) implies !overlaps(
                            #[trigger] s[j],
                            st as int,
                            en as int,
                        ) by {
                            assert(s[j].en <= s[y as int].max);
                        }
                        lemma_scan_skip(s, st as int, en as int, c, clip(f.x as int, n as int));
                        c = f.x as int;
                        assert(self.stack@ =~= below.push(again));
                    }
                }
            } else if f.x < n && self.a[f.x].st < en {
                // The node itself, then its right subtree.
                let half: usize = pow2_usize(f.level - 1);
                proof {
                    lemma_children(f.x as nat);
                    lemma_scan_step(s, st as int, en as int, f.x as int);
                }
                if st < self.a[f.x].en {
                    out.push(self.a[f.x]);
                }
                let right = Frame { x: f.x + half, level: f.level - 1, left_done: false };
                self.stack.push(right);
                proof {
                    assert(right.valid(total));
                    assert(right.lo() == f.x + 1);
                    assert(right.hi() == f.hi());
                    c = f.x + 1;
                    assert(self.stack@ =~= below.push(right));
                }
            } else {
                proof {
                    if f.x < n {
                        assert forall|j: int| f.x <= j < clip(f.hi(), n as int) implies !overlaps(
                            #[trigger] s[j],
                            st as int,
                            en as int,
                        ) by {
                            assert(s[f.x as int].st <= s[j].st);
                        }
                        lemma_scan_skip(s, st as int, en as int, f.x as int, clip(f.hi(), n as int));
                    }
                    c = f.hi();
                }
            }
        }
        proof {
            assert(s.take(n as int) =~= s);
            lemma_scan_sorted(s, st as int, en as int);
        }
        out
    }

    /// Answers one query: the window as given, the number of stored intervals
    /// that overlap it, and the number of its points that they cover. The
    /// tree is left as it was, so the same question gets the same answer.
    pub fn overlap(&mut self, st: i32, en: i32) -> (res: (i32, i32, i32, i32))
        requires
            old(self).wf(),
            old(self).is_built(),
            en - st <= i32::MAX,
        ensures
            final(self).wf(),
            final(self).is_built(),
            final(self)@ == old(self)@,
            res.0 == st,
            res.1 == en,
            res.2 == scan(old(self)@, st as int, en as int).len(),
            res.3 == covered_points(old(self)@, st as int, en as int).len(),
            0 <= res.3,
            st <= en ==> res.3 <= en - st,
            res.2 == 0 ==> res.3 == 0,
    {
        let hits = self.search(st, en);
        proof {
            let s = old(self)@;
            lemma_scan_sorted(s, st as int, en as int);
            lemma_scan_len(s, st as int, en as int);
            lemma_cover_by_hits(s, st as int, en as int);
            lemma_coverage_bounds(s, st as int, en as int);
            if hits@.len() == 0 {
                lemma_no_hit_no_cover(s, st as int, en as int);
            }
        }
        let cov: i32 = covered_length(&hits, st, en);
        (st, en, hits.len() as i32, cov)
    }
}

} // verus!
