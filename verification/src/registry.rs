//! Trees by key: records are filed under the key they carry, one build pass
//! finalizes every tree, and queries are then answered by the tree of their key.

use vstd::prelude::*;
use vstd::hash_map::StringHashMap;
use crate::augment::indexed;
use crate::coverage::covered_points;
use crate::interval::{scan, spans, Interval};
use crate::layout::MAX_LEN;
use crate::tree::IITree;

verus! {

/// A set of trees, one for each key.
pub struct Registry {
    slots: StringHashMap<usize>,
    trees: Vec<IITree>,
    finalized: bool,
}

impl View for Registry {
    type V = Map<Seq<char>, Seq<Interval>>;

    /// For each key, the intervals filed under it, in the order in which its
    /// tree holds them.
    closed spec fn view(&self) -> Map<Seq<char>, Seq<Interval>> {
        Map::new(
            |k: Seq<char>| self.slots@.contains_key(k),
            |k: Seq<char>| self.trees@[self.slots@[k] as int]@,
        )
    }
}

impl Registry {
    /// Whether the build pass has run.
    pub closed spec fn is_finalized(&self) -> bool {
        self.finalized
    }

    /// Every key has a tree of its own, and the trees are all unbuilt or, once
    /// finalized, all built.
    pub closed spec fn wf(&self) -> bool {
        &&& forall|k: Seq<char>| #[trigger]
            self.slots@.contains_key(k) ==> self.slots@[k] < self.trees@.len()
        &&& forall|k1: Seq<char>, k2: Seq<char>|
            #![trigger self.slots@[k1], self.slots@[k2]]
            self.slots@.contains_key(k1) && self.slots@.contains_key(k2) && self.slots@[k1]
                == self.slots@[k2] ==> k1 == k2
        &&& forall|i: int|
            0 <= i < self.trees@.len() ==> (#[trigger] self.trees@[i]).wf() && self.trees@[i].is_built()
                == self.finalized
    }

    /// The ranges filed under `key`, or none if the key is unknown.
    pub open spec fn filed(&self, key: Seq<char>) -> Seq<Interval> {
        if self@.contains_key(key) {
            self@[key]
        } else {
            Seq::empty()
        }
    }

    /// An empty registry, open for records.
    pub fn new() -> (r: Self)
        ensures
            r.wf(),
            !r.is_finalized(),
            r@ == Map::<Seq<char>, Seq<Interval>>::empty(),
    {
        let r = Registry { slots: StringHashMap::new(), trees: Vec::new(), finalized: false };
        assert(r@ =~= Map::<Seq<char>, Seq<Interval>>::empty());
        r
    }

    /// Whether the build pass has run.
    pub fn finalized(&self) -> (b: bool)
        ensures
            b == self.is_finalized(),
    {
        self.finalized
    }

    /// Whether any record was filed under `key`.
    pub fn contains(&self, key: &str) -> (b: bool)
        ensures
            b == self@.contains_key(key@),
    {
        self.slots.contains_key(key)
    }

    /// The number of records filed under `key`.
    pub fn count(&self, key: &str) -> (n: usize)
        requires
            self.wf(),
        ensures
            n == self.filed(key@).len(),
    {
        match self.slots.get(key) {
            Some(slot) => self.trees[*slot].len(),
            None => 0,
        }
    }

    /// Files the range `[st, en)` under `key`, in a new tree if the key is new.
    pub fn add(&mut self, key: &str, st: i32, en: i32)
        requires
            old(self).wf(),
            !old(self).is_finalized(),
            old(self).filed(key@).len() < MAX_LEN,
        ensures
            final(self).wf(),
            !final(self).is_finalized(),
            final(self)@ == old(self)@.insert(
                key@,
                old(self).filed(key@).push(Interval { st, en, max: en }),
            ),
    {
        let found: Option<usize> = match self.slots.get(key) {
            Some(slot) => Some(*slot),
            None => None,
        };
        match found {
            Some(i) => {
                self.trees[i].add(st, en, en);
            },
            None => {
                let mut tree = IITree::new();
                tree.add(st, en, en);
                let i: usize = self.trees.len();
                self.trees.push(tree);
                self.slots.insert(key.to_owned(), i);
            },
        }
        proof {
            assert(self@ =~= old(self)@.insert(
                key@,
                old(self).filed(key@).push(Interval { st, en, max: en }),
            ));
        }
    }

    /// Builds every tree. From here on the registry answers queries and takes
    /// no more records.
    pub fn build(&mut self)
        requires
            old(self).wf(),
            !old(self).is_finalized(),
        ensures
            final(self).wf(),
            final(self).is_finalized(),
            final(self)@.dom() == old(self)@.dom(),
            forall|k: Seq<char>| #[trigger]
                final(self)@.contains_key(k) ==> {
                    &&& final(self)@[k].len() == old(self)@[k].len()
                    &&& spans(final(self)@[k]).to_multiset() == spans(old(self)@[k]).to_multiset()
                    &&& indexed(final(self)@[k])
                },
    {
        let n: usize = self.trees.len();
        let mut i: usize = 0;
        while i < n
            invariant
                i <= n,
                n == self.trees@.len(),
                n == old(self).trees@.len(),
                self.slots@ == old(self).slots@,
                self.finalized == old(self).finalized,
                !self.finalized,
                old(self).wf(),
                forall|t: int| 0 <= t < n ==> (#[trigger] self.trees@[t]).wf(),
                forall|t: int| 0 <= t < n ==> (#[trigger] self.trees@[t]).is_built() == (t < i),
                forall|t: int| i <= t < n ==> (#[trigger] self.trees@[t])@ == old(self).trees@[t]@,
                forall|t: int|
                    0 <= t < i ==> {
                        &&& (#[trigger] self.trees@[t])@.len() == old(self).trees@[t]@.len()
                        &&& spans(self.trees@[t]@).to_multiset() == spans(
                            old(self).trees@[t]@,
                        ).to_multiset()
                    },
            decreases n - i,
        {
            self.trees[i].index();
            i += 1;
        }
        self.finalized = true;
        proof {
            assert(self@.dom() =~= old(self)@.dom());
            assert forall|k: Seq<char>| #[trigger] self@.contains_key(k) implies {
                &&& self@[k].len() == old(self)@[k].len()
                &&& spans(self@[k]).to_multiset() == spans(old(self)@[k]).to_multiset()
                &&& indexed(self@[k])
            } by {
                let t = self.slots@[k] as int;
                assert(self.trees@[t].wf());
            }
        }
    }

    /// Answers one query against the tree of `key`: the window as given, the
    /// number of intervals filed under `key` that overlap it, and the number
    /// of its points that they cover. An unknown key has no intervals.
    pub fn query(&mut self, key: &str, st: i32, en: i32) -> (res: (i32, i32, i32, i32))
        requires
            old(self).wf(),
            old(self).is_finalized(),
            en - st <= i32::MAX,
        ensures
            final(self).wf(),
            final(self).is_finalized(),
            final(self)@ == old(self)@,
            res.0 == st,
            res.1 == en,
            res.2 == scan(old(self).filed(key@), st as int, en as int).len(),
            res.3 == covered_points(old(self).filed(key@), st as int, en as int).len(),
            !old(self)@.contains_key(key@) ==> res.2 == 0 && res.3 == 0,
    {
        let found: Option<usize> = match self.slots.get(key) {
            Some(slot) => Some(*slot),
            None => None,
        };
        match found {
            Some(i) => {
                let res = self.trees[i].overlap(st, en);
                proof {
                    assert(self@ =~= old(self)@);
                }
                res
            },
            None => {
                proof {
                    let none = Seq::<Interval>::empty();
                    assert(scan(none, st as int, en as int).len() == 0);
                    crate::coverage::lemma_no_hit_no_cover(none, st as int, en as int);
                }
                (st, en, 0, 0)
            },
        }
    }
}

} // verus!
