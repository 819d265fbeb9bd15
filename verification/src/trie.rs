//! A byte trie over a flat child table: node `i`'s child under label `c`
//! sits at slot `256 * i + c`, with `usize::MAX` marking an absent edge.
//! Nodes are numbered in creation order; node 0 is the root, and every
//! edge points at a strictly later node. The walk specification below says
//! which node a byte string reaches, and `insert`'s contract pins the
//! created path through it.

use vstd::prelude::*;

verus! {

/// The absent-edge marker at the specification level.
pub open spec fn no_edge() -> usize {
    usize::MAX
}

/// The byte trie.
pub struct Trie {
    children: Vec<usize>,
}

impl Trie {
    /// The number of nodes.
    pub closed spec fn spec_count(&self) -> nat {
        self.children@.len() / 256
    }

    /// The child of node `i` under label `c`, or the absent marker.
    pub closed spec fn spec_child(&self, i: int, c: int) -> usize {
        self.children@[256 * i + c]
    }

    /// The node reached from `i` by the first `k` bytes of `s`, if every
    /// edge on the way exists.
    pub open spec fn spec_walk(&self, i: int, s: Seq<u8>, k: int) -> Option<int>
        decreases k,
    {
        if k <= 0 {
            Some(i)
        } else {
            match self.spec_walk(i, s, k - 1) {
                Option::None => Option::None,
                Option::Some(v) => {
                    if self.spec_child(v, s[k - 1] as int) == no_edge() {
                        Option::None
                    } else {
                        Option::Some(self.spec_child(v, s[k - 1] as int) as int)
                    }
                },
            }
        }
    }

    /// The labelled present edges of node `i` below label `c`, in strictly
    /// increasing label order.
    pub open spec fn spec_links(&self, i: int, c: int) -> Seq<(u8, usize)>
        decreases c,
    {
        if c <= 0 {
            Seq::empty()
        } else if self.spec_child(i, c - 1) != no_edge() {
            self.spec_links(i, c - 1).push(((c - 1) as u8, self.spec_child(i, c - 1)))
        } else {
            self.spec_links(i, c - 1)
        }
    }

    /// The structural invariant: a root exists, the table is rectangular,
    /// and every present edge points at a strictly later node (so paths
    /// never revisit a node).
    pub closed spec fn wf(&self) -> bool {
        &&& self.spec_count() >= 1
        &&& self.children@.len() == 256 * self.spec_count()
        &&& forall|t: int|
            0 <= t < self.children@.len() ==> (#[trigger] self.children@[t] == no_edge() || (
            self.children@[t] < self.spec_count() && self.children@[t] > t / 256))
    }

    /// A trie holding only the empty string: one root with no edges.
    pub fn new() -> (r: Trie)
        ensures
            r.wf(),
            r.spec_count() == 1,
            forall|c: int| 0 <= c < 256 ==> #[trigger] r.spec_child(0, c) == no_edge(),
    {
        let mut children: Vec<usize> = Vec::new();
        let mut t: usize = 0;
        while t < 256
            invariant
                t <= 256,
                children@.len() == t,
                forall|k: int| 0 <= k < t ==> #[trigger] children@[k] == no_edge(),
            decreases 256 - t,
        {
            children.push(usize::MAX);
            t += 1;
        }
        Trie { children }
    }

    /// The number of nodes.
    pub fn count_node(&self) -> (r: usize)
        requires
            self.wf(),
        ensures
            r == self.spec_count(),
            r >= 1,
    {
        self.children.len() / 256
    }

    /// Follows the edge labelled `c` out of node `i`, if present.
    #[verifier::rlimit(60)]
    pub fn transition(&self, i: usize, c: u8) -> (r: Option<usize>)
        requires
            self.wf(),
            i < self.spec_count(),
        ensures
            r == (if self.spec_child(i as int, c as int) == no_edge() {
                Option::<usize>::None
            } else {
                Option::<usize>::Some(self.spec_child(i as int, c as int))
            }),
            r matches Some(j) ==> i < j < self.spec_count(),
    {
        let total = self.children.len();
        proof {
            lemma_slot_in_table(self.spec_count() as int, i as int, c as int);
            assert(self.children@.len() == 256 * self.spec_count());
            assert(256 * (i as int) + (c as int) < self.children@.len());
            assert((256 * (i as int) + (c as int)) / 256 == i) by (nonlinear_arith)
                requires
                    0 <= c < 256,
                    0 <= i,
            ;
        }
        let j = self.children[256 * i + c as usize];
        if j == usize::MAX {
            None
        } else {
            Some(j)
        }
    }

    /// The labelled outgoing edges of node `i`: exactly the present
    /// children, in strictly increasing label order.
    pub fn links(&self, i: usize) -> (r: Vec<(u8, usize)>)
        requires
            self.wf(),
            i < self.spec_count(),
        ensures
            r@ == self.spec_links(i as int, 256),
            forall|t: int|
                0 <= t < r@.len() ==> i < (#[trigger] r@[t]).1 < self.spec_count() && r@[t].1
                    == self.spec_child(i as int, r@[t].0 as int),
    {
        let mut out: Vec<(u8, usize)> = Vec::new();
        let mut c: usize = 0;
        while c < 256
            invariant
                self.wf(),
                i < self.spec_count(),
                c <= 256,
                out@ == self.spec_links(i as int, c as int),
                forall|t: int|
                    0 <= t < out@.len() ==> i < (#[trigger] out@[t]).1 < self.spec_count()
                        && out@[t].1 == self.spec_child(i as int, out@[t].0 as int),
            decreases 256 - c,
        {
            match self.transition(i, c as u8) {
                Some(j) => {
                    out.push((c as u8, j));
                    proof {
                        assert(out@ =~= self.spec_links(i as int, c as int).push(
                            ((c) as u8, self.spec_child(i as int, c as int)),
                        ));
                    }
                },
                None => {
                },
            }
            c += 1;
        }
        out
    }

    /// Inserts the byte string, creating the missing part of its path.
    /// Afterwards the whole string walks from the root to the returned
    /// node; existing edges are untouched, and the flag reports whether
    /// anything new was created.
    #[verifier::rlimit(60)]
    pub fn insert_slice(&mut self, s: &[u8]) -> (r: (bool, usize))
        requires
            old(self).wf(),
            256 * (old(self).spec_count() + s@.len()) <= usize::MAX,
        ensures
            final(self).wf(),
            old(self).spec_count() <= final(self).spec_count() <= old(self).spec_count()
                + s@.len(),
            r.1 < final(self).spec_count(),
            final(self).spec_walk(0, s@, s@.len() as int) == Some(r.1 as int),
            forall|i2: int, c: int|
                0 <= i2 < old(self).spec_count() && 0 <= c < 256 && old(self).spec_child(i2, c)
                    != no_edge() ==> final(self).spec_child(i2, c) == #[trigger] old(
                    self,
                ).spec_child(i2, c),
            r.0 == (final(self).spec_count() != old(self).spec_count()),
            !r.0 ==> old(self).spec_walk(0, s@, s@.len() as int) == Some(r.1 as int),
    {
        let mut i: usize = 0;
        let mut inserted = false;
        let mut pos: usize = 0;
        let n = s.len();
        while pos < n
            invariant
                pos <= n,
                n == s@.len(),
                self.wf(),
                old(self).spec_count() <= self.spec_count() <= old(self).spec_count() + pos,
                256 * (old(self).spec_count() + n) <= usize::MAX,
                i < self.spec_count(),
                self.spec_walk(0, s@, pos as int) == Some(i as int),
                forall|i2: int, c: int|
                    0 <= i2 < old(self).spec_count() && 0 <= c < 256 && old(self).spec_child(
                        i2,
                        c,
                    ) != no_edge() ==> self.spec_child(i2, c) == #[trigger] old(
                        self,
                    ).spec_child(i2, c),
                inserted == (self.spec_count() != old(self).spec_count()),
                !inserted ==> self.children@ == old(self).children@,
            decreases n - pos,
        {
            let c = s[pos];
            let total = self.children.len();
            proof {
                lemma_slot_in_table(self.spec_count() as int, i as int, c as int);
                assert(self.children@.len() == 256 * self.spec_count());
                assert(256 * (i as int) + (c as int) < self.children@.len());
                assert((256 * (i as int) + (c as int)) / 256 == i) by (nonlinear_arith)
                    requires
                        0 <= c < 256,
                        0 <= i,
                ;
            }
            let slot = 256 * i + c as usize;
            let j = self.children[slot];
            if j != usize::MAX {
                i = j;
            } else {
                inserted = true;
                let ghost pre = *self;
                let len = self.children.len() / 256;
                let mut t: usize = 0;
                while t < 256
                    invariant
                        t <= 256,
                        self.children@.len() == 256 * len + t,
                        len <= old(self).spec_count() + pos,
                        256 * (old(self).spec_count() + n) <= usize::MAX,
                        len < old(self).spec_count() + n,
                        forall|k: int|
                            0 <= k < 256 * len ==> self.children@[k] == #[trigger] pre.children@[k],
                        forall|k: int|
                            0 <= k < 256 * len ==> (#[trigger] self.children@[k] == no_edge()
                                || (self.children@[k] < len && self.children@[k] > k / 256)),
                        forall|k: int|
                            256 * len <= k < self.children@.len() ==> #[trigger] self.children@[k]
                                == no_edge(),
                    decreases 256 - t,
                {
                    self.children.push(usize::MAX);
                    t += 1;
                }
                self.children[slot] = len;
                proof {
                    assert forall|k: int|
                        0 <= k < self.children@.len() implies (#[trigger] self.children@[k]
                        == no_edge() || (self.children@[k] < len + 1 && self.children@[k] > k
                            / 256)) by {
                        if k == slot {
                            assert(slot as int / 256 == i);
                        }
                    }
                    assert((256 * (len + 1)) / 256 == len + 1) by (nonlinear_arith);
                    assert(self.spec_child(i as int, c as int) == len);
                    assert forall|i2: int, c2: int|
                        0 <= i2 < pre.spec_count() && 0 <= c2 < 256 && pre.spec_child(i2, c2)
                            != no_edge() implies self.spec_child(i2, c2) == #[trigger] pre.spec_child(
                        i2,
                        c2,
                    ) by {
                        lemma_slot_in_table(pre.spec_count() as int, i2, c2);
                        if 256 * i2 + c2 == slot {
                            assert(pre.spec_child(i2, c2) == no_edge());
                        }
                    }
                    lemma_walk_extend(pre, *self, 0, s@, pos as int, i as int);
                    assert forall|i2: int, c2: int|
                        0 <= i2 < old(self).spec_count() && 0 <= c2 < 256 && old(
                            self,
                        ).spec_child(i2, c2) != no_edge() implies self.spec_child(i2, c2)
                        == #[trigger] old(self).spec_child(i2, c2) by {
                        lemma_slot_in_table(old(self).spec_count() as int, i2, c2);
                        if 256 * i2 + c2 == slot {
                            assert(pre.spec_child(i2, c2) == no_edge());
                        }
                    }
                }
                i = len;
            }
            pos += 1;
        }
        proof {
            if !inserted {
                lemma_walk_same(*old(self), *self, 0, s@, s@.len() as int);
            }
        }
        (inserted, i)
    }

    /// Inserts the byte string given as a vector.
    pub fn insert(&mut self, s: &Vec<u8>) -> (r: (bool, usize))
        requires
            old(self).wf(),
            256 * (old(self).spec_count() + s@.len()) <= usize::MAX,
        ensures
            final(self).wf(),
            old(self).spec_count() <= final(self).spec_count() <= old(self).spec_count()
                + s@.len(),
            r.1 < final(self).spec_count(),
            final(self).spec_walk(0, s@, s@.len() as int) == Some(r.1 as int),
            forall|i2: int, c: int|
                0 <= i2 < old(self).spec_count() && 0 <= c < 256 && old(self).spec_child(i2, c)
                    != no_edge() ==> final(self).spec_child(i2, c) == #[trigger] old(
                    self,
                ).spec_child(i2, c),
            r.0 == (final(self).spec_count() != old(self).spec_count()),
            !r.0 ==> old(self).spec_walk(0, s@, s@.len() as int) == Some(r.1 as int),
    {
        self.insert_slice(s.as_slice())
    }
}

/// Two tries with the same child table walk identically.
proof fn lemma_walk_same(t1: Trie, t2: Trie, i: int, s: Seq<u8>, k: int)
    requires
        t1.spec_count() == t2.spec_count(),
        forall|i2: int, c: int| #[trigger] t1.spec_child(i2, c) == t2.spec_child(i2, c),
    ensures
        t1.spec_walk(i, s, k) == t2.spec_walk(i, s, k),
    decreases k,
{
    if k > 0 {
        lemma_walk_same(t1, t2, i, s, k - 1);
    }
}

/// A walk that succeeds keeps succeeding, with the same result, after new
/// nodes and new edges are added: insertion never disturbs existing paths.
proof fn lemma_walk_extend(t1: Trie, t2: Trie, i: int, s: Seq<u8>, k: int, v: int)
    requires
        forall|i2: int, c: int|
            0 <= i2 < t1.spec_count() && 0 <= c < 256 && t1.spec_child(i2, c) != no_edge()
                ==> t2.spec_child(i2, c) == #[trigger] t1.spec_child(i2, c),
        t1.wf(),
        t2.wf(),
        t1.spec_count() <= t2.spec_count(),
        0 <= i < t1.spec_count(),
        t1.spec_walk(i, s, k) == Some(v),
        k <= s.len(),
    ensures
        t2.spec_walk(i, s, k) == Some(v),
        0 <= v < t1.spec_count(),
    decreases k,
{
    if k > 0 {
        let prev = t1.spec_walk(i, s, k - 1);
        match prev {
            Option::None => {
                assert(false);
            },
            Option::Some(w) => {
                lemma_walk_extend(t1, t2, i, s, k - 1, w);
                lemma_child_in_range(t1, w, s[k - 1] as int);
            },
        }
    }
}

/// A present child is a valid, strictly later node index.
proof fn lemma_child_in_range(t: Trie, i: int, c: int)
    requires
        t.wf(),
        0 <= i < t.spec_count(),
        0 <= c < 256,
        t.spec_child(i, c) != no_edge(),
    ensures
        i < t.spec_child(i, c) < t.spec_count(),
{
    lemma_slot_in_table(t.spec_count() as int, i, c);
    assert((256 * i + c) / 256 == i) by (nonlinear_arith)
        requires
            0 <= c < 256,
            0 <= i,
    ;
}

/// A node-label slot lies inside the rectangular table.
proof fn lemma_slot_in_table(count: int, i: int, c: int) by (nonlinear_arith)
    requires
        0 <= i < count,
        0 <= c < 256,
    ensures
        0 <= 256 * i + c < 256 * count,
{
}

} // verus!
