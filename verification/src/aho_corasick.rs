//! The matching automaton built over a trie: a breadth-first pass fills in
//! suffix links (the longest proper suffix of each node's string that is
//! itself a trie node) and depths, and transitions fall back along the
//! suffix links until a trie edge matches.

use crate::trie::Trie;
use vstd::prelude::*;

verus! {

/// The automaton: the underlying trie plus one suffix link and one depth
/// per node.
pub struct AhoCorasick {
    trie: Trie,
    suf_link: Vec<usize>,
    depth: Vec<usize>,
}

impl AhoCorasick {
    /// The number of states.
    pub closed spec fn spec_count(&self) -> nat {
        self.trie.spec_count()
    }

    /// The underlying trie, with its nodes and goto edges untouched.
    pub closed spec fn spec_trie(&self) -> Trie {
        self.trie
    }

    /// The suffix link of state `i`.
    pub closed spec fn spec_suffix(&self, i: int) -> usize {
        self.suf_link@[i]
    }

    /// The depth recorded for state `i`.
    pub closed spec fn spec_depth(&self, i: int) -> usize {
        self.depth@[i]
    }

    /// The structural invariant: link and depth tables cover every state
    /// and all links stay in range.
    pub closed spec fn wf(&self) -> bool {
        &&& self.trie.wf()
        &&& self.suf_link@.len() == self.trie.spec_count()
        &&& self.depth@.len() == self.trie.spec_count()
        &&& forall|t: int|
            0 <= t < self.suf_link@.len() ==> #[trigger] self.suf_link@[t]
                < self.trie.spec_count()
    }

    /// Builds the automaton from a trie by a breadth-first pass from the
    /// root, filling each discovered node's suffix link by walking its
    /// parent's links.
    pub fn from_trie(trie: Trie) -> (r: AhoCorasick)
        requires
            trie.wf(),
        ensures
            r.wf(),
            r.spec_count() == trie.spec_count(),
            r.spec_trie() == trie,
            r.spec_depth(0) == 0,
    {
        let count = trie.count_node();
        let mut suf_link: Vec<usize> = Vec::new();
        let mut depth: Vec<usize> = Vec::new();
        let mut t: usize = 0;
        while t < count
            invariant
                t <= count,
                suf_link@.len() == t,
                depth@.len() == t,
                forall|k: int| 0 <= k < t ==> #[trigger] suf_link@[k] == 0,
                forall|k: int| 0 <= k < t ==> #[trigger] depth@[k] == 0,
            decreases count - t,
        {
            suf_link.push(0);
            depth.push(0);
            t += 1;
        }
        let mut que: Vec<usize> = Vec::new();
        que.push(0);
        let mut head: usize = 0;
        while head < que.len() && head < count
            invariant
                trie.wf(),
                count == trie.spec_count(),
                count >= 1,
                suf_link@.len() == count,
                depth@.len() == count,
                forall|k: int| 0 <= k < count ==> #[trigger] suf_link@[k] < count,
                forall|k: int| 0 <= k < count ==> #[trigger] depth@[k] <= count,
                depth@[0] == 0,
                forall|k: int| 0 <= k < que@.len() ==> #[trigger] que@[k] < count,
                head <= que@.len(),
            decreases count - head,
        {
            let u = que[head];
            head += 1;
            let links = trie.links(u);
            let mut li: usize = 0;
            while li < links.len()
                invariant
                    trie.wf(),
                    count == trie.spec_count(),
                    count >= 1,
                    u < count,
                    suf_link@.len() == count,
                    depth@.len() == count,
                    li <= links@.len(),
                    forall|k: int|
                        0 <= k < links@.len() ==> (#[trigger] links@[k]).1 < count,
                    forall|k: int| 0 <= k < count ==> #[trigger] suf_link@[k] < count,
                    forall|k: int| 0 <= k < count ==> #[trigger] depth@[k] <= count,
                    depth@[0] == 0,
                    forall|k: int|
                        0 <= k < links@.len() ==> (#[trigger] links@[k]).1 >= 1,
                    forall|k: int| 0 <= k < que@.len() ==> #[trigger] que@[k] < count,
                    head <= que@.len(),
                decreases links@.len() - li,
            {
                let (c, v) = links[li];
                if u != 0 {
                    let mut a = u;
                    let mut fuel = count;
                    while fuel > 0
                        invariant
                            trie.wf(),
                            count == trie.spec_count(),
                            a < count,
                            v < count,
                            suf_link@.len() == count,
                            forall|k: int| 0 <= k < count ==> #[trigger] suf_link@[k] < count,
                        decreases fuel,
                    {
                        match trie.transition(suf_link[a], c) {
                            Some(w) => {
                                suf_link[v] = w;
                                break ;
                            },
                            None => {
                            },
                        }
                        if a == 0 {
                            break ;
                        }
                        a = suf_link[a];
                        fuel -= 1;
                    }
                }
                let du = depth[u];
                let dv = if du < count {
                    du + 1
                } else {
                    count
                };
                depth[v] = dv;
                que.push(v);
                li += 1;
            }
        }
        AhoCorasick { trie, suf_link, depth }
    }

    /// Follows the edge labelled `c` out of state `i`, falling back along
    /// suffix links; nothing when the fallback chain runs out at the root.
    /// Where the trie itself has the edge, that edge is taken.
    pub fn transition(&self, i: usize, c: u8) -> (r: Option<usize>)
        requires
            self.wf(),
            i < self.spec_count(),
        ensures
            r matches Some(j) ==> j < self.spec_count(),
            self.spec_trie().spec_child(i as int, c as int) != crate::trie::no_edge() ==> r
                == Some(self.spec_trie().spec_child(i as int, c as int)),
            i == 0 && self.spec_trie().spec_child(0, c as int) == crate::trie::no_edge() ==> r
                is None,
    {
        let count = self.trie.count_node();
        match self.trie.transition(i, c) {
            Some(j) => {
                return Some(j);
            },
            None => {
            },
        }
        if i == 0 {
            return None;
        }
        let mut cur = self.suf_link[i];
        let mut fuel = count;
        while fuel > 0
            invariant
                self.wf(),
                count == self.spec_count(),
                cur < count,
                i != 0,
                self.spec_trie().spec_child(i as int, c as int) == crate::trie::no_edge(),
            decreases fuel,
        {
            match self.trie.transition(cur, c) {
                Some(j) => {
                    return Some(j);
                },
                None => {
                },
            }
            if cur == 0 {
                return None;
            }
            cur = self.suf_link[cur];
            fuel -= 1;
        }
        None
    }

    /// The depth recorded for state `i`.
    pub fn depth(&self, i: usize) -> (r: usize)
        requires
            self.wf(),
            i < self.spec_count(),
        ensures
            r == self.spec_depth(i as int),
    {
        self.depth[i]
    }

    /// The suffix link of state `i`; the root has none.
    pub fn suffix(&self, i: usize) -> (r: Option<usize>)
        requires
            self.wf(),
            i < self.spec_count(),
        ensures
            i == 0 ==> r is None,
            i != 0 ==> r == Some(self.spec_suffix(i as int)),
            r matches Some(j) ==> j < self.spec_count(),
    {
        if i == 0 {
            None
        } else {
            Some(self.suf_link[i])
        }
    }
}

} // verus!
