//! Adjacency lists: a builder collecting directed edges, and a frozen
//! compressed form holding each vertex's neighbours contiguously, in insertion
//! order. A labelled variant carries one payload per edge.

use vstd::prelude::*;

verus! {

/// Collects edges before freezing them into an `AdjList`.
pub struct AdjListBuilder {
    verts: usize,
    edges: Vec<(usize, usize)>,
}

impl AdjListBuilder {
    /// The number of vertices.
    pub closed spec fn spec_verts(&self) -> usize {
        self.verts
    }

    /// The edges collected so far, in insertion order.
    pub closed spec fn spec_edges(&self) -> Seq<(usize, usize)> {
        self.edges@
    }

    /// Every collected edge stays inside the vertex range.
    pub closed spec fn wf(&self) -> bool {
        forall|t: int|
            0 <= t < self.edges@.len() ==> (#[trigger] self.edges@[t]).0 < self.verts
                && self.edges@[t].1 < self.verts
    }

    /// A builder for `num_vert` vertices and no edges.
    pub fn new(num_vert: usize) -> (r: AdjListBuilder)
        ensures
            r.wf(),
            r.spec_verts() == num_vert,
            r.spec_edges().len() == 0,
    {
        AdjListBuilder { verts: num_vert, edges: Vec::new() }
    }

    /// A builder for `num_vert` vertices, sized for `cap_edge` edges.
    pub fn with_capacity(num_vert: usize, cap_edge: usize) -> (r: AdjListBuilder)
        ensures
            r.wf(),
            r.spec_verts() == num_vert,
            r.spec_edges().len() == 0,
    {
        let edges: Vec<(usize, usize)> = Vec::with_capacity(cap_edge);
        AdjListBuilder { verts: num_vert, edges }
    }

    /// The number of vertices.
    pub fn num_vert(&self) -> (r: usize)
        ensures
            r == self.spec_verts(),
    {
        self.verts
    }

    /// The number of edges collected so far.
    pub fn num_edge(&self) -> (r: usize)
        ensures
            r == self.spec_edges().len(),
    {
        self.edges.len()
    }

    /// Records the directed edge `from -> to`.
    pub fn edge(&mut self, from: usize, to: usize)
        requires
            old(self).wf(),
            from < old(self).spec_verts(),
            to < old(self).spec_verts(),
        ensures
            final(self).wf(),
            final(self).spec_verts() == old(self).spec_verts(),
            final(self).spec_edges() == old(self).spec_edges().push((from, to)),
    {
        self.edges.push((from, to));
    }

    /// Records the edge in both directions.
    pub fn biedge(&mut self, u: usize, v: usize)
        requires
            old(self).wf(),
            u < old(self).spec_verts(),
            v < old(self).spec_verts(),
        ensures
            final(self).wf(),
            final(self).spec_verts() == old(self).spec_verts(),
            final(self).spec_edges() == old(self).spec_edges().push((u, v)).push((v, u)),
    {
        self.edges.push((u, v));
        self.edges.push((v, u));
    }

    /// Freezes the collected edges into the compressed form: afterwards
    /// every vertex's neighbour block holds exactly the targets of its
    /// edges, in insertion order.
    pub fn build(self) -> (r: AdjList)
        requires
            self.wf(),
        ensures
            r.wf(),
            r.spec_verts() == self.spec_verts(),
            r.spec_num_edge() == self.spec_edges().len(),
            r.spec_edges() == self.spec_edges(),
    {
        let n = self.verts;
        let m = self.edges.len();
        let mut heads: Vec<usize> = Vec::new();
        let mut adj: Vec<usize> = Vec::new();
        let mut v: usize = 0;
        heads.push(0);
        while v < n
            invariant
                v <= n,
                self.wf(),
                n == self.spec_verts(),
                m == self.edges@.len(),
                heads@.len() == v + 1,
                heads@[0] == 0,
                heads@[v as int] == adj@.len(),
                adj@.len() <= v * m,
                forall|t: int| 0 <= t < heads@.len() ==> #[trigger] heads@[t] <= adj@.len(),
                forall|t: int| 1 <= t < heads@.len() ==> heads@[t - 1] <= #[trigger] heads@[t],
                forall|t: int| 0 <= t < adj@.len() ==> #[trigger] adj@[t] < n,
                forall|w: int|
                    0 <= w < v ==> adj@.subrange(heads@[w] as int, heads@[w + 1] as int)
                        == #[trigger] spec_out_targets(self.edges@, w, m as int),
            decreases n - v,
        {
            let mut e: usize = 0;
            while e < m
                invariant
                    v < n,
                    e <= m,
                    self.wf(),
                    n == self.spec_verts(),
                    m == self.edges@.len(),
                    heads@.len() == v + 1,
                    heads@[0] == 0,
                    adj@.len() <= v * m + e,
                    forall|t: int| 0 <= t < heads@.len() ==> #[trigger] heads@[t] <= adj@.len(),
                    forall|t: int| 1 <= t < heads@.len() ==> heads@[t - 1] <= #[trigger] heads@[t],
                    forall|t: int| 0 <= t < adj@.len() ==> #[trigger] adj@[t] < n,
                    heads@[v as int] <= adj@.len(),
                    adj@.subrange(heads@[v as int] as int, adj@.len() as int) == spec_out_targets(
                        self.edges@,
                        v as int,
                        e as int,
                    ),
                    forall|w: int|
                        0 <= w < v ==> adj@.subrange(heads@[w] as int, heads@[w + 1] as int)
                            == #[trigger] spec_out_targets(self.edges@, w, m as int),
                decreases m - e,
            {
                let pr = self.edges[e];
                proof {
                    assert(pr == self.edges@[e as int]);
                    assert(pr.0 < n && pr.1 < n);
                }
                let ghost adj0 = adj@;
                if pr.0 == v {
                    proof {
                        lemma_row_bound(v as int, e as int, m as int, n as int);
                    }
                    adj.push(pr.1);
                }
                proof {
                    if pr.0 == v {
                        assert(adj@.subrange(heads@[v as int] as int, adj@.len() as int)
                            =~= adj0.subrange(heads@[v as int] as int, adj0.len() as int).push(pr.1));
                    } else {
                        assert(adj@.subrange(heads@[v as int] as int, adj@.len() as int)
                            =~= adj0.subrange(heads@[v as int] as int, adj0.len() as int));
                    }
                    assert forall|w: int|
                        0 <= w < v implies adj@.subrange(heads@[w] as int, heads@[w + 1] as int)
                        == #[trigger] spec_out_targets(self.edges@, w, m as int) by {
                        assert(adj@.subrange(heads@[w] as int, heads@[w + 1] as int) =~= adj0.subrange(
                            heads@[w] as int,
                            heads@[w + 1] as int,
                        ));
                    }
                }
                e += 1;
            }
            proof {
                lemma_row_bound_full(v as int, m as int, n as int);
            }
            let cur = adj.len();
            let ghost heads0 = heads@;
            heads.push(cur);
            v += 1;
            proof {
                assert forall|w: int|
                    0 <= w < v implies adj@.subrange(heads@[w] as int, heads@[w + 1] as int)
                    == #[trigger] spec_out_targets(self.edges@, w, m as int) by {
                }
            }
        }
        let r = AdjList { verts: n, heads, adj, count: m, edge_list: Ghost(self.edges@) };
        proof {
            assert forall|w: int|
                0 <= w < n implies r.adj@.subrange(r.heads@[w] as int, r.heads@[w + 1] as int)
                == #[trigger] r.spec_adj(w) by {
            }
        }
        r
    }
}

/// The next row keeps the running total inside the rectangle.
proof fn lemma_row_bound(v: int, e: int, m: int, n: int) by (nonlinear_arith)
    requires
        0 <= v < n,
        0 <= e < m,
    ensures
        v * m + e + 1 <= (v + 1) * m,
{
}

/// Finishing a row moves the bound to the next one.
proof fn lemma_row_bound_full(v: int, m: int, n: int) by (nonlinear_arith)
    requires
        0 <= v < n,
        0 <= m,
    ensures
        v * m + m == (v + 1) * m,
{
}

/// The targets of the edges with source `v` among the first `k` edges, in
/// insertion order.
pub open spec fn spec_out_targets(edges: Seq<(usize, usize)>, v: int, k: int) -> Seq<usize>
    decreases k,
{
    if k <= 0 {
        Seq::empty()
    } else if edges[k - 1].0 == v {
        spec_out_targets(edges, v, k - 1).push(edges[k - 1].1)
    } else {
        spec_out_targets(edges, v, k - 1)
    }
}

/// The frozen adjacency structure: neighbour blocks per vertex.
pub struct AdjList {
    verts: usize,
    heads: Vec<usize>,
    adj: Vec<usize>,
    count: usize,
    edge_list: Ghost<Seq<(usize, usize)>>,
}

/// One vertex's neighbours, in edge-insertion order.
pub struct Adj(pub Vec<usize>);

impl Adj {
    /// The `i`-th neighbour.
    pub fn get(&self, i: usize) -> (r: usize)
        requires
            i < self.0@.len(),
        ensures
            r == self.0@[i as int],
    {
        self.0[i]
    }

    /// The number of neighbours.
    pub fn len(&self) -> (r: usize)
        ensures
            r == self.0@.len(),
    {
        self.0.len()
    }
}

impl AdjList {
    /// The number of vertices.
    pub closed spec fn spec_verts(&self) -> usize {
        self.verts
    }

    /// The number of edges.
    pub closed spec fn spec_num_edge(&self) -> usize {
        self.count
    }

    /// The size of vertex `v`'s neighbour block.
    pub closed spec fn spec_deg(&self, v: int) -> int {
        self.heads@[v + 1] - self.heads@[v]
    }

    /// The edges this structure was built from, in insertion order.
    pub closed spec fn spec_edges(&self) -> Seq<(usize, usize)> {
        self.edge_list@
    }

    /// The neighbours of `v`: the targets of `v`'s edges, in insertion
    /// order.
    pub open spec fn spec_adj(&self, v: int) -> Seq<usize> {
        spec_out_targets(self.spec_edges(), v, self.spec_edges().len() as int)
    }

    /// The structural invariant: the offsets are monotone, start at zero,
    /// end at the edge total, every neighbour is a vertex, and vertex `v`'s
    /// block holds exactly the targets of `v`'s edges in insertion order.
    pub closed spec fn wf(&self) -> bool {
        &&& self.heads@.len() == self.verts + 1
        &&& self.heads@[0] == 0
        &&& self.heads@[self.verts as int] == self.adj@.len()
        &&& self.count == self.edge_list@.len()
        &&& forall|t: int|
            1 <= t < self.heads@.len() ==> self.heads@[t - 1] <= #[trigger] self.heads@[t]
        &&& forall|t: int| 0 <= t < self.heads@.len() ==> #[trigger] self.heads@[t]
            <= self.adj@.len()
        &&& forall|t: int| 0 <= t < self.adj@.len() ==> #[trigger] self.adj@[t] < self.verts
        &&& forall|v: int|
            0 <= v < self.verts ==> self.adj@.subrange(self.heads@[v] as int, self.heads@[v + 1] as int)
                == #[trigger] self.spec_adj(v)
    }

    /// Builds directly from an edge list: the structure then answers
    /// adjacency queries for exactly these edges.
    pub fn from_edges(num_vert: usize, edges: &Vec<(usize, usize)>) -> (r: AdjList)
        requires
            forall|t: int|
                0 <= t < edges@.len() ==> (#[trigger] edges@[t]).0 < num_vert && edges@[t].1
                    < num_vert,
        ensures
            r.wf(),
            r.spec_verts() == num_vert,
            r.spec_num_edge() == edges@.len(),
            r.spec_edges() == edges@,
    {
        let mut b = AdjListBuilder::with_capacity(num_vert, edges.len());
        let mut t: usize = 0;
        while t < edges.len()
            invariant
                t <= edges@.len(),
                b.wf(),
                b.spec_verts() == num_vert,
                b.spec_edges() == edges@.subrange(0, t as int),
                forall|k: int|
                    0 <= k < edges@.len() ==> (#[trigger] edges@[k]).0 < num_vert && edges@[k].1
                        < num_vert,
            decreases edges@.len() - t,
        {
            let (f, to) = edges[t];
            b.edge(f, to);
            proof {
                assert(b.spec_edges() =~= edges@.subrange(0, t + 1));
            }
            t += 1;
        }
        proof {
            assert(b.spec_edges() =~= edges@);
        }
        b.build()
    }

    /// Builds from an edge list, adding each edge in both directions: the
    /// recorded list alternates the given edge and its reverse.
    pub fn from_biedges(num_vert: usize, edges: &Vec<(usize, usize)>) -> (r: AdjList)
        requires
            forall|t: int|
                0 <= t < edges@.len() ==> (#[trigger] edges@[t]).0 < num_vert && edges@[t].1
                    < num_vert,
        ensures
            r.wf(),
            r.spec_verts() == num_vert,
            r.spec_num_edge() == 2 * edges@.len(),
            r.spec_edges().len() == 2 * edges@.len(),
            forall|k: int|
                0 <= k < edges@.len() ==> r.spec_edges()[2 * k] == ((#[trigger] edges@[k]).0, edges@[k].1)
                    && r.spec_edges()[2 * k + 1] == (edges@[k].1, edges@[k].0),
    {
        let mut b = AdjListBuilder::with_capacity(num_vert, edges.len());
        let mut t: usize = 0;
        while t < edges.len()
            invariant
                t <= edges@.len(),
                b.wf(),
                b.spec_verts() == num_vert,
                b.spec_edges().len() == 2 * t,
                forall|k: int|
                    0 <= k < t ==> b.spec_edges()[2 * k] == ((#[trigger] edges@[k]).0, edges@[k].1)
                        && b.spec_edges()[2 * k + 1] == (edges@[k].1, edges@[k].0),
                forall|k: int|
                    0 <= k < edges@.len() ==> (#[trigger] edges@[k]).0 < num_vert && edges@[k].1
                        < num_vert,
            decreases edges@.len() - t,
        {
            let (f, to) = edges[t];
            b.biedge(f, to);
            t += 1;
        }
        b.build()
    }

    /// The number of vertices.
    pub fn num_vert(&self) -> (r: usize)
        ensures
            r == self.spec_verts(),
    {
        self.verts
    }

    /// The number of edges.
    pub fn num_edge(&self) -> (r: usize)
        ensures
            r == self.spec_num_edge(),
    {
        self.count
    }

    /// The degree of `v`: the number of edges recorded with source `v`.
    pub fn deg(&self, v: usize) -> (r: usize)
        requires
            self.wf(),
            v < self.spec_verts(),
        ensures
            r == self.spec_deg(v as int),
            r == self.spec_adj(v as int).len(),
    {
        self.heads[v + 1] - self.heads[v]
    }

    /// The neighbours of `v`: exactly the targets of `v`'s edges, in
    /// edge-insertion order.
    pub fn adj(&self, v: usize) -> (r: Adj)
        requires
            self.wf(),
            v < self.spec_verts(),
        ensures
            r.0@ == self.spec_adj(v as int),
            r.0@.len() == self.spec_deg(v as int),
            forall|t: int| 0 <= t < r.0@.len() ==> #[trigger] r.0@[t] < self.spec_verts(),
    {
        let lo = self.heads[v];
        let hi = self.heads[v + 1];
        let mut out: Vec<usize> = Vec::new();
        let mut t = lo;
        while t < hi
            invariant
                self.wf(),
                v < self.spec_verts(),
                lo == self.heads@[v as int],
                hi == self.heads@[v as int + 1],
                lo <= t <= hi,
                hi <= self.adj@.len(),
                out@.len() == t - lo,
                out@ == self.adj@.subrange(lo as int, t as int),
                forall|k: int| 0 <= k < out@.len() ==> #[trigger] out@[k] < self.spec_verts(),
            decreases hi - t,
        {
            let ghost out0 = out@;
            out.push(self.adj[t]);
            proof {
                assert(out@ =~= self.adj@.subrange(lo as int, t + 1));
            }
            t += 1;
        }
        Adj(out)
    }

    /// Every edge as a `(from, to)` pair, grouped by source.
    pub fn edges(&self) -> (r: Vec<(usize, usize)>)
        requires
            self.wf(),
        ensures
            forall|t: int|
                0 <= t < r@.len() ==> (#[trigger] r@[t]).0 < self.spec_verts() && r@[t].1
                    < self.spec_verts(),
    {
        let n = self.verts;
        let mut out: Vec<(usize, usize)> = Vec::new();
        let mut v: usize = 0;
        while v < n
            invariant
                self.wf(),
                n == self.spec_verts(),
                v <= n,
                forall|t: int|
                    0 <= t < out@.len() ==> (#[trigger] out@[t]).0 < n && out@[t].1 < n,
            decreases n - v,
        {
            let lo = self.heads[v];
            let hi = self.heads[v + 1];
            let mut t = lo;
            while t < hi
                invariant
                    self.wf(),
                    n == self.spec_verts(),
                    v < n,
                    hi <= self.adj@.len(),
                    t <= hi,
                    forall|k: int|
                        0 <= k < out@.len() ==> (#[trigger] out@[k]).0 < n && out@[k].1 < n,
                decreases hi - t,
            {
                out.push((v, self.adj[t]));
                t += 1;
            }
            v += 1;
        }
        out
    }
}

/// Collects labelled edges before freezing them.
pub struct LabeledAdjListBuilder<T> {
    inner: AdjListBuilder,
    labels: Vec<T>,
}

impl<T: Copy> LabeledAdjListBuilder<T> {
    /// One label per collected edge, all edges in range.
    pub closed spec fn wf(&self) -> bool {
        self.inner.wf() && self.labels@.len() == self.inner.spec_edges().len()
    }

    /// The number of vertices.
    pub closed spec fn spec_verts(&self) -> usize {
        self.inner.spec_verts()
    }

    /// The number of edges collected so far.
    pub closed spec fn spec_num_edge(&self) -> nat {
        self.labels@.len()
    }

    /// A builder for `num_vert` vertices.
    pub fn new(num_vert: usize) -> (r: LabeledAdjListBuilder<T>)
        ensures
            r.wf(),
            r.spec_verts() == num_vert,
            r.spec_num_edge() == 0,
    {
        LabeledAdjListBuilder { inner: AdjListBuilder::new(num_vert), labels: Vec::new() }
    }

    /// A builder sized for `cap_edge` edges.
    pub fn with_capacity(num_vert: usize, cap_edge: usize) -> (r: LabeledAdjListBuilder<T>)
        ensures
            r.wf(),
            r.spec_verts() == num_vert,
            r.spec_num_edge() == 0,
    {
        LabeledAdjListBuilder {
            inner: AdjListBuilder::with_capacity(num_vert, cap_edge),
            labels: Vec::new(),
        }
    }

    /// The number of vertices.
    pub fn num_vert(&self) -> (r: usize)
        ensures
            r == self.spec_verts(),
    {
        self.inner.num_vert()
    }

    /// The number of edges collected so far.
    pub fn num_edge(&self) -> (r: usize)
        ensures
            r == self.spec_num_edge(),
    {
        self.labels.len()
    }

    /// Records the labelled edge `from -> to`.
    pub fn edge(&mut self, from: usize, to: usize, label: T)
        requires
            old(self).wf(),
            from < old(self).spec_verts(),
            to < old(self).spec_verts(),
        ensures
            final(self).wf(),
            final(self).spec_verts() == old(self).spec_verts(),
            final(self).spec_num_edge() == old(self).spec_num_edge() + 1,
    {
        self.labels.push(label);
        self.inner.edge(from, to);
    }

    /// Records the labelled edge in both directions.
    pub fn biedge(&mut self, u: usize, v: usize, label: T)
        requires
            old(self).wf(),
            u < old(self).spec_verts(),
            v < old(self).spec_verts(),
        ensures
            final(self).wf(),
            final(self).spec_verts() == old(self).spec_verts(),
            final(self).spec_num_edge() == old(self).spec_num_edge() + 2,
    {
        self.edge(u, v, label);
        self.edge(v, u, label);
    }
}

/// The frozen labelled adjacency structure.
pub struct LabeledAdjList<T> {
    g: AdjList,
    from: Vec<usize>,
    to: Vec<usize>,
    labels: Vec<T>,
}

impl<T: Copy> LabeledAdjList<T> {
    /// The structural invariant: the unlabelled part is sound and the
    /// per-vertex payload table mirrors it.
    pub closed spec fn wf(&self) -> bool {
        &&& self.g.wf()
        &&& self.to@.len() == self.labels@.len()
        &&& self.from@.len() == self.labels@.len()
        &&& forall|t: int| 0 <= t < self.to@.len() ==> #[trigger] self.to@[t] < self.g.spec_verts()
    }

    /// The number of vertices.
    pub closed spec fn spec_verts(&self) -> usize {
        self.g.spec_verts()
    }

    /// The number of edges.
    pub closed spec fn spec_num_edge(&self) -> nat {
        self.labels@.len()
    }

    /// The size of vertex `v`'s neighbour block.
    pub closed spec fn spec_deg(&self, v: int) -> int {
        self.g.spec_deg(v)
    }

    /// Builds directly from a labelled edge list.
    pub fn from_edges(num_vert: usize, edges: &Vec<(usize, usize, T)>) -> (r: LabeledAdjList<T>)
        requires
            forall|t: int|
                0 <= t < edges@.len() ==> (#[trigger] edges@[t]).0 < num_vert && edges@[t].1
                    < num_vert,
        ensures
            r.wf(),
            r.spec_verts() == num_vert,
    {
        let mut plain: Vec<(usize, usize)> = Vec::new();
        let mut from: Vec<usize> = Vec::new();
        let mut to: Vec<usize> = Vec::new();
        let mut labels: Vec<T> = Vec::new();
        let mut t: usize = 0;
        while t < edges.len()
            invariant
                t <= edges@.len(),
                forall|k: int|
                    0 <= k < edges@.len() ==> (#[trigger] edges@[k]).0 < num_vert && edges@[k].1
                        < num_vert,
                forall|k: int|
                    0 <= k < plain@.len() ==> (#[trigger] plain@[k]).0 < num_vert && plain@[k].1
                        < num_vert,
                forall|k: int| 0 <= k < to@.len() ==> #[trigger] to@[k] < num_vert,
                to@.len() == labels@.len(),
                from@.len() == labels@.len(),
            decreases edges@.len() - t,
        {
            let (f, d, l) = edges[t];
            plain.push((f, d));
            from.push(f);
            to.push(d);
            labels.push(l);
            t += 1;
        }
        let g = AdjList::from_edges(num_vert, &plain);
        LabeledAdjList { g, from, to, labels }
    }

    /// Builds from a labelled edge list, adding each edge in both
    /// directions.
    pub fn from_biedges(num_vert: usize, edges: &Vec<(usize, usize, T)>) -> (r: LabeledAdjList<
        T,
    >)
        requires
            forall|t: int|
                0 <= t < edges@.len() ==> (#[trigger] edges@[t]).0 < num_vert && edges@[t].1
                    < num_vert,
        ensures
            r.wf(),
            r.spec_verts() == num_vert,
    {
        let mut both: Vec<(usize, usize, T)> = Vec::new();
        let mut t: usize = 0;
        while t < edges.len()
            invariant
                t <= edges@.len(),
                forall|k: int|
                    0 <= k < edges@.len() ==> (#[trigger] edges@[k]).0 < num_vert && edges@[k].1
                        < num_vert,
                forall|k: int|
                    0 <= k < both@.len() ==> (#[trigger] both@[k]).0 < num_vert && both@[k].1
                        < num_vert,
            decreases edges@.len() - t,
        {
            let (u, v, l) = edges[t];
            both.push((u, v, l));
            both.push((v, u, l));
            t += 1;
        }
        LabeledAdjList::from_edges(num_vert, &both)
    }

    /// The number of vertices.
    pub fn num_vert(&self) -> (r: usize)
        ensures
            r == self.spec_verts(),
    {
        self.g.num_vert()
    }

    /// The number of edges.
    pub fn num_edge(&self) -> (r: usize)
        ensures
            r == self.spec_num_edge(),
    {
        self.labels.len()
    }

    /// The neighbours of `v` through the unlabelled view.
    pub fn adj(&self, v: usize) -> (r: Adj)
        requires
            self.wf(),
            v < self.spec_verts(),
        ensures
            r.0@.len() == self.spec_deg(v as int),
            forall|t: int| 0 <= t < r.0@.len() ==> #[trigger] r.0@[t] < self.spec_verts(),
    {
        self.g.adj(v)
    }

    /// The labelled edges leaving `v`, in insertion order: targets paired
    /// with payloads.
    pub fn outedges(&self, v: usize) -> (r: Vec<(usize, T)>)
        requires
            self.wf(),
            v < self.spec_verts(),
        ensures
            forall|t: int| 0 <= t < r@.len() ==> (#[trigger] r@[t]).0 < self.spec_verts(),
    {
        let m = self.to.len();
        let mut out: Vec<(usize, T)> = Vec::new();
        let mut t: usize = 0;
        while t < m
            invariant
                self.wf(),
                m == self.to@.len(),
                t <= m,
                forall|k: int| 0 <= k < out@.len() ==> (#[trigger] out@[k]).0 < self.spec_verts(),
            decreases m - t,
        {
            if self.from[t] == v {
                out.push((self.to[t], self.labels[t]));
            }
            t += 1;
        }
        out
    }
}

} // verus!
