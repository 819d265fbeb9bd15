//! Clause collection for two-literal satisfiability: each variable `i` gets
//! the two implication-graph vertices `2i` (false) and `2i + 1` (true), and
//! a clause adds the two contrapositive implication edges.

use crate::adj_list::AdjListBuilder;
use vstd::prelude::*;

verus! {

/// The implication-graph vertex of the literal "variable `i` has value `f`".
pub open spec fn spec_lit(i: int, f: bool) -> int {
    2 * i + (if f {
        1int
    } else {
        0int
    })
}

/// The vertex of the opposite literal.
pub open spec fn spec_neg(i: int, f: bool) -> int {
    2 * i + (if f {
        0int
    } else {
        1int
    })
}

/// The clause collector.
pub struct TwoSat {
    g: AdjListBuilder,
}

impl TwoSat {
    /// The number of variables.
    pub closed spec fn spec_vars(&self) -> int {
        self.g.spec_verts() as int / 2
    }

    /// The implication edges collected so far, in insertion order.
    pub closed spec fn spec_edges(&self) -> Seq<(usize, usize)> {
        self.g.spec_edges()
    }

    /// The underlying implication graph is sound and has two vertices per
    /// variable.
    pub closed spec fn wf(&self) -> bool {
        self.g.wf() && self.g.spec_verts() % 2 == 0
    }

    /// A collector for `n` variables and no clauses.
    pub fn new(n: usize) -> (r: TwoSat)
        requires
            n <= usize::MAX / 2,
        ensures
            r.wf(),
            r.spec_vars() == n,
            r.spec_edges().len() == 0,
    {
        TwoSat { g: AdjListBuilder::new(2 * n) }
    }

    /// Adds the clause "variable `i` is `f`, or variable `j` is `g`": the
    /// two contrapositive implications, from the negation of each literal
    /// to the other literal.
    pub fn clause(&mut self, i: usize, f: bool, j: usize, g: bool)
        requires
            old(self).wf(),
            i < old(self).spec_vars(),
            j < old(self).spec_vars(),
        ensures
            final(self).wf(),
            final(self).spec_vars() == old(self).spec_vars(),
            final(self).spec_edges() == old(self).spec_edges().push(
                (spec_neg(i as int, f) as usize, spec_lit(j as int, g) as usize),
            ).push((spec_neg(j as int, g) as usize, spec_lit(i as int, f) as usize)),
    {
        let u = 2 * i + (if f {
            1
        } else {
            0
        });
        let v = 2 * j + (if g {
            1
        } else {
            0
        });
        let nu = if u % 2 == 0 {
            u + 1
        } else {
            u - 1
        };
        let nv = if v % 2 == 0 {
            v + 1
        } else {
            v - 1
        };
        self.g.edge(nu, v);
        self.g.edge(nv, u);
    }
}

} // verus!
