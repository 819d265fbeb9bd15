//! Disjoint-set union with union by size. Each entry either points at its
//! parent or, at a root, stores the negated component size. A ghost map
//! from every element to its representative carries the partition
//! semantics: the contracts say which classes merge, which root survives,
//! and that the stored sizes are the class cardinalities.

use vstd::prelude::*;

verus! {

/// How many of the first `k` elements have representative `r`.
pub open spec fn class_count(roots: Seq<int>, r: int, k: int) -> int
    decreases k,
{
    if k <= 0 {
        0
    } else {
        class_count(roots, r, k - 1) + (if roots[k - 1] == r {
            1int
        } else {
            0
        })
    }
}

/// Class counts are bounded by the prefix length.
proof fn lemma_count_bound(roots: Seq<int>, r: int, k: int)
    ensures
        0 <= class_count(roots, r, k) <= (if k >= 0 {
            k
        } else {
            0
        }),
    decreases k,
{
    if k > 0 {
        lemma_count_bound(roots, r, k - 1);
    }
}

/// An element with representative `r` makes its class non-empty.
proof fn lemma_count_member(roots: Seq<int>, r: int, j: int, k: int)
    requires
        0 <= j < k,
        roots[j] == r,
    ensures
        class_count(roots, r, k) >= 1,
    decreases k,
{
    lemma_count_bound(roots, r, k - 1);
    if j < k - 1 {
        lemma_count_member(roots, r, j, k - 1);
    }
}

/// Two distinct classes together cover no more than the prefix.
proof fn lemma_count_pair(roots: Seq<int>, r1: int, r2: int, k: int)
    requires
        r1 != r2,
    ensures
        class_count(roots, r1, k) + class_count(roots, r2, k) <= (if k >= 0 {
            k
        } else {
            0
        }),
    decreases k,
{
    lemma_count_bound(roots, r1, k);
    lemma_count_bound(roots, r2, k);
    if k > 0 {
        lemma_count_pair(roots, r1, r2, k - 1);
    }
}

/// Rewriting every occurrence of `from` to `into` merges the two counts
/// and leaves every other class count unchanged.
proof fn lemma_count_remap(roots: Seq<int>, mapped: Seq<int>, from: int, into: int, k: int)
    requires
        from != into,
        k <= roots.len(),
        mapped.len() == roots.len(),
        forall|t: int|
            0 <= t < roots.len() ==> #[trigger] mapped[t] == (if roots[t] == from {
                into
            } else {
                roots[t]
            }),
    ensures
        class_count(mapped, into, k) == class_count(roots, into, k) + class_count(
            roots,
            from,
            k,
        ),
        class_count(mapped, from, k) == 0,
        forall|r: int|
            r != from && r != into ==> #[trigger] class_count(mapped, r, k) == class_count(
                roots,
                r,
                k,
            ),
    decreases k,
{
    if k > 0 {
        lemma_count_remap(roots, mapped, from, into, k - 1);
        assert forall|r: int|
            r != from && r != into implies #[trigger] class_count(mapped, r, k) == class_count(
            roots,
            r,
            k,
        ) by {
            assert(class_count(mapped, r, k - 1) == class_count(roots, r, k - 1));
        }
    }
}

/// In the identity map every class is the singleton of its index.
proof fn lemma_count_identity(roots: Seq<int>, r: int, k: int)
    requires
        forall|t: int| 0 <= t < roots.len() ==> #[trigger] roots[t] == t,
        k <= roots.len(),
    ensures
        0 <= r < k ==> class_count(roots, r, k) == 1,
        r >= k ==> class_count(roots, r, k) == 0,
    decreases k,
{
    if k > 0 {
        lemma_count_identity(roots, r, k - 1);
    }
}

/// One component of the structure: its root and its size.
#[derive(Clone, Copy, PartialEq, Eq, Structural, Debug)]
pub struct Comp {
    pub root: usize,
    pub size: usize,
}

/// What a `unite` did: whether it joined two components, the surviving
/// root, the root that was absorbed, and the surviving component's size.
#[derive(Clone, Copy, PartialEq, Eq, Structural, Debug)]
pub struct UniteResult {
    pub is_united: bool,
    pub root: usize,
    pub united_root: usize,
    pub size: usize,
}

/// Whether entry `i` of the forest is consistent with the ghost
/// representative map and the ghost depths: parents share the
/// representative and sit at strictly smaller depth; roots are exactly the
/// fixed points and store their negated class size.
pub open spec fn entry_ok(table: Seq<i64>, roots: Seq<int>, depth: Seq<int>, i: int) -> bool {
    let n = table.len() as int;
    &&& 0 <= roots[i] < n
    &&& roots[roots[i]] == roots[i]
    &&& depth[i] >= 0
    &&& (table[i] < 0 <==> roots[i] == i)
    &&& (table[i] >= 0 ==> 0 <= table[i] < n && roots[table[i] as int] == roots[i] && depth[i]
        > depth[table[i] as int])
    &&& (table[i] < 0 ==> -table[i] == class_count(roots, i, n))
}

/// The disjoint-set forest.
pub struct Dsu {
    table: Vec<i64>,
    roots: Ghost<Seq<int>>,
    depth: Ghost<Seq<int>>,
}

impl Dsu {
    /// The number of elements.
    pub closed spec fn spec_len(&self) -> nat {
        self.table@.len()
    }

    /// The representative of `i`'s component.
    pub closed spec fn spec_root(&self, i: int) -> int {
        self.roots@[i]
    }

    /// The number of elements in `i`'s component.
    pub closed spec fn spec_size(&self, i: int) -> int {
        class_count(self.roots@, self.spec_root(i), self.spec_len() as int)
    }

    /// The structural invariant.
    pub closed spec fn wf(&self) -> bool {
        &&& self.table@.len() <= 0x7fff_ffff_ffff_ffff
        &&& self.roots@.len() == self.table@.len()
        &&& self.depth@.len() == self.table@.len()
        &&& forall|i: int|
            0 <= i < self.table@.len() ==> #[trigger] entry_ok(
                self.table@,
                self.roots@,
                self.depth@,
                i,
            )
    }

    /// Builds `n` singleton components: every element is its own root with
    /// size one.
    pub fn new(n: usize) -> (r: Dsu)
        requires
            n <= 0x7fff_ffff_ffff_ffff,
        ensures
            r.wf(),
            r.spec_len() == n,
            forall|i: int| 0 <= i < n ==> #[trigger] r.spec_root(i) == i,
            forall|i: int| 0 <= i < n ==> #[trigger] r.spec_size(i) == 1,
    {
        let mut table: Vec<i64> = Vec::new();
        let mut t: usize = 0;
        while t < n
            invariant
                t <= n,
                table@.len() == t,
                forall|k: int| 0 <= k < t ==> #[trigger] table@[k] == -1,
            decreases n - t,
        {
            table.push(-1);
            t += 1;
        }
        let r = Dsu {
            table,
            roots: Ghost(Seq::new(n as nat, |i: int| i)),
            depth: Ghost(Seq::new(n as nat, |i: int| 0)),
        };
        proof {
            assert forall|i: int| 0 <= i < n implies #[trigger] entry_ok(
                r.table@,
                r.roots@,
                r.depth@,
                i,
            ) by {
                lemma_count_identity(r.roots@, i, n as int);
            }
            assert forall|i: int| 0 <= i < n implies #[trigger] r.spec_size(i) == 1 by {
                lemma_count_identity(r.roots@, i, n as int);
            }
        }
        r
    }

    /// The number of elements.
    pub fn len(&self) -> (r: usize)
        ensures
            r == self.spec_len(),
    {
        self.table.len()
    }

    /// Whether `i` is the representative of its component.
    pub fn is_root(&self, i: usize) -> (r: bool)
        requires
            self.wf(),
            i < self.spec_len(),
        ensures
            r == (self.spec_root(i as int) == i),
    {
        proof {
            assert(entry_ok(self.table@, self.roots@, self.depth@, i as int));
        }
        self.table[i] < 0
    }

    /// The representative and size of `i`'s component, found by following
    /// parent pointers. Read-only: the partition is unchanged.
    pub fn comp(&self, i: usize) -> (r: Comp)
        requires
            self.wf(),
            i < self.spec_len(),
        ensures
            r.root == self.spec_root(i as int),
            r.size == self.spec_size(i as int),
            1 <= r.size <= self.spec_len(),
    {
        let n = self.table.len();
        let mut cur = i;
        proof {
            assert(entry_ok(self.table@, self.roots@, self.depth@, cur as int));
        }
        while self.table[cur] >= 0
            invariant
                self.wf(),
                n == self.spec_len(),
                cur < n,
                self.spec_root(cur as int) == self.spec_root(i as int),
            decreases self.depth@[cur as int],
        {
            let ghost prev = cur as int;
            proof {
                assert(entry_ok(self.table@, self.roots@, self.depth@, prev));
            }
            cur = self.table[cur] as usize;
            proof {
                assert(entry_ok(self.table@, self.roots@, self.depth@, cur as int));
                assert(0 <= self.depth@[cur as int] < self.depth@[prev]);
            }
        }
        proof {
            assert(entry_ok(self.table@, self.roots@, self.depth@, cur as int));
            assert(cur == self.spec_root(i as int));
            lemma_count_bound(self.roots@, cur as int, n as int);
            lemma_count_member(self.roots@, cur as int, cur as int, n as int);
        }
        let e = self.table[cur];
        Comp { root: cur, size: (-e) as usize }
    }

    /// The representative of `i`'s component.
    pub fn root(&self, i: usize) -> (r: usize)
        requires
            self.wf(),
            i < self.spec_len(),
        ensures
            r == self.spec_root(i as int),
    {
        self.comp(i).root
    }

    /// The size of `i`'s component.
    pub fn size(&self, i: usize) -> (r: usize)
        requires
            self.wf(),
            i < self.spec_len(),
        ensures
            r == self.spec_size(i as int),
    {
        self.comp(i).size
    }

    /// Joins the components of `i` and `j`. If they are already one, the
    /// partition is unchanged and that is reported. Otherwise exactly the
    /// two classes merge: the smaller is absorbed into the not-smaller
    /// (ties keep `i`'s side), the surviving root, the absorbed root and
    /// the summed size are reported, and every other class is untouched.
    pub fn unite(&mut self, i: usize, j: usize) -> (res: UniteResult)
        requires
            old(self).wf(),
            i < old(self).spec_len(),
            j < old(self).spec_len(),
        ensures
            final(self).wf(),
            final(self).spec_len() == old(self).spec_len(),
            old(self).spec_root(i as int) == old(self).spec_root(j as int) ==> !res.is_united
                && res.root == old(self).spec_root(i as int) && res.united_root == res.root
                && res.size == old(self).spec_size(i as int) && forall|t: int|
                0 <= t < old(self).spec_len() ==> final(self).spec_root(t) == old(
                    self,
                ).spec_root(t),
            old(self).spec_root(i as int) != old(self).spec_root(j as int) ==> res.is_united
                && res.size == old(self).spec_size(i as int) + old(self).spec_size(j as int)
                && res.size == final(self).spec_size(i as int) && (if old(self).spec_size(
                i as int,
            ) >= old(self).spec_size(j as int) {
                res.root == old(self).spec_root(i as int) && res.united_root == old(
                    self,
                ).spec_root(j as int)
            } else {
                res.root == old(self).spec_root(j as int) && res.united_root == old(
                    self,
                ).spec_root(i as int)
            }) && (forall|t: int|
                0 <= t < old(self).spec_len() ==> final(self).spec_root(t) == (if old(
                    self,
                ).spec_root(t) == res.united_root {
                    res.root as int
                } else {
                    old(self).spec_root(t)
                })),
    {
        let n = self.table.len();
        let ci = self.comp(i);
        let cj = self.comp(j);
        if ci.root == cj.root {
            return UniteResult {
                is_united: false,
                root: ci.root,
                united_root: ci.root,
                size: ci.size,
            };
        }
        let (r, c) = if ci.size >= cj.size {
            (ci.root, cj.root)
        } else {
            (cj.root, ci.root)
        };
        proof {
            assert(entry_ok(self.table@, self.roots@, self.depth@, i as int));
            assert(entry_ok(self.table@, self.roots@, self.depth@, j as int));
            assert(entry_ok(self.table@, self.roots@, self.depth@, r as int));
            assert(entry_ok(self.table@, self.roots@, self.depth@, c as int));
            lemma_count_pair(self.roots@, r as int, c as int, n as int);
        }
        let combined = self.table[r] + self.table[c];
        let ghost old_roots = self.roots@;
        let ghost old_depth = self.depth@;
        let ghost shift = old_depth[r as int] + 1;
        self.table[r] = combined;
        self.table[c] = r as i64;
        proof {
            self.roots@ = Seq::new(
                n as nat,
                |t: int|
                    if old_roots[t] == c {
                        r as int
                    } else {
                        old_roots[t]
                    },
            );
            self.depth@ = Seq::new(
                n as nat,
                |t: int|
                    if old_roots[t] == c {
                        old_depth[t] + shift
                    } else {
                        old_depth[t]
                    },
            );
            lemma_count_remap(old_roots, self.roots@, c as int, r as int, n as int);
            assert forall|t: int| 0 <= t < n implies #[trigger] entry_ok(
                self.table@,
                self.roots@,
                self.depth@,
                t,
            ) by {
                assert(entry_ok(old(self).table@, old_roots, old_depth, t));
                assert(entry_ok(old(self).table@, old_roots, old_depth, old_roots[t]));
                if self.table@[t] >= 0 && t != c {
                    assert(entry_ok(
                        old(self).table@,
                        old_roots,
                        old_depth,
                        old(self).table@[t] as int,
                    ));
                }
            }
            assert forall|t: int|
                0 <= t < old(self).spec_len() implies self.spec_root(t) == (if old(
                self,
            ).spec_root(t) == c {
                r as int
            } else {
                old(self).spec_root(t)
            }) by {
            }
        }
        UniteResult { is_united: true, root: r, united_root: c, size: (-combined) as usize }
    }

    /// The current components, one per representative, in increasing root
    /// order, each with its size.
    pub fn comps(&self) -> (r: Vec<Comp>)
        requires
            self.wf(),
        ensures
            r@ == self.spec_comps(self.spec_len() as int),
            forall|t: int|
                0 <= t < r@.len() ==> self.spec_root((#[trigger] r@[t]).root as int)
                    == r@[t].root && r@[t].size == self.spec_size(r@[t].root as int),
    {
        let n = self.table.len();
        let mut out: Vec<Comp> = Vec::new();
        let mut k: usize = 0;
        while k < n
            invariant
                self.wf(),
                n == self.spec_len(),
                k <= n,
                out@ == self.spec_comps(k as int),
                forall|t: int|
                    0 <= t < out@.len() ==> self.spec_root((#[trigger] out@[t]).root as int)
                        == out@[t].root && out@[t].size == self.spec_size(out@[t].root as int),
            decreases n - k,
        {
            proof {
                assert(entry_ok(self.table@, self.roots@, self.depth@, k as int));
            }
            let e = self.table[k];
            if e < 0 {
                proof {
                    lemma_count_bound(self.roots@, k as int, n as int);
                    lemma_count_member(self.roots@, k as int, k as int, n as int);
                }
                out.push(Comp { root: k, size: (-e) as usize });
                proof {
                    assert(out@ =~= self.spec_comps(k as int).push(
                        Comp { root: k, size: self.spec_size(k as int) as usize },
                    ));
                }
            }
            k += 1;
        }
        out
    }

    /// The component list over the first `k` elements: one entry per
    /// representative below `k`, in index order.
    pub closed spec fn spec_comps(&self, k: int) -> Seq<Comp>
        decreases k,
    {
        if k <= 0 {
            Seq::empty()
        } else if self.spec_root(k - 1) == k - 1 {
            self.spec_comps(k - 1).push(
                Comp { root: (k - 1) as usize, size: self.spec_size(k - 1) as usize },
            )
        } else {
            self.spec_comps(k - 1)
        }
    }

    /// Law: the listed components partition the elements — their sizes sum
    /// to the element count, so every element is covered exactly once.
    pub proof fn lemma_comps_partition(&self)
        requires
            self.wf(),
        ensures
            sum_sizes(self.spec_comps(self.spec_len() as int)) == self.spec_len(),
    {
        let n = self.spec_len() as int;
        self.lemma_comps_prefix(n);
        assert forall|j: int| 0 <= j < n implies 0 <= #[trigger] self.roots@[j] < n by {
            assert(entry_ok(self.table@, self.roots@, self.depth@, j));
        }
        lemma_below_all(self.roots@, n, n);
    }

    /// The running form of the partition law: the sizes listed up to `b`
    /// count exactly the elements whose representative lies below `b`.
    proof fn lemma_comps_prefix(&self, b: int)
        requires
            self.wf(),
            0 <= b <= self.spec_len(),
        ensures
            sum_sizes(self.spec_comps(b)) == count_below(
                self.roots@,
                b,
                self.spec_len() as int,
            ),
        decreases b,
    {
        let n = self.spec_len() as int;
        if b == 0 {
            assert forall|j: int| 0 <= j < n implies #[trigger] self.roots@[j] >= 0 by {
                assert(entry_ok(self.table@, self.roots@, self.depth@, j));
            }
            lemma_below_none(self.roots@, n);
        } else {
            self.lemma_comps_prefix(b - 1);
            lemma_below_step(self.roots@, b, n);
            if self.spec_root(b - 1) == b - 1 {
                lemma_count_bound(self.roots@, b - 1, n);
                vstd::std_specs::vec::axiom_spec_len(&self.table);
                assert(self.spec_comps(b).drop_last() =~= self.spec_comps(b - 1));
                assert(self.spec_comps(b).last().size == self.spec_size(b - 1));
            } else {
                assert forall|j: int| 0 <= j < n implies #[trigger] self.roots@[j] != b - 1 by {
                    assert(entry_ok(self.table@, self.roots@, self.depth@, j));
                    assert(entry_ok(self.table@, self.roots@, self.depth@, b - 1));
                }
                lemma_count_empty(self.roots@, b - 1, n);
            }
        }
    }
}

/// The sum of the listed component sizes.
pub open spec fn sum_sizes(s: Seq<Comp>) -> int
    decreases s.len(),
{
    if s.len() == 0 {
        0
    } else {
        sum_sizes(s.drop_last()) + s.last().size
    }
}

/// How many of the first `k` elements have a representative below `b`.
spec fn count_below(roots: Seq<int>, b: int, k: int) -> int
    decreases k,
{
    if k <= 0 {
        0
    } else {
        count_below(roots, b, k - 1) + (if roots[k - 1] < b {
            1int
        } else {
            0
        })
    }
}

/// With no representative below zero, nothing is counted.
proof fn lemma_below_none(roots: Seq<int>, k: int)
    requires
        forall|j: int| 0 <= j < k ==> #[trigger] roots[j] >= 0,
    ensures
        count_below(roots, 0, k) == 0,
    decreases k,
{
    if k > 0 {
        lemma_below_none(roots, k - 1);
    }
}

/// Raising the bound by one adds exactly the class at the old bound.
proof fn lemma_below_step(roots: Seq<int>, b: int, k: int)
    ensures
        count_below(roots, b, k) == count_below(roots, b - 1, k) + class_count(
            roots,
            b - 1,
            k,
        ),
    decreases k,
{
    if k > 0 {
        lemma_below_step(roots, b, k - 1);
    }
}

/// With every representative below the bound, everything is counted.
proof fn lemma_below_all(roots: Seq<int>, b: int, k: int)
    requires
        forall|j: int| 0 <= j < k ==> 0 <= #[trigger] roots[j] < b,
    ensures
        count_below(roots, b, k) == (if k >= 0 {
            k
        } else {
            0
        }),
    decreases k,
{
    if k > 0 {
        lemma_below_all(roots, b, k - 1);
    }
}

/// A value that never occurs as a representative has an empty class.
proof fn lemma_count_empty(roots: Seq<int>, r: int, k: int)
    requires
        forall|j: int| 0 <= j < k ==> #[trigger] roots[j] != r,
    ensures
        class_count(roots, r, k) == 0,
    decreases k,
{
    if k > 0 {
        lemma_count_empty(roots, r, k - 1);
    }
}

} // verus!
