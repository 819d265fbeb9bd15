//! The plain range-aggregation engine: point update, range query, and
//! monotonic-predicate boundary search over a caller-supplied monoid, on an
//! implicit complete binary tree stored in a flat array of size `2N`.
//! Every operation navigates node indices iteratively; the contracts tie
//! each result to the left-to-right fold of the logical element sequence.

use crate::algebra::{fold, lemma_fold_one, lemma_fold_split, Monoid};
use crate::layout::{
    clog2, ivp, lemma_adjacent, lemma_clog2, lemma_left_safe, lemma_lg_bounds, lemma_lg_succ,
    lemma_node_image, lemma_right_safe, lemma_root, lemma_slot, lemma_strip_pow2,
    lemma_strip_window, lemma_unslot, lemma_vpos_basics, lemma_vpos_mono, lemma_vpos_reflect,
    lemma_vr_end, lemma_window_bounds, next_pow2, node, slot_index, spec_slot, strip,
    strip_index, vl, vpos, vr,
};
use vstd::arithmetic::power2::pow2;
use vstd::prelude::*;

verus! {

/// The per-node shape invariant of the plain engine: every internal node
/// caches the combine of its two children.
pub open spec fn wf_nodes<T: Monoid>(a: Seq<T>, n: nat) -> bool {
    forall|u: int| 1 <= u < n ==> #[trigger] a[u] == T::spec_op(a[2 * u], a[2 * u + 1])
}

/// The logical element sequence: the values sitting in the leaf slots, read
/// through the rotated layout.
pub open spec fn elems_of<T: Monoid>(a: Seq<T>, n: nat) -> Seq<T> {
    Seq::new(n, |i: int| a[spec_slot(n, i) as int])
}

/// In a well-formed node array, every node caches exactly the fold of the
/// logical range its window spans.
pub proof fn lemma_node_fold<T: Monoid>(a: Seq<T>, n: nat, v: nat, li: int, ri: int)
    requires
        n >= 1,
        a.len() == 2 * n,
        wf_nodes(a, n),
        node(clog2(n), v),
        v < 2 * n,
        0 <= li <= ri <= n,
        vl(clog2(n), v) == vpos(n, li),
        vr(clog2(n), v) == vpos(n, ri),
    ensures
        a[v as int] == fold(elems_of(a, n), li, ri),
    decreases 2 * n - v,
{
    let k = clog2(n);
    lemma_clog2(n);
    lemma_window_bounds(k, v);
    if v >= n {
        lemma_unslot(n, v);
        let i: int = if v >= pow2(k) {
            v - pow2(k)
        } else {
            v + n - pow2(k)
        };
        lemma_slot(n, i);
        lemma_vpos_reflect(n, li, i);
        lemma_vpos_reflect(n, i, li);
        lemma_vpos_reflect(n, ri, i + 1);
        lemma_vpos_reflect(n, i + 1, ri);
        lemma_fold_one(elems_of(a, n), i);
    } else {
        lemma_lg_bounds(v);
        if crate::layout::lg(v) >= k {
            crate::layout::lemma_pow2_le(k, crate::layout::lg(v));
            assert(false);
        }
        crate::layout::lemma_child(k, v);
        lemma_window_bounds(k, 2 * v);
        lemma_window_bounds(k, 2 * v + 1);
        lemma_node_image(n, 2 * v);
        let mi = ivp(n, vr(k, 2 * v));
        lemma_vpos_reflect(n, li, mi);
        lemma_vpos_reflect(n, mi, ri);
        lemma_node_fold(a, n, 2 * v, li, mi);
        lemma_node_fold(a, n, 2 * v + 1, mi, ri);
        lemma_fold_split(elems_of(a, n), li, mi, ri);
    }
}

/// The plain engine over an arbitrary monoid.
pub struct SegTree<T: Monoid> {
    a: Vec<T>,
}

impl<T: Monoid> SegTree<T> {
    /// The number of logical elements.
    pub closed spec fn spec_n(&self) -> nat {
        (self.a@.len() / 2) as nat
    }

    /// The structural invariant: array of size `2N` with every internal
    /// node caching the combine of its children.
    pub closed spec fn wf(&self) -> bool {
        self.a@.len() == 2 * self.spec_n() && wf_nodes(self.a@, self.spec_n())
    }

    /// The logical element sequence the tree currently represents.
    pub closed spec fn elems(&self) -> Seq<T> {
        elems_of(self.a@, self.spec_n())
    }

    /// The element view always has exactly `spec_n()` entries.
    pub proof fn lemma_elems_len(&self)
        ensures
            self.elems().len() == self.spec_n(),
    {
    }

    /// Builds a tree of `n` elements, each the monoid identity.
    pub fn new(n: usize) -> (r: Self)
        requires
            n <= usize::MAX / 2,
        ensures
            r.wf(),
            r.spec_n() == n,
            r.elems() == Seq::new(n as nat, |i: int| T::spec_id()),
    {
        let mut a: Vec<T> = Vec::new();
        let mut j: usize = 0;
        while j < 2 * n
            invariant
                n <= usize::MAX / 2,
                j <= 2 * n,
                a@.len() == j,
                forall|t: int| 0 <= t < j ==> a@[t] == T::spec_id(),
            decreases 2 * n - j,
        {
            a.push(T::id());
            j += 1;
        }
        let r = SegTree { a };
        proof {
            T::id_right(T::spec_id());
            assert forall|i: int| 0 <= i < n implies r.elems()[i] == T::spec_id() by {
                lemma_slot(n as nat, i);
            }
            assert(r.elems() =~= Seq::new(n as nat, |i: int| T::spec_id()));
        }
        r
    }

    /// Builds a tree holding the given initial values, computing every
    /// internal aggregate bottom-up once.
    pub fn from_vec(src: Vec<T>) -> (r: Self)
        requires
            src@.len() <= usize::MAX / 2,
        ensures
            r.wf(),
            r.spec_n() == src@.len(),
            r.elems() == src@,
    {
        let n = src.len();
        if n == 0 {
            let r = SegTree { a: Vec::new() };
            proof {
                assert(r.elems() =~= src@);
            }
            return r;
        }
        let p = next_pow2(n);
        let mut buf: Vec<T> = Vec::new();
        let mut j: usize = 0;
        while j < 2 * n
            invariant
                n <= usize::MAX / 2,
                j <= 2 * n,
                buf@.len() == j,
            decreases 2 * n - j,
        {
            buf.push(T::id());
            j += 1;
        }
        let mut i: usize = 0;
        while i < n
            invariant
                i <= n,
                1 <= n <= usize::MAX / 2,
                buf@.len() == 2 * n,
                src@.len() == n,
                p == pow2(clog2(n as nat)),
                forall|t: int| 0 <= t < i ==> buf@[spec_slot(n as nat, t) as int] == src@[t],
            decreases n - i,
        {
            let s = slot_index(n, p, i);
            buf[s] = src[i];
            proof {
                lemma_slot(n as nat, i as int);
                assert forall|t: int| 0 <= t < i implies buf@[spec_slot(n as nat, t) as int]
                    == src@[t] by {
                    lemma_slot(n as nat, t);
                    lemma_vpos_mono(n as nat, t, i as int);
                }
            }
            i += 1;
        }
        let mut v: usize = n;
        while v > 1
            invariant
                1 <= v <= n,
                n <= usize::MAX / 2,
                buf@.len() == 2 * n,
                src@.len() == n,
                forall|t: int| 0 <= t < n ==> buf@[spec_slot(n as nat, t) as int] == src@[t],
                forall|u: int|
                    v <= u < n ==> #[trigger] buf@[u] == T::spec_op(buf@[2 * u], buf@[2 * u + 1]),
            decreases v,
        {
            v -= 1;
            let combined = buf[2 * v].op(&buf[2 * v + 1]);
            buf[v] = combined;
            proof {
                assert forall|t: int| 0 <= t < n implies buf@[spec_slot(n as nat, t) as int]
                    == src@[t] by {
                    lemma_slot(n as nat, t);
                }
            }
        }
        let r = SegTree { a: buf };
        proof {
            assert(r.elems() =~= src@);
        }
        r
    }

    /// The number of elements.
    pub fn len(&self) -> (r: usize)
        ensures
            r == self.spec_n(),
    {
        self.a.len() / 2
    }

    /// Reads one logical element.
    pub fn get(&self, i: usize) -> (r: T)
        requires
            self.wf(),
            i < self.spec_n(),
        ensures
            r == self.elems()[i as int],
    {
        let n = self.a.len() / 2;
        let p = next_pow2(n);
        let s = slot_index(n, p, i);
        proof {
            lemma_slot(n as nat, i as int);
        }
        self.a[s]
    }

    /// The logical elements as a plain vector, for inspection.
    pub fn to_vec(&self) -> (r: Vec<T>)
        requires
            self.wf(),
        ensures
            r@ == self.elems(),
    {
        let n = self.a.len() / 2;
        let mut out: Vec<T> = Vec::new();
        let mut i: usize = 0;
        while i < n
            invariant
                i <= n,
                out@.len() == i,
                self.wf(),
                n == self.spec_n(),
                forall|t: int| 0 <= t < i ==> out@[t] == self.elems()[t],
            decreases n - i,
        {
            let x = self.get(i);
            out.push(x);
            i += 1;
        }
        proof {
            assert(out@ =~= self.elems());
        }
        out
    }

    /// Writes `x` at position `i`, recomputing every ancestor aggregate,
    /// and returns the value previously stored there.
    pub fn set(&mut self, i: usize, x: T) -> (prev: T)
        requires
            old(self).wf(),
            i < old(self).spec_n(),
        ensures
            final(self).wf(),
            final(self).spec_n() == old(self).spec_n(),
            final(self).elems() == old(self).elems().update(i as int, x),
            prev == old(self).elems()[i as int],
    {
        let n = self.a.len() / 2;
        let p = next_pow2(n);
        let s = slot_index(n, p, i);
        proof {
            lemma_slot(n as nat, i as int);
        }
        let prev = self.a[s];
        self.a[s] = x;
        let mut v: usize = s / 2;
        proof {
            assert forall|t: int| 0 <= t < n implies self.a@[spec_slot(n as nat, t) as int] == (
            if t == i {
                x
            } else {
                old(self).elems()[t]
            }) by {
                lemma_slot(n as nat, t);
                if t < i {
                    lemma_vpos_mono(n as nat, t, i as int);
                } else if t > i {
                    lemma_vpos_mono(n as nat, i as int, t);
                }
            }
        }
        while v >= 1
            invariant
                v < n,
                1 <= n <= usize::MAX / 2,
                n == old(self).spec_n(),
                self.a@.len() == 2 * n,
                forall|t: int|
                    0 <= t < n ==> self.a@[spec_slot(n as nat, t) as int] == (if t == i {
                        x
                    } else {
                        old(self).elems()[t]
                    }),
                forall|u: int|
                    1 <= u < n && !in_chain(v as nat, u as nat) ==> #[trigger] self.a@[u]
                        == T::spec_op(self.a@[2 * u], self.a@[2 * u + 1]),
            decreases v,
        {
            let lval = self.a[2 * v];
            let rval = self.a[2 * v + 1];
            let combined = lval.op(&rval);
            self.a[v] = combined;
            proof {
                assert forall|t: int| 0 <= t < n implies self.a@[spec_slot(n as nat, t) as int]
                    == (if t == i {
                    x
                } else {
                    old(self).elems()[t]
                }) by {
                    lemma_slot(n as nat, t);
                }
                assert forall|u: int|
                    1 <= u < n && !in_chain((v / 2) as nat, u as nat) implies #[trigger] self.a@[u]
                    == T::spec_op(self.a@[2 * u], self.a@[2 * u + 1]) by {
                    lemma_chain_le(v as nat, u as nat);
                    lemma_chain_le((v / 2) as nat, u as nat);
                }
            }
            v = v / 2;
        }
        proof {
            assert(self.elems() =~= old(self).elems().update(i as int, x));
        }
        prev
    }

    /// The aggregate of the half-open range `[l, r)`: the fold of the
    /// elements in that range under the combine, left to right. The empty
    /// range yields the identity.
    pub fn prod(&self, l: usize, r: usize) -> (res: T)
        requires
            self.wf(),
            l <= r <= self.spec_n(),
        ensures
            res == fold(self.elems(), l as int, r as int),
    {
        if l == r {
            return T::id();
        }
        let n = self.a.len() / 2;
        let ghost gn = n as nat;
        let ghost k = clog2(gn);
        let p = next_pow2(n);
        let lv0 = slot_index(n, p, l);
        let rv0 = slot_index(n, p, r);
        let mut lv = strip_index(lv0);
        let mut rv = strip_index(rv0);
        proof {
            lemma_clog2(gn);
            lemma_vpos_basics(gn);
            lemma_slot(gn, l as int);
            lemma_strip_window(k, lv0 as nat);
            if r < n {
                lemma_slot(gn, r as int);
                lemma_strip_window(k, rv0 as nat);
            } else {
                lemma_strip_pow2(k);
            }
        }
        let ghost mut gl: int = l as int;
        let ghost mut gr: int = r as int;
        if lv == rv {
            proof {
                if r < n {
                    lemma_vpos_reflect(gn, l as int, r as int);
                    lemma_vpos_reflect(gn, r as int, l as int);
                } else {
                    lemma_root(gn);
                    lemma_vpos_reflect(gn, l as int, 0);
                    lemma_vpos_reflect(gn, 0, l as int);
                    lemma_node_fold(self.a@, gn, 1, 0, n as int);
                    T::id_right(fold(self.elems(), 0, n as int));
                }
            }
            return self.a[1].op(&T::id());
        }
        let mut x = T::id();
        let mut y = T::id();
        while lv != rv
            invariant
                self.wf(),
                gn == self.spec_n(),
                1 <= gn,
                k == clog2(gn),
                self.a@.len() == 2 * gn,
                gn <= usize::MAX / 2,
                node(k, lv as nat),
                node(k, rv as nat),
                lv % 2 == 1,
                rv % 2 == 1,
                lv < 2 * gn,
                rv < 2 * gn,
                l as int <= gl <= gr <= r as int,
                r <= gn,
                x == fold(self.elems(), l as int, gl),
                y == fold(self.elems(), gr, r as int),
                vl(k, lv as nat) == vpos(gn, gl) || (lv == 1 && gl == gn),
                vl(k, rv as nat) == vpos(gn, gr) || (rv == 1 && gr == gn && r == gn),
                (rv == 1 && gr == gn && lv == 1) ==> gl == gn,
            decreases gr - gl,
        {
            if lv >= rv {
                proof {
                    lemma_window_bounds(k, lv as nat);
                    lemma_window_bounds(k, rv as nat);
                    lemma_vpos_basics(gn);
                    if lv == 1 && gl == gn {
                        assert(false);
                    }
                    if !(rv == 1 && gr == gn) {
                        lemma_left_safe(k, lv as nat, rv as nat);
                    }
                    lemma_node_image(gn, lv as nat);
                }
                let ghost gm = ivp(gn, vr(k, lv as nat));
                proof {
                    lemma_vpos_reflect(gn, gl, gm);
                    if !(rv == 1 && gr == gn) {
                        lemma_vpos_reflect(gn, gm, gr);
                    }
                    lemma_node_fold(self.a@, gn, lv as nat, gl, gm);
                    lemma_fold_split(self.elems(), l as int, gl, gm);
                }
                x = x.op(&self.a[lv]);
                let lnext = lv + 1;
                proof {
                    lemma_lg_succ(lv as nat);
                    lemma_vr_end(k, lv as nat);
                    if lnext == pow2(crate::layout::lg(lv as nat) + 1) {
                        lemma_strip_pow2(crate::layout::lg(lv as nat) + 1);
                        lemma_vpos_reflect(gn, gm, gn as int);
                        lemma_vpos_reflect(gn, gn as int, gm);
                    } else {
                        lemma_adjacent(k, lv as nat);
                        lemma_strip_window(k, (lv + 1) as nat);
                        crate::layout::lemma_strip_basics((lv + 1) as nat);
                    }
                }
                lv = strip_index(lnext);
                proof {
                    gl = gm;
                }
            } else {
                proof {
                    lemma_window_bounds(k, lv as nat);
                    lemma_window_bounds(k, rv as nat);
                    lemma_vpos_basics(gn);
                    if lv == 1 && gl == gn {
                        assert(false);
                    }
                    if gl < gr {
                        lemma_vpos_mono(gn, gl, gr);
                    }
                    lemma_right_safe(k, lv as nat, rv as nat);
                    lemma_node_image(gn, (rv - 1) as nat);
                    lemma_window_bounds(k, (rv - 1) as nat);
                }
                let ghost gm = ivp(gn, vl(k, (rv - 1) as nat));
                proof {
                    lemma_vpos_reflect(gn, gl, gm);
                    lemma_vpos_reflect(gn, gm, gr);
                    lemma_node_fold(self.a@, gn, (rv - 1) as nat, gm, gr);
                    lemma_fold_split(self.elems(), gm, gr, r as int);
                }
                y = self.a[rv - 1].op(&y);
                let rprev = rv - 1;
                proof {
                    lemma_strip_window(k, rprev as nat);
                    crate::layout::lemma_strip_basics(rprev as nat);
                }
                rv = strip_index(rprev);
                proof {
                    gr = gm;
                }
            }
        }
        proof {
            if lv == 1 && gl == gn {
                assert(gr == gn);
            } else if rv == 1 && gr == gn {
                assert(gl == gn);
            } else {
                lemma_vpos_reflect(gn, gl, gr);
                lemma_vpos_reflect(gn, gr, gl);
            }
            lemma_fold_split(self.elems(), l as int, gl, r as int);
        }
        x.op(&y)
    }

    /// Walks right from `l` while `f` keeps accepting the accumulated
    /// aggregate. Returns a boundary `res.0` together with `prod(l, res.0)`:
    /// `f` accepted that aggregate (unless the range stayed empty), and
    /// extending it by one more element was rejected (unless the walk
    /// reached the end). For a monotonic predicate this pins the unique
    /// largest boundary.
    pub fn max_right<F: Fn(T) -> bool>(&self, l: usize, f: F) -> (res: (usize, T))
        requires
            self.wf(),
            l <= self.spec_n(),
            forall|t: T| call_requires(f, (t,)),
        ensures
            l <= res.0 <= self.spec_n(),
            res.1 == fold(self.elems(), l as int, res.0 as int),
            res.0 < self.spec_n() ==> call_ensures(
                f,
                (fold(self.elems(), l as int, res.0 + 1),),
                false,
            ),
            res.0 > l ==> call_ensures(f, (res.1,), true),
    {
        let n = self.a.len() / 2;
        let ghost gn = n as nat;
        let ghost k = clog2(gn);
        if l == n {
            return (l, T::id());
        }
        let p = next_pow2(n);
        let r0 = slot_index(n, p, l);
        let mut r = strip_index(r0);
        proof {
            lemma_clog2(gn);
            lemma_vpos_basics(gn);
            lemma_slot(gn, l as int);
            lemma_strip_window(k, r0 as nat);
        }
        let mut acc = T::id();
        let ghost mut gb: int = l as int;
        loop
            invariant
                self.wf(),
                gn == self.spec_n(),
                k == clog2(gn),
                self.a@.len() == 2 * gn,
                1 <= gn <= usize::MAX / 2,
                n == gn,
                p == pow2(k),
                l < gn,
                forall|t: T| call_requires(f, (t,)),
                node(k, r as nat),
                1 <= r < 2 * gn,
                l as int <= gb <= gn,
                vl(k, r as nat) == vpos(gn, gb),
                acc == fold(self.elems(), l as int, gb),
                gb > l ==> call_ensures(f, (acc,), true),
            decreases gn - gb, crate::layout::ht(k, r as nat),
        {
            proof {
                lemma_window_bounds(k, r as nat);
                lemma_node_image(gn, r as nat);
            }
            let ghost gm = ivp(gn, vr(k, r as nat));
            proof {
                lemma_vpos_reflect(gn, gb, gm);
                lemma_node_fold(self.a@, gn, r as nat, gb, gm);
                lemma_fold_split(self.elems(), l as int, gb, gm);
            }
            let cand = acc.op(&self.a[r]);
            if f(cand) {
                acc = cand;
                proof {
                    gb = gm;
                }
                r = r + 1;
                let rs = strip_index(r);
                proof {
                    lemma_lg_succ((r - 1) as nat);
                    lemma_lg_bounds((r - 1) as nat);
                    lemma_vr_end(k, (r - 1) as nat);
                    lemma_vpos_basics(gn);
                    if rs == 1 {
                        crate::layout::lemma_strip_one(r as nat);
                        lemma_vpos_reflect(gn, gm, gn as int);
                        lemma_vpos_reflect(gn, gn as int, gm);
                    }
                }
                if rs == 1 {
                    return (n, acc);
                }
                proof {
                    if r as nat == pow2(crate::layout::lg((r - 1) as nat) + 1) {
                        lemma_strip_pow2(crate::layout::lg((r - 1) as nat) + 1);
                        assert(false);
                    }
                    lemma_adjacent(k, (r - 1) as nat);
                    lemma_strip_window(k, r as nat);
                    crate::layout::lemma_strip_basics(r as nat);
                    lemma_window_bounds(k, strip(r as nat));
                    lemma_vpos_reflect(gn, gm, gn as int);
                }
                r = rs;
            } else {
                if r >= n {
                    proof {
                        lemma_unslot(gn, r as nat);
                        if r >= pow2(k) {
                            lemma_slot(gn, r - pow2(k));
                            lemma_vpos_reflect(gn, gb, r - pow2(k));
                            lemma_vpos_reflect(gn, r - pow2(k), gb);
                            lemma_vpos_reflect(gn, gm, r - pow2(k) + 1);
                            lemma_vpos_reflect(gn, r - pow2(k) + 1, gm);
                        } else {
                            lemma_slot(gn, r + gn - pow2(k));
                            lemma_vpos_reflect(gn, gb, r + gn - pow2(k));
                            lemma_vpos_reflect(gn, r + gn - pow2(k), gb);
                            lemma_vpos_reflect(gn, gm, r + gn - pow2(k) + 1);
                            lemma_vpos_reflect(gn, r + gn - pow2(k) + 1, gm);
                        }
                    }
                    let idx = if r >= p {
                        r - p
                    } else {
                        r - (p - n)
                    };
                    return (idx, acc);
                }
                proof {
                    lemma_clog2(gn);
                    if crate::layout::lg(r as nat) >= k {
                        crate::layout::lemma_pow2_le(k, crate::layout::lg(r as nat));
                        lemma_lg_bounds(r as nat);
                        assert(false);
                    }
                    crate::layout::lemma_child(k, r as nat);
                }
                r = 2 * r;
            }
        }
    }

    /// The mirror of `max_right`: walks left from `r` while `f` keeps
    /// accepting the aggregate accumulated leftward. Returns a boundary
    /// `res.0` together with `prod(res.0, r)`.
    pub fn min_left<F: Fn(T) -> bool>(&self, r: usize, f: F) -> (res: (usize, T))
        requires
            self.wf(),
            r <= self.spec_n(),
            forall|t: T| call_requires(f, (t,)),
        ensures
            res.0 <= r,
            res.1 == fold(self.elems(), res.0 as int, r as int),
            res.0 > 0 ==> call_ensures(
                f,
                (fold(self.elems(), res.0 - 1, r as int),),
                false,
            ),
            res.0 < r ==> call_ensures(f, (res.1,), true),
    {
        let n = self.a.len() / 2;
        let ghost gn = n as nat;
        let ghost k = clog2(gn);
        if r == 0 {
            return (0, T::id());
        }
        let p = next_pow2(n);
        let l0 = slot_index(n, p, r);
        let s0 = strip_index(l0);
        proof {
            lemma_clog2(gn);
            lemma_vpos_basics(gn);
            if r < n {
                lemma_slot(gn, r as int);
                lemma_lg_bounds(l0 as nat);
                if l0 as nat == pow2(k) {
                    crate::layout::lemma_vl_zero(k, k);
                    lemma_vpos_reflect(gn, r as int, 0);
                    lemma_vpos_reflect(gn, 0, r as int);
                    assert(false);
                }
                vstd::arithmetic::power2::lemma2_to64();
                if l0 > pow2(k) {
                    vstd::arithmetic::power2::lemma_pow2_adds(1, k);
                    crate::layout::lemma_lg_eq(l0 as nat, k);
                    crate::layout::lemma_lg_eq((l0 - 1) as nat, k);
                } else {
                    if k == 0 {
                        assert(pow2(0) == 1);
                        assert(false);
                    }
                    vstd::arithmetic::power2::lemma_pow2_adds(1, (k - 1) as nat);
                    crate::layout::lemma_lg_eq(l0 as nat, (k - 1) as nat);
                    crate::layout::lemma_lg_eq((l0 - 1) as nat, (k - 1) as nat);
                }
                lemma_adjacent(k, (l0 - 1) as nat);
                crate::layout::lemma_strip_prev(k, l0 as nat);
                if s0 == 1 {
                    lemma_vpos_reflect(gn, r as int, gn as int);
                    lemma_vpos_reflect(gn, gn as int, r as int);
                    assert(false);
                }
            } else {
                lemma_strip_pow2(k);
                lemma_root(gn);
            }
        }
        let mut lcur = if s0 < 2 {
            2
        } else {
            s0
        };
        let mut acc = T::id();
        let ghost mut gb: int = r as int;
        loop
            invariant
                self.wf(),
                gn == self.spec_n(),
                k == clog2(gn),
                self.a@.len() == 2 * gn,
                1 <= gn <= usize::MAX / 2,
                n == gn,
                p == pow2(k),
                1 <= r <= gn,
                forall|t: T| call_requires(f, (t,)),
                node(k, (lcur - 1) as nat),
                2 <= lcur <= 2 * gn,
                0 <= gb <= r,
                vr(k, (lcur - 1) as nat) == vpos(gn, gb),
                acc == fold(self.elems(), gb, r as int),
                gb < r ==> call_ensures(f, (acc,), true),
            decreases gb, crate::layout::ht(k, (lcur - 1) as nat),
        {
            proof {
                lemma_window_bounds(k, (lcur - 1) as nat);
                lemma_node_image(gn, (lcur - 1) as nat);
            }
            let ghost gm = ivp(gn, vl(k, (lcur - 1) as nat));
            proof {
                lemma_vpos_reflect(gn, gm, gb);
                lemma_node_fold(self.a@, gn, (lcur - 1) as nat, gm, gb);
                lemma_fold_split(self.elems(), gm, gb, r as int);
            }
            let cand = self.a[lcur - 1].op(&acc);
            if f(cand) {
                acc = cand;
                let m = lcur - 1;
                proof {
                    gb = gm;
                }
                let s2 = strip_index(m);
                proof {
                    if s2 == 1 {
                        crate::layout::lemma_strip_one(m as nat);
                        crate::layout::lemma_vl_zero(k, crate::layout::lg(m as nat));
                        lemma_vpos_reflect(gn, gm, 0);
                        lemma_vpos_reflect(gn, 0, gm);
                    } else {
                        if m as nat == pow2(crate::layout::lg(m as nat)) {
                            lemma_strip_pow2(crate::layout::lg(m as nat));
                            assert(false);
                        }
                        lemma_lg_bounds(m as nat);
                        crate::layout::lemma_lg_eq((m - 1) as nat, crate::layout::lg(m as nat));
                        lemma_adjacent(k, (m - 1) as nat);
                        crate::layout::lemma_strip_prev(k, m as nat);
                        crate::layout::lemma_strip_basics(m as nat);
                    }
                }
                if s2 == 1 {
                    return (0, acc);
                }
                lcur = s2;
            } else {
                if lcur > n {
                    proof {
                        lemma_unslot(gn, (lcur - 1) as nat);
                        if lcur - 1 >= pow2(k) {
                            lemma_slot(gn, lcur - 1 - pow2(k));
                            lemma_vpos_reflect(gn, gb, lcur - pow2(k));
                            lemma_vpos_reflect(gn, lcur - pow2(k), gb);
                            lemma_vpos_reflect(gn, gm, lcur - 1 - pow2(k));
                            lemma_vpos_reflect(gn, lcur - 1 - pow2(k), gm);
                        } else {
                            lemma_slot(gn, lcur - 1 + gn - pow2(k));
                            lemma_vpos_reflect(gn, gb, lcur + gn - pow2(k));
                            lemma_vpos_reflect(gn, lcur + gn - pow2(k), gb);
                            lemma_vpos_reflect(gn, gm, lcur - 1 + gn - pow2(k));
                            lemma_vpos_reflect(gn, lcur - 1 + gn - pow2(k), gm);
                        }
                    }
                    let m = lcur - 1;
                    let idx = if m >= p {
                        m - p + 1
                    } else {
                        m - (p - n) + 1
                    };
                    return (idx, acc);
                }
                proof {
                    lemma_clog2(gn);
                    if crate::layout::lg((lcur - 1) as nat) >= k {
                        crate::layout::lemma_pow2_le(k, crate::layout::lg((lcur - 1) as nat));
                        lemma_lg_bounds((lcur - 1) as nat);
                        assert(false);
                    }
                    crate::layout::lemma_child(k, (lcur - 1) as nat);
                }
                lcur = 2 * lcur;
            }
        }
    }

    /// The aggregate of the whole element sequence.
    pub fn prod_all(&self) -> (res: T)
        requires
            self.wf(),
        ensures
            res == fold(self.elems(), 0, self.spec_n() as int),
    {
        let n = self.a.len() / 2;
        self.prod(0, n)
    }

    /// Dismantles the tree into its backing node array.
    pub(crate) fn into_inner(self) -> (r: Vec<T>)
        requires
            self.wf(),
        ensures
            r@.len() == 2 * self.spec_n(),
            wf_nodes(r@, self.spec_n()),
            elems_of(r@, self.spec_n()) == self.elems(),
    {
        self.a
    }
}

/// Law: for a predicate that is monotone over growing prefixes — once it
/// fails on some aggregate it fails on every longer one — the boundary
/// reported by the rightward search is the unique largest: the predicate
/// fails on the fold of every strictly longer range.
pub proof fn lemma_max_right_unique<T: Monoid>(
    s: Seq<T>,
    p: spec_fn(T) -> bool,
    l: int,
    r: int,
    r2: int,
)
    requires
        0 <= l <= r <= s.len(),
        forall|x: int, y: int|
            l <= x <= y <= s.len() && #[trigger] p(fold(s, l, y)) ==> #[trigger] p(fold(s, l, x)),
        r < s.len() ==> !p(fold(s, l, r + 1)),
        r < r2 <= s.len(),
    ensures
        !p(fold(s, l, r2)),
{
    if p(fold(s, l, r2)) {
        assert(p(fold(s, l, r + 1)));
    }
}

/// Law: the mirror for the leftward search — once the predicate fails on
/// some suffix aggregate it fails on every longer one, so the reported
/// boundary is the unique smallest.
pub proof fn lemma_min_left_unique<T: Monoid>(
    s: Seq<T>,
    p: spec_fn(T) -> bool,
    r: int,
    l: int,
    l2: int,
)
    requires
        0 <= l <= r <= s.len(),
        forall|x: int, y: int|
            0 <= x <= y <= r && #[trigger] p(fold(s, x, r)) ==> #[trigger] p(fold(s, y, r)),
        l > 0 ==> !p(fold(s, l - 1, r)),
        0 <= l2 < l,
    ensures
        !p(fold(s, l2, r)),
{
    if p(fold(s, l2, r)) {
        assert(p(fold(s, l - 1, r)));
    }
}

/// Whether `u` lies on the halving chain from `v` to the root (inclusive).
pub open spec fn in_chain(v: nat, u: nat) -> bool
    decreases v,
{
    if v == 0 {
        u == 0
    } else {
        u == v || in_chain(v / 2, u)
    }
}

/// Chain membership bounds the member: everything on `v`'s chain is at most
/// `v`, and the chain of `v / 2` is the chain of `v` without `v` itself.
pub proof fn lemma_chain_le(v: nat, u: nat)
    ensures
        in_chain(v, u) ==> u <= v,
        v >= 1 && u != v ==> (in_chain(v, u) <==> in_chain(v / 2, u)),
    decreases v,
{
    if v >= 1 {
        lemma_chain_le(v / 2, u);
    }
}

/// Whether every positive member of `c1`'s chain also lies on `c2`'s chain.
pub open spec fn chain_sub(c1: nat, c2: nat) -> bool {
    forall|u: nat| 1 <= u && in_chain(c1, u) ==> in_chain(c2, u)
}

/// Chains are closed under taking parents.
pub proof fn lemma_chain_parent(v: nat, u: nat)
    requires
        in_chain(v, u),
        u >= 1,
    ensures
        in_chain(v, u / 2),
    decreases v,
{
    if v >= 1 && u != v {
        lemma_chain_parent(v / 2, u);
    }
    if v >= 1 && u == v {
        assert(in_chain(v / 2, v / 2));
    }
}

/// A chain that passes through `u` from below enters it through one of
/// `u`'s two children.
pub proof fn lemma_chain_through(v: nat, u: nat)
    requires
        in_chain(v, u),
        v != u,
        u >= 1,
    ensures
        in_chain(v, 2 * u) || in_chain(v, 2 * u + 1),
    decreases v,
{
    if v >= 1 {
        if v / 2 == u {
            assert(v == 2 * u || v == 2 * u + 1);
        } else {
            lemma_chain_through(v / 2, u);
        }
    }
}

/// Iterated halving lands on the chain.
pub proof fn lemma_div_chain(w: nat, d: nat)
    ensures
        in_chain(w, w / pow2(d)),
    decreases d,
{
    vstd::arithmetic::power2::lemma2_to64();
    if d == 0 {
        vstd::arithmetic::div_mod::lemma_fundamental_div_mod_converse(w as int, 1, w as int, 0);
    } else {
        lemma_div_chain(w / 2, (d - 1) as nat);
        vstd::arithmetic::power2::lemma_pow2_adds(1, (d - 1) as nat);
        vstd::arithmetic::power2::lemma_pow2_pos((d - 1) as nat);
        vstd::arithmetic::div_mod::lemma_div_denominator(w as int, 2, pow2((d - 1) as nat) as int);
        assert((w / 2) / pow2((d - 1) as nat) == w / pow2(d));
        if w >= 1 {
        } else {
            assert(w == 0);
        }
    }
}

/// A node's window sits inside the window of everything on its chain.
pub proof fn lemma_chain_window(k: nat, w: nat, u: nat)
    requires
        node(k, w),
        in_chain(w, u),
        u >= 1,
    ensures
        node(k, u),
        vl(k, u) <= vl(k, w),
        vr(k, w) <= vr(k, u),
    decreases w,
{
    if u != w {
        if w <= 1 {
            assert(in_chain(0, u) ==> u == 0);
            assert(false);
        }
        assert(crate::layout::lg(w) >= 1);
        crate::layout::lemma_anc_window(k, w, 1);
        assert(w / pow2(1) == w / 2) by {
            vstd::arithmetic::power2::lemma2_to64();
        }
        lemma_chain_window(k, w / 2, u);
    }
}

/// A leaf whose position lies in a node's window has that node on its
/// slot's chain.
pub proof fn lemma_window_chain(n: nat, v: nat, j: int)
    requires
        n >= 1,
        node(clog2(n), v),
        v < 2 * n,
        0 <= j < n,
        vl(clog2(n), v) <= vpos(n, j) < vr(clog2(n), v),
    ensures
        in_chain(spec_slot(n, j), v),
{
    let k = clog2(n);
    lemma_slot(n, j);
    let w = spec_slot(n, j);
    crate::layout::lemma_window_bounds(k, v);
    crate::layout::lemma_window_bounds(k, w);
    if crate::layout::lg(v) > crate::layout::lg(w) {
        crate::layout::lemma_same_pos(k, w, v, vpos(n, j));
        let d = (crate::layout::lg(v) - crate::layout::lg(w)) as nat;
        crate::layout::lemma_anc_window(k, v, d);
        crate::layout::lemma_lg_div(v, d);
        crate::layout::lemma_lg_bounds(v);
        crate::layout::lemma_lg_bounds(w);
        if d >= 1 {
            crate::layout::lemma_pow2_le(1, d);
            vstd::arithmetic::power2::lemma2_to64();
            assert(v / pow2(d) <= v / 2) by {
                vstd::arithmetic::div_mod::lemma_div_is_ordered_by_denominator(
                    v as int,
                    2,
                    pow2(d) as int,
                );
            }
            assert(false);
        }
    } else {
        crate::layout::lemma_same_pos(k, v, w, vpos(n, j));
        lemma_div_chain(w, (crate::layout::lg(w) - crate::layout::lg(v)) as nat);
    }
}

} // verus!
