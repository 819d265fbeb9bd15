//! The lazy range-aggregation engine: everything the plain engine offers
//! plus bulk tag application over a range, with deferred ("lazy") tags on
//! internal nodes. A node's cached value always reflects its own pending
//! tag; its children's cached values are stale by exactly that tag until it
//! is pushed down. Queries stay read-only by applying pending ancestor tags
//! to the values they read, without writing anything back.

use crate::algebra::{fold, lemma_fold_one, lemma_fold_split, Action, Monoid};
use crate::layout::{
    clog2, ivp, lemma_clog2, lemma_left_safe, lemma_lg_bounds, lemma_node_image, lemma_pow2_le,
    lemma_right_safe, lemma_root, lemma_slot, lemma_strip_pow2, lemma_strip_window, lemma_unslot,
    lemma_vpos_basics, lemma_vpos_mono, lemma_vpos_reflect, lg, next_pow2, node, slot_index,
    spec_slot, strip_index, vl, vpos, vr,
};
use crate::segtree::in_chain;
use vstd::arithmetic::power2::pow2;
use vstd::prelude::*;

verus! {

/// Applies the pending tags sitting on the halving chain from `p` up to the
/// root to `x`, deepest tag first. This is what a node's cached value is
/// missing relative to its true aggregate.
pub open spec fn chain_map<T: Monoid, A: Action<T>>(tag: Seq<A>, p: nat, x: T) -> T
    decreases p,
{
    if p < 1 {
        x
    } else {
        chain_map(tag, p / 2, A::spec_map(tag[p as int], x))
    }
}

/// The per-node shape invariant of the lazy engine: every internal node
/// caches its own pending tag applied to the combine of its children.
pub open spec fn wf_lazy<T: Monoid, A: Action<T>>(value: Seq<T>, tag: Seq<A>, n: nat) -> bool {
    forall|u: int|
        1 <= u < n ==> #[trigger] value[u] == A::spec_map(
            tag[u],
            T::spec_op(value[2 * u], value[2 * u + 1]),
        )
}

/// The logical element sequence: each leaf slot's value corrected by every
/// pending tag on its ancestor chain.
pub open spec fn lazy_elems<T: Monoid, A: Action<T>>(value: Seq<T>, tag: Seq<A>, n: nat) -> Seq<
    T,
> {
    Seq::new(
        n,
        |i: int| chain_map(tag, (spec_slot(n, i) / 2) as nat, value[spec_slot(n, i) as int]),
    )
}

/// Whether every pending tag on the chain from `c` to the root is the
/// identity.
pub open spec fn tags_clean<T: Monoid, A: Action<T>>(tag: Seq<A>, c: nat) -> bool {
    forall|u: nat| 1 <= u < tag.len() && in_chain(c, u) ==> tag[u as int] == A::spec_id()
}

/// A chain of identity tags corrects nothing.
pub proof fn lemma_chain_map_id<T: Monoid, A: Action<T>>(tag: Seq<A>, p: nat, x: T)
    requires
        tags_clean::<T, A>(tag, p),
        p < tag.len(),
    ensures
        chain_map(tag, p, x) == x,
    decreases p,
{
    if p >= 1 {
        assert(in_chain(p, p));
        A::id_map(x);
        assert forall|u: nat| 1 <= u < tag.len() && in_chain(p / 2, u) implies tag[u as int]
            == A::spec_id() by {
            assert(in_chain(p, u));
        }
        lemma_chain_map_id::<T, A>(tag, p / 2, x);
    }
}

/// Chain correction distributes over the combine.
pub proof fn lemma_chain_map_op<T: Monoid, A: Action<T>>(tag: Seq<A>, p: nat, x: T, y: T)
    ensures
        chain_map(tag, p, T::spec_op(x, y)) == T::spec_op(
            chain_map(tag, p, x),
            chain_map(tag, p, y),
        ),
    decreases p,
{
    if p >= 1 {
        A::map_distributes(tag[p as int], x, y);
        lemma_chain_map_op::<T, A>(tag, p / 2, A::spec_map(tag[p as int], x), A::spec_map(
            tag[p as int],
            y,
        ));
    }
}

/// Chain correction reads only the tags on the chain.
pub proof fn lemma_chain_map_same<T: Monoid, A: Action<T>>(tag1: Seq<A>, tag2: Seq<A>, p: nat, x: T)
    requires
        forall|u: nat| u >= 1 && in_chain(p, u) ==> tag1[u as int] == tag2[u as int],
    ensures
        chain_map(tag1, p, x) == chain_map(tag2, p, x),
    decreases p,
{
    if p >= 1 {
        assert(in_chain(p, p));
        assert forall|u: nat| u >= 1 && in_chain(p / 2, u) implies tag1[u as int] == tag2[
            u as int] by {
            assert(in_chain(p, u));
        }
        lemma_chain_map_same::<T, A>(tag1, tag2, p / 2, A::spec_map(tag1[p as int], x));
    }
}

/// Composing `m` onto the tag of a node `v` on the chain, while every strict
/// ancestor of `v` is clean, acts on the chain-corrected value as one
/// application of `m` on the outside.
pub proof fn lemma_chain_map_compose<T: Monoid, A: Action<T>>(
    tag1: Seq<A>,
    tag2: Seq<A>,
    m: A,
    v: nat,
    p: nat,
    x: T,
)
    requires
        1 <= v,
        in_chain(p, v),
        tag2 == tag1.update(v as int, A::spec_comp(m, tag1[v as int])),
        0 <= v < tag1.len(),
        p < tag1.len(),
        tags_clean::<T, A>(tag1, (v / 2) as nat),
    ensures
        chain_map(tag2, p, x) == A::spec_map(m, chain_map(tag1, p, x)),
    decreases p,
{
    crate::segtree::lemma_chain_le(p, v);
    if p == v {
        A::comp_map(m, tag1[v as int], x);
        assert forall|u: nat| 1 <= u < tag2.len() && in_chain((v / 2) as nat, u) implies tag2[
            u as int] == A::spec_id() by {
            crate::segtree::lemma_chain_le((v / 2) as nat, u);
        }
        lemma_chain_map_id::<T, A>(tag2, (v / 2) as nat, A::spec_map(
            m,
            A::spec_map(tag1[v as int], x),
        ));
        lemma_chain_map_id::<T, A>(tag1, (v / 2) as nat, A::spec_map(tag1[v as int], x));
    } else {
        lemma_chain_map_compose::<T, A>(tag1, tag2, m, v, p / 2, A::spec_map(tag1[p as int], x));
    }
}

/// Pushing one node's pending tag into its children leaves every leaf's
/// chain-corrected value unchanged, for any chain that passes through one
/// of the two children.
proof fn lemma_chain_prop<T: Monoid, A: Action<T>>(
    tag1: Seq<A>,
    tag2: Seq<A>,
    i: nat,
    p: nat,
    x: T,
)
    requires
        1 <= i,
        tag1.len() == tag2.len(),
        i < tag1.len(),
        p < tag1.len(),
        tag2[i as int] == A::spec_id(),
        forall|j: int|
            0 <= j < tag1.len() && j != i && j != 2 * i && j != 2 * i + 1 ==> tag2[j] == #[trigger] tag1[j],
        2 * i < tag1.len() ==> tag2[2 * i as int] == A::spec_comp(
            tag1[i as int],
            tag1[2 * i as int],
        ),
        2 * i + 1 < tag1.len() ==> tag2[2 * i + 1 as int] == A::spec_comp(
            tag1[i as int],
            tag1[2 * i + 1 as int],
        ),
        in_chain(p, 2 * i) || in_chain(p, 2 * i + 1),
    ensures
        chain_map(tag2, p, x) == chain_map(tag1, p, x),
    decreases p,
{
    crate::segtree::lemma_chain_le(p, 2 * i);
    crate::segtree::lemma_chain_le(p, 2 * i + 1);
    if p == 2 * i || p == 2 * i + 1 {
        assert(p / 2 == i);
        A::comp_map(tag1[i as int], tag1[p as int], x);
        A::id_map(A::spec_map(tag1[i as int], A::spec_map(tag1[p as int], x)));
        let y2 = A::spec_map(tag2[p as int], x);
        assert(chain_map(tag2, p, x) == chain_map(tag2, i, y2));
        assert(y2 == A::spec_map(tag1[i as int], A::spec_map(tag1[p as int], x)));
        assert(chain_map(tag2, i, y2) == chain_map(tag2, (i / 2) as nat, A::spec_map(
            tag2[i as int],
            y2,
        )));
        assert(A::spec_map(tag2[i as int], y2) == y2);
        assert(chain_map(tag1, p, x) == chain_map(tag1, i, A::spec_map(tag1[p as int], x)));
        assert(chain_map(tag1, i, A::spec_map(tag1[p as int], x)) == chain_map(
            tag1,
            (i / 2) as nat,
            y2,
        ));
        assert forall|u: nat| u >= 1 && in_chain((i / 2) as nat, u) implies tag1[u as int] == tag2[
            u as int] by {
            crate::segtree::lemma_chain_le((i / 2) as nat, u);
        }
        lemma_chain_map_same::<T, A>(
            tag1,
            tag2,
            (i / 2) as nat,
            A::spec_map(tag1[i as int], A::spec_map(tag1[p as int], x)),
        );
    } else {
        assert(p >= 1);
        lemma_chain_prop::<T, A>(tag1, tag2, i, p / 2, A::spec_map(tag1[p as int], x));
    }
}

/// Applying a tag to one fully covered node acts on exactly the logical
/// elements in its window, provided every strict ancestor of the node is
/// clean.
proof fn lemma_cover_elems<T: Monoid, A: Action<T>>(
    pre_v: Seq<T>,
    pre_t: Seq<A>,
    post_v: Seq<T>,
    post_t: Seq<A>,
    n: nat,
    m: A,
    v: nat,
    wl: int,
    wr: int,
)
    requires
        n >= 1,
        pre_v.len() == 2 * n,
        pre_t.len() == n,
        post_v == pre_v.update(v as int, A::spec_map(m, pre_v[v as int])),
        v < n ==> post_t == pre_t.update(v as int, A::spec_comp(m, pre_t[v as int])),
        v >= n ==> post_t == pre_t,
        node(clog2(n), v),
        1 <= v < 2 * n,
        0 <= wl <= wr <= n,
        vl(clog2(n), v) == vpos(n, wl),
        vr(clog2(n), v) == vpos(n, wr),
        tags_clean::<T, A>(pre_t, (v / 2) as nat),
    ensures
        lazy_elems(post_v, post_t, n) == Seq::new(
            n,
            |j: int|
                if wl <= j < wr {
                    A::spec_map(m, lazy_elems(pre_v, pre_t, n)[j])
                } else {
                    lazy_elems(pre_v, pre_t, n)[j]
                },
        ),
{
    let k = clog2(n);
    lemma_clog2(n);
    crate::layout::lemma_window_bounds(k, v);
    assert forall|j: int| 0 <= j < n implies lazy_elems(post_v, post_t, n)[j] == (if wl <= j < wr {
        A::spec_map(m, lazy_elems(pre_v, pre_t, n)[j])
    } else {
        lazy_elems(pre_v, pre_t, n)[j]
    }) by {
        lemma_slot(n, j);
        let sj = spec_slot(n, j);
        let sp = (sj / 2) as nat;
        if wl <= j < wr {
            if j > wl {
                lemma_vpos_mono(n, wl, j);
            }
            lemma_vpos_mono(n, j, wr);
            assert(vl(k, v) <= vpos(n, j) < vr(k, v));
            if v >= n {
                lemma_unslot(n, v);
                let iv: int = if v >= pow2(k) {
                    v - pow2(k)
                } else {
                    v + n - pow2(k)
                };
                lemma_slot(n, iv);
                lemma_vpos_reflect(n, wl, iv);
                lemma_vpos_reflect(n, iv, wl);
                lemma_vpos_reflect(n, wr, iv + 1);
                lemma_vpos_reflect(n, iv + 1, wr);
                assert(j == wl);
                assert(sj == v);
                lemma_chain_map_id::<T, A>(pre_t, sp, pre_v[sj as int]);
                lemma_chain_map_id::<T, A>(pre_t, sp, post_v[sj as int]);
            } else {
                crate::segtree::lemma_window_chain(n, v, j);
                crate::segtree::lemma_chain_le(sj, v);
                assert(in_chain(sp, v));
                lemma_chain_map_compose::<T, A>(pre_t, post_t, m, v, sp, pre_v[sj as int]);
            }
        } else {
            if j < wl {
                lemma_vpos_mono(n, j, wl);
            } else if j > wr {
                lemma_vpos_mono(n, wr, j);
            }
            assert(!(vl(k, v) <= vpos(n, j) < vr(k, v)));
            if in_chain(sj, v) {
                crate::segtree::lemma_chain_window(k, sj, v);
                assert(false);
            }
            assert(in_chain(sj, sj));
            assert(sj != v);
            if v < n {
                assert forall|u: nat| u >= 1 && in_chain(sp, u) implies pre_t[u as int] == post_t[
                    u as int] by {
                    crate::segtree::lemma_chain_le(sp, u);
                    crate::segtree::lemma_chain_le(sj, u);
                    assert(u <= sp);
                    if u == v {
                        assert(in_chain(sj, v));
                    }
                }
                lemma_chain_map_same::<T, A>(pre_t, post_t, sp, pre_v[sj as int]);
            }
        }
    }
    assert(lazy_elems(post_v, post_t, n) =~= Seq::new(
        n,
        |j: int|
            if wl <= j < wr {
                A::spec_map(m, lazy_elems(pre_v, pre_t, n)[j])
            } else {
                lazy_elems(pre_v, pre_t, n)[j]
            },
    ));
}

/// In a well-formed lazy tree, every node's chain-corrected cached value is
/// the fold of the logical range its window spans.
pub proof fn lemma_lazy_node_fold<T: Monoid, A: Action<T>>(
    value: Seq<T>,
    tag: Seq<A>,
    n: nat,
    v: nat,
    li: int,
    ri: int,
)
    requires
        n >= 1,
        value.len() == 2 * n,
        tag.len() == n,
        wf_lazy(value, tag, n),
        node(clog2(n), v),
        v < 2 * n,
        0 <= li <= ri <= n,
        vl(clog2(n), v) == vpos(n, li),
        vr(clog2(n), v) == vpos(n, ri),
    ensures
        chain_map(tag, (v / 2) as nat, value[v as int]) == fold(lazy_elems(value, tag, n), li, ri),
    decreases 2 * n - v,
{
    let k = clog2(n);
    let s = lazy_elems(value, tag, n);
    lemma_clog2(n);
    crate::layout::lemma_window_bounds(k, v);
    if v >= n {
        lemma_unslot(n, v);
        let i: int = if v >= pow2(k) {
            v - pow2(k)
        } else {
            v + n - pow2(k)
        };
        lemma_slot(n, i);
        lemma_vpos_reflect(n, li, i);
        lemma_vpos_reflect(n, i, li);
        lemma_vpos_reflect(n, ri, i + 1);
        lemma_vpos_reflect(n, i + 1, ri);
        lemma_fold_one(s, i);
    } else {
        lemma_lg_bounds(v);
        if lg(v) >= k {
            lemma_pow2_le(k, lg(v));
            assert(false);
        }
        crate::layout::lemma_child(k, v);
        crate::layout::lemma_window_bounds(k, 2 * v);
        crate::layout::lemma_window_bounds(k, 2 * v + 1);
        lemma_node_image(n, 2 * v);
        let mi = ivp(n, vr(k, 2 * v));
        lemma_vpos_reflect(n, li, mi);
        lemma_vpos_reflect(n, mi, ri);
        lemma_lazy_node_fold(value, tag, n, 2 * v, li, mi);
        lemma_lazy_node_fold(value, tag, n, 2 * v + 1, mi, ri);
        lemma_fold_split(s, li, mi, ri);
        assert(value[v as int] == A::spec_map(
            tag[v as int],
            T::spec_op(value[2 * v as int], value[2 * v as int + 1]),
        ));
        lemma_chain_map_op::<T, A>(tag, v, value[2 * v as int], value[2 * v as int + 1]);
        assert((2 * v) / 2 == v) by (nonlinear_arith);
        assert((2 * v + 1) / 2 == v);
    }
}

/// Law: applying the identity tag over any range is a no-op on the logical
/// elements, so every aggregate query before and after agrees.
pub proof fn lemma_apply_identity<T: Monoid, A: Action<T>>(elems: Seq<T>, l: int, r: int)
    requires
        0 <= l <= r <= elems.len(),
    ensures
        Seq::new(
            elems.len(),
            |j: int|
                if l <= j < r {
                    A::spec_map(A::spec_id(), elems[j])
                } else {
                    elems[j]
                },
        ) == elems,
{
    assert forall|j: int| 0 <= j < elems.len() implies Seq::new(
        elems.len(),
        |j2: int|
            if l <= j2 < r {
                A::spec_map(A::spec_id(), elems[j2])
            } else {
                elems[j2]
            },
    )[j] == elems[j] by {
        A::id_map(elems[j]);
    }
    assert(Seq::new(
        elems.len(),
        |j: int|
            if l <= j < r {
                A::spec_map(A::spec_id(), elems[j])
            } else {
                elems[j]
            },
    ) =~= elems);
}

/// Law: applying tag `a` over a range and then tag `b` over the same range
/// leaves the same elements as one application of the composite tag
/// `comp(b, a)` to the original values.
pub proof fn lemma_apply_compose<T: Monoid, A: Action<T>>(elems: Seq<T>, l: int, r: int, a: A, b: A)
    requires
        0 <= l <= r <= elems.len(),
    ensures
        Seq::new(
            elems.len(),
            |j: int|
                if l <= j < r {
                    A::spec_map(
                        b,
                        Seq::new(
                            elems.len(),
                            |j2: int|
                                if l <= j2 < r {
                                    A::spec_map(a, elems[j2])
                                } else {
                                    elems[j2]
                                },
                        )[j],
                    )
                } else {
                    Seq::new(
                        elems.len(),
                        |j2: int|
                            if l <= j2 < r {
                                A::spec_map(a, elems[j2])
                            } else {
                                elems[j2]
                            },
                    )[j]
                },
        ) == Seq::new(
            elems.len(),
            |j: int|
                if l <= j < r {
                    A::spec_map(A::spec_comp(b, a), elems[j])
                } else {
                    elems[j]
                },
        ),
{
    let once = Seq::new(
        elems.len(),
        |j: int|
            if l <= j < r {
                A::spec_map(A::spec_comp(b, a), elems[j])
            } else {
                elems[j]
            },
    );
    let first = Seq::new(
        elems.len(),
        |j2: int|
            if l <= j2 < r {
                A::spec_map(a, elems[j2])
            } else {
                elems[j2]
            },
    );
    let twice = Seq::new(
        elems.len(),
        |j: int|
            if l <= j < r {
                A::spec_map(b, first[j])
            } else {
                first[j]
            },
    );
    assert forall|j: int| 0 <= j < elems.len() implies twice[j] == once[j] by {
        if l <= j < r {
            A::comp_map(b, a, elems[j]);
        }
    }
    assert(twice =~= once);
}

/// The lazy engine over an arbitrary monoid and tag action.
pub struct LazySegTree<T: Monoid, A: Action<T>> {
    value: Vec<T>,
    tag: Vec<A>,
}

impl<T: Monoid, A: Action<T>> LazySegTree<T, A> {
    /// The number of logical elements.
    pub closed spec fn spec_n(&self) -> nat {
        (self.value@.len() / 2) as nat
    }

    /// The structural invariant.
    pub closed spec fn wf(&self) -> bool {
        self.value@.len() == 2 * self.spec_n() && self.tag@.len() == self.spec_n() && wf_lazy(
            self.value@,
            self.tag@,
            self.spec_n(),
        )
    }

    /// The logical element sequence the tree currently represents.
    pub closed spec fn elems(&self) -> Seq<T> {
        lazy_elems(self.value@, self.tag@, self.spec_n())
    }

    /// The element view always has exactly `spec_n()` entries.
    pub proof fn lemma_elems_len(&self)
        ensures
            self.elems().len() == self.spec_n(),
    {
    }

    /// Builds a tree of `n` elements, each the monoid identity, with all
    /// tags clean.
    pub fn new(n: usize) -> (r: Self)
        requires
            n <= usize::MAX / 2,
        ensures
            r.wf(),
            r.spec_n() == n,
            r.elems() == Seq::new(n as nat, |i: int| T::spec_id()),
    {
        let mut value: Vec<T> = Vec::new();
        let mut j: usize = 0;
        while j < 2 * n
            invariant
                n <= usize::MAX / 2,
                j <= 2 * n,
                value@.len() == j,
                forall|t: int| 0 <= t < j ==> value@[t] == T::spec_id(),
            decreases 2 * n - j,
        {
            value.push(T::id());
            j += 1;
        }
        let mut tag: Vec<A> = Vec::new();
        let mut j2: usize = 0;
        while j2 < n
            invariant
                n <= usize::MAX / 2,
                j2 <= n,
                tag@.len() == j2,
                forall|t: int| 0 <= t < j2 ==> tag@[t] == A::spec_id(),
            decreases n - j2,
        {
            tag.push(A::id());
            j2 += 1;
        }
        let r = LazySegTree { value, tag };
        proof {
            assert forall|u: int| 1 <= u < n implies #[trigger] r.value@[u] == A::spec_map(
                r.tag@[u],
                T::spec_op(r.value@[2 * u], r.value@[2 * u + 1]),
            ) by {
                T::id_right(T::spec_id());
                A::id_map(T::spec_id());
            }
            assert forall|i: int| 0 <= i < n implies r.elems()[i] == T::spec_id() by {
                lemma_slot(n as nat, i);
                lemma_slot(n as nat, i);
                assert(tags_clean::<T, A>(r.tag@, (spec_slot(n as nat, i) / 2) as nat));
                lemma_chain_map_id::<T, A>(
                    r.tag@,
                    (spec_slot(n as nat, i) / 2) as nat,
                    r.value@[spec_slot(n as nat, i) as int],
                );
            }
            assert(r.elems() =~= Seq::new(n as nat, |i: int| T::spec_id()));
        }
        r
    }

    /// Builds a tree holding the given initial values, with all tags clean.
    pub fn from_vec(src: Vec<T>) -> (r: Self)
        requires
            src@.len() <= usize::MAX / 2,
        ensures
            r.wf(),
            r.spec_n() == src@.len(),
            r.elems() == src@,
    {
        let n = src.len();
        let plain = crate::segtree::SegTree::from_vec(src);
        let ghost gelems = plain.elems();
        let value = plain.into_inner();
        let mut tag: Vec<A> = Vec::new();
        let mut j2: usize = 0;
        while j2 < n
            invariant
                j2 <= n,
                tag@.len() == j2,
                forall|t: int| 0 <= t < j2 ==> tag@[t] == A::spec_id(),
            decreases n - j2,
        {
            tag.push(A::id());
            j2 += 1;
        }
        let r = LazySegTree { value, tag };
        proof {
            assert forall|u: int| 1 <= u < n implies #[trigger] r.value@[u] == A::spec_map(
                r.tag@[u],
                T::spec_op(r.value@[2 * u], r.value@[2 * u + 1]),
            ) by {
                A::id_map(T::spec_op(r.value@[2 * u], r.value@[2 * u + 1]));
            }
            assert forall|i: int| 0 <= i < n implies r.elems()[i] == gelems[i] by {
                lemma_slot(n as nat, i);
                lemma_slot(n as nat, i);
                assert(tags_clean::<T, A>(r.tag@, (spec_slot(n as nat, i) / 2) as nat));
                lemma_chain_map_id::<T, A>(
                    r.tag@,
                    (spec_slot(n as nat, i) / 2) as nat,
                    r.value@[spec_slot(n as nat, i) as int],
                );
            }
            assert(r.elems() =~= gelems);
        }
        r
    }

    /// The number of elements.
    pub fn len(&self) -> (r: usize)
        ensures
            r == self.spec_n(),
    {
        self.value.len() / 2
    }

    /// Reads node `v`'s cached value with every pending ancestor tag
    /// applied on the fly: its true aggregate. Read-only.
    fn corrected(&self, v: usize) -> (r: T)
        requires
            self.wf(),
            1 <= v < 2 * self.spec_n(),
        ensures
            r == chain_map(self.tag@, (v / 2) as nat, self.value@[v as int]),
    {
        let mut x = self.value[v];
        let mut p = v / 2;
        while p >= 1
            invariant
                self.wf(),
                p < self.spec_n(),
                chain_map(self.tag@, p as nat, x) == chain_map(
                    self.tag@,
                    (v / 2) as nat,
                    self.value@[v as int],
                ),
            decreases p,
        {
            x = self.tag[p].map(&x);
            p = p / 2;
        }
        x
    }

    /// Pushes node `i`'s pending tag into its two children: applies it to
    /// their cached values, composes it into their pending tags, and resets
    /// `i`'s own tag to the identity. The logical elements are unchanged.
    fn propagate(&mut self, i: usize)
        requires
            old(self).wf(),
            1 <= i < old(self).spec_n(),
        ensures
            final(self).wf(),
            final(self).spec_n() == old(self).spec_n(),
            final(self).elems() == old(self).elems(),
            final(self).tag@[i as int] == A::spec_id(),
            forall|j: int|
                0 <= j < old(self).spec_n() && j != i && j != 2 * i && j != 2 * i + 1
                    ==> final(self).tag@[j] == #[trigger] old(self).tag@[j],
            forall|j: int|
                0 <= j < old(self).spec_n() && (j == 2 * i || j == 2 * i + 1) ==> final(self).tag@[j] == A::spec_comp(old(self).tag@[i as int], #[trigger] old(self).tag@[j]),
            forall|j: int|
                0 <= j < 2 * old(self).spec_n() && j != 2 * i && j != 2 * i + 1 ==> final(self).value@[j] == #[trigger] old(self).value@[j],
    {
        let n = self.value.len() / 2;
        let ghost gn = n as nat;
        let t = self.tag[i];
        let a0 = t.map(&self.value[2 * i]);
        self.value[2 * i] = a0;
        let a1 = t.map(&self.value[2 * i + 1]);
        self.value[2 * i + 1] = a1;
        if 2 * i < n {
            let c0 = t.comp(&self.tag[2 * i]);
            self.tag[2 * i] = c0;
        }
        if 2 * i + 1 < n {
            let c1 = t.comp(&self.tag[2 * i + 1]);
            self.tag[2 * i + 1] = c1;
        }
        self.tag[i] = A::id();
        proof {
            let v1 = old(self).value@;
            let v2 = self.value@;
            let g1 = old(self).tag@;
            let g2 = self.tag@;
            assert forall|u: int|
                1 <= u < gn implies #[trigger] v2[u] == A::spec_map(
                g2[u],
                T::spec_op(v2[2 * u], v2[2 * u + 1]),
            ) by {
                if u == i {
                    A::id_map(T::spec_op(v2[2 * i as int], v2[2 * i as int + 1]));
                    A::map_distributes(t, v1[2 * i as int], v1[2 * i as int + 1]);
                } else if u == 2 * i || u == 2 * i + 1 {
                    A::comp_map(t, g1[u], T::spec_op(v1[2 * u], v1[2 * u + 1]));
                }
            }
            assert forall|j: int| 0 <= j < gn implies self.elems()[j] == old(self).elems()[j] by {
                lemma_slot(gn, j);
                let s = spec_slot(gn, j);
                let sp = (s / 2) as nat;
                if s == 2 * i || s == 2 * i + 1 {
                    assert(s / 2 == i);
                    A::id_map(A::spec_map(t, v1[s as int]));
                    assert forall|u: nat|
                        u >= 1 && in_chain((i / 2) as nat, u) implies g1[u as int] == g2[
                        u as int] by {
                        crate::segtree::lemma_chain_le((i / 2) as nat, u);
                    }
                    lemma_chain_map_same::<T, A>(
                        g1,
                        g2,
                        (i / 2) as nat,
                        A::spec_map(t, v1[s as int]),
                    );
                } else if in_chain(sp, 2 * i as nat) || in_chain(sp, (2 * i + 1) as nat) {
                    lemma_chain_prop::<T, A>(g1, g2, i as nat, sp, v1[s as int]);
                } else {
                    if in_chain(sp, i as nat) {
                        crate::segtree::lemma_chain_through(sp, i as nat);
                    }
                    assert forall|u: nat| u >= 1 && in_chain(sp, u) implies g1[u as int] == g2[
                        u as int] by {
                        crate::segtree::lemma_chain_le(sp, u);
                    }
                    lemma_chain_map_same::<T, A>(g1, g2, sp, v1[s as int]);
                }
            }
            assert(self.elems() =~= old(self).elems());
        }
    }

    /// Pushes the pending tags of every strict ancestor of `v` down, from
    /// the root towards `v`, leaving that whole chain clean. A chain already
    /// known to be clean (the ghost `w`) stays clean.
    fn push_path(&mut self, v: usize, Ghost(w): Ghost<nat>)
        requires
            old(self).wf(),
            1 <= v < 2 * old(self).spec_n(),
            tags_clean::<T, A>(old(self).tag@, w),
        ensures
            final(self).wf(),
            final(self).spec_n() == old(self).spec_n(),
            final(self).elems() == old(self).elems(),
            tags_clean::<T, A>(final(self).tag@, w),
            tags_clean::<T, A>(final(self).tag@, (v / 2) as nat),
    {
        let n = self.value.len() / 2;
        let ghost gn = n as nat;
        let mut path: Vec<usize> = Vec::new();
        let mut a = v / 2;
        while a >= 1
            invariant
                a < gn,
                gn == self.spec_n(),
                v < 2 * gn,
                forall|t: int| 0 <= t < path@.len() ==> 1 <= #[trigger] path@[t] < gn,
                forall|t: int| 1 <= t < path@.len() ==> #[trigger] path@[t] == path@[t - 1] / 2,
                path@.len() == 0 ==> a == v / 2,
                path@.len() > 0 ==> path@[0] == v / 2 && a == path@[path@.len() - 1] / 2,
            decreases a,
        {
            path.push(a);
            a = a / 2;
        }
        let ghost path0 = path@;
        let mut idx = path.len();
        while idx > 0
            invariant
                gn == self.spec_n(),
                self.wf(),
                self.elems() == old(self).elems(),
                v < 2 * gn,
                idx <= path@.len(),
                path@ == path0,
                forall|t: int| 0 <= t < path@.len() ==> 1 <= #[trigger] path@[t] < gn,
                forall|t: int| 1 <= t < path@.len() ==> #[trigger] path@[t] == path@[t - 1] / 2,
                path@.len() == 0 ==> v / 2 == 0,
                path@.len() > 0 ==> path@[0] == v / 2 && path@[path@.len() - 1] / 2 == 0,
                tags_clean::<T, A>(self.tag@, w),
                idx < path@.len() ==> tags_clean::<T, A>(self.tag@, path@[idx as int] as nat),
            decreases idx,
        {
            idx -= 1;
            let node_i = path[idx];
            let ghost pre_tag = self.tag@;
            self.propagate(node_i);
            proof {
                let gi = node_i as nat;
                assert forall|u: nat|
                    1 <= u < gn && in_chain(w, u) implies self.tag@[u as int]
                    == A::spec_id() by {
                    if u == 2 * gi || u == 2 * gi + 1 {
                        crate::segtree::lemma_chain_parent(w, u);
                        assert(u / 2 == gi);
                        A::comp_id_left(pre_tag[u as int]);
                    }
                }
                assert(tags_clean::<T, A>(self.tag@, w));
                assert forall|u: nat|
                    1 <= u < gn && in_chain(path@[idx as int] as nat, u) implies self.tag@[
                    u as int] == A::spec_id() by {
                    crate::segtree::lemma_chain_le(gi, u);
                    if u != gi {
                        assert(in_chain((gi / 2) as nat, u));
                        if idx + 1 < path@.len() {
                            assert(path@[idx as int + 1] == gi / 2);
                        } else {
                            assert(gi / 2 == 0);
                            assert(u == 0);
                        }
                    }
                }
                assert(tags_clean::<T, A>(self.tag@, path@[idx as int] as nat));
            }
        }
        proof {
            if v / 2 >= 1 {
                assert(path0.len() > 0);
                assert(path0[0] == v / 2);
            } else {
                assert forall|u: nat|
                    1 <= u < self.tag@.len() && in_chain((v / 2) as nat, u) implies self.tag@[
                    u as int] == A::spec_id() by {
                    assert(u == 0);
                }
                assert(tags_clean::<T, A>(self.tag@, (v / 2) as nat));
            }
        }
    }

    /// Writes `x` at position `i`, after pushing every pending tag above
    /// that leaf down, and recomputes the ancestor aggregates. Returns the
    /// value previously stored there.
    pub fn set(&mut self, i: usize, x: T) -> (prev: T)
        requires
            old(self).wf(),
            i < old(self).spec_n(),
        ensures
            final(self).wf(),
            final(self).spec_n() == old(self).spec_n(),
            final(self).elems() == old(self).elems().update(i as int, x),
            prev == old(self).elems()[i as int],
    {
        let n = self.value.len() / 2;
        let ghost gn = n as nat;
        let p = next_pow2(n);
        let s = slot_index(n, p, i);
        proof {
            lemma_slot(gn, i as int);
        }
        proof {
            assert(tags_clean::<T, A>(self.tag@, 0nat)) by {
                assert forall|u: nat|
                    1 <= u < self.tag@.len() && in_chain(0nat, u) implies self.tag@[u as int]
                    == A::spec_id() by {
                    assert(u == 0);
                }
            }
        }
        self.push_path(s, Ghost(0nat));
        let ghost mid = *self;
        let prev = self.value[s];
        proof {
            lemma_chain_map_id::<T, A>(mid.tag@, (s / 2) as nat, mid.value@[s as int]);
        }
        self.value[s] = x;
        proof {
            assert forall|j: int| 0 <= j < gn && j != i implies self.elems()[j] == mid.elems()[
                j] by {
                lemma_slot(gn, j);
                if j < i {
                    lemma_vpos_mono(gn, j, i as int);
                } else {
                    lemma_vpos_mono(gn, i as int, j);
                }
            }
            lemma_chain_map_id::<T, A>(mid.tag@, (s / 2) as nat, x);
        }
        let ghost writ = *self;
        let mut q: usize = s / 2;
        while q >= 1
            invariant
                q < gn,
                gn == self.spec_n(),
                self.value@.len() == 2 * gn,
                self.tag@.len() == gn,
                1 <= gn <= usize::MAX / 2,
                self.tag@ == writ.tag@,
                forall|j: int|
                    0 <= j < 2 * gn && j >= gn ==> self.value@[j] == #[trigger] writ.value@[j],
                self.elems() == writ.elems(),
                tags_clean::<T, A>(self.tag@, (s / 2) as nat),
                in_chain((s / 2) as nat, q as nat),
                forall|u: int|
                    1 <= u < gn && !in_chain(q as nat, u as nat) ==> #[trigger] self.value@[u]
                        == A::spec_map(
                        self.tag@[u],
                        T::spec_op(self.value@[2 * u], self.value@[2 * u + 1]),
                    ),
            decreases q,
        {
            let lval = self.value[2 * q];
            let rval = self.value[2 * q + 1];
            let combined = lval.op(&rval);
            self.value[q] = combined;
            proof {
                let ghost prevst = self;
                A::id_map(T::spec_op(self.value@[2 * q as int], self.value@[2 * q as int + 1]));
                assert forall|u: int|
                    1 <= u < gn && !in_chain((q / 2) as nat, u as nat) implies #[trigger] self.value@[u]
                    == A::spec_map(
                    self.tag@[u],
                    T::spec_op(self.value@[2 * u], self.value@[2 * u + 1]),
                ) by {
                    crate::segtree::lemma_chain_le(q as nat, u as nat);
                    crate::segtree::lemma_chain_le((q / 2) as nat, u as nat);
                    if u == q {
                        A::id_map(T::spec_op(self.value@[2 * u], self.value@[2 * u + 1]));
                    }
                }
                crate::segtree::lemma_chain_parent((s / 2) as nat, q as nat);
                assert(self.elems() =~= writ.elems()) by {
                    assert forall|j: int| 0 <= j < gn implies self.elems()[j] == writ.elems()[
                        j] by {
                        lemma_slot(gn, j);
                    }
                }
            }
            q = q / 2;
        }
        proof {
            assert forall|u: int|
                1 <= u < gn implies #[trigger] self.value@[u] == A::spec_map(
                self.tag@[u],
                T::spec_op(self.value@[2 * u], self.value@[2 * u + 1]),
            ) by {
                assert(!in_chain(0nat, u as nat));
            }
            assert(self.elems() =~= old(self).elems().update(i as int, x));
        }
        prev
    }

    /// The aggregate of the half-open range `[l, r)`: the fold of the
    /// elements in that range, left to right. Read-only: pending tags are
    /// applied to the in-flight partial aggregates, never written back.
    pub fn prod(&self, l: usize, r: usize) -> (res: T)
        requires
            self.wf(),
            l <= r <= self.spec_n(),
        ensures
            res == fold(self.elems(), l as int, r as int),
    {
        if l == r {
            return T::id();
        }
        let n = self.value.len() / 2;
        let ghost gn = n as nat;
        let ghost k = clog2(gn);
        let p = next_pow2(n);
        let lv0 = slot_index(n, p, l);
        let rv0 = slot_index(n, p, r);
        let mut lv = strip_index(lv0);
        let mut rv = strip_index(rv0);
        proof {
            lemma_clog2(gn);
            lemma_vpos_basics(gn);
            lemma_slot(gn, l as int);
            lemma_strip_window(k, lv0 as nat);
            if r < n {
                lemma_slot(gn, r as int);
                lemma_strip_window(k, rv0 as nat);
            } else {
                lemma_strip_pow2(k);
            }
        }
        let ghost mut gl: int = l as int;
        let ghost mut gr: int = r as int;
        if lv == rv {
            proof {
                if r < n {
                    lemma_vpos_reflect(gn, l as int, r as int);
                    lemma_vpos_reflect(gn, r as int, l as int);
                } else {
                    lemma_root(gn);
                    lemma_vpos_reflect(gn, l as int, 0);
                    lemma_vpos_reflect(gn, 0, l as int);
                    lemma_lazy_node_fold(self.value@, self.tag@, gn, 1, 0, n as int);
                    T::id_right(fold(self.elems(), 0, n as int));
                }
            }
            return self.corrected(1).op(&T::id());
        }
        let mut x = T::id();
        let mut y = T::id();
        while lv != rv
            invariant
                self.wf(),
                gn == self.spec_n(),
                k == clog2(gn),
                self.value@.len() == 2 * gn,
                1 <= gn <= usize::MAX / 2,
                n == gn,
                node(k, lv as nat),
                node(k, rv as nat),
                lv % 2 == 1,
                rv % 2 == 1,
                lv < 2 * gn,
                rv < 2 * gn,
                l as int <= gl <= gr <= r as int,
                r <= gn,
                x == fold(self.elems(), l as int, gl),
                y == fold(self.elems(), gr, r as int),
                vl(k, lv as nat) == vpos(gn, gl) || (lv == 1 && gl == gn),
                vl(k, rv as nat) == vpos(gn, gr) || (rv == 1 && gr == gn && r == gn),
                (rv == 1 && gr == gn && lv == 1) ==> gl == gn,
            decreases gr - gl,
        {
            if lv >= rv {
                proof {
                    crate::layout::lemma_window_bounds(k, lv as nat);
                    crate::layout::lemma_window_bounds(k, rv as nat);
                    lemma_vpos_basics(gn);
                    if lv == 1 && gl == gn {
                        assert(false);
                    }
                    if !(rv == 1 && gr == gn) {
                        lemma_left_safe(k, lv as nat, rv as nat);
                    }
                    lemma_node_image(gn, lv as nat);
                }
                let ghost gm = ivp(gn, vr(k, lv as nat));
                proof {
                    lemma_vpos_reflect(gn, gl, gm);
                    if !(rv == 1 && gr == gn) {
                        lemma_vpos_reflect(gn, gm, gr);
                    }
                    lemma_lazy_node_fold(self.value@, self.tag@, gn, lv as nat, gl, gm);
                    lemma_fold_split(self.elems(), l as int, gl, gm);
                }
                let seg = self.corrected(lv);
                x = x.op(&seg);
                let lnext = lv + 1;
                proof {
                    crate::layout::lemma_lg_succ(lv as nat);
                    lemma_lg_bounds(lv as nat);
                    crate::layout::lemma_vr_end(k, lv as nat);
                    lemma_vpos_basics(gn);
                    if lnext as nat == pow2(lg(lv as nat) + 1) {
                        lemma_strip_pow2(lg(lv as nat) + 1);
                        lemma_vpos_reflect(gn, gm, gn as int);
                        lemma_vpos_reflect(gn, gn as int, gm);
                    } else {
                        crate::layout::lemma_adjacent(k, lv as nat);
                        lemma_strip_window(k, (lv + 1) as nat);
                        crate::layout::lemma_strip_basics((lv + 1) as nat);
                    }
                }
                lv = strip_index(lnext);
                proof {
                    gl = gm;
                }
            } else {
                proof {
                    crate::layout::lemma_window_bounds(k, lv as nat);
                    crate::layout::lemma_window_bounds(k, rv as nat);
                    lemma_vpos_basics(gn);
                    if lv == 1 && gl == gn {
                        assert(false);
                    }
                    if gl < gr {
                        lemma_vpos_mono(gn, gl, gr);
                    }
                    lemma_right_safe(k, lv as nat, rv as nat);
                    lemma_node_image(gn, (rv - 1) as nat);
                    crate::layout::lemma_window_bounds(k, (rv - 1) as nat);
                }
                let ghost gm = ivp(gn, vl(k, (rv - 1) as nat));
                proof {
                    lemma_vpos_reflect(gn, gl, gm);
                    lemma_vpos_reflect(gn, gm, gr);
                    lemma_lazy_node_fold(self.value@, self.tag@, gn, (rv - 1) as nat, gm, gr);
                    lemma_fold_split(self.elems(), gm, gr, r as int);
                }
                let seg = self.corrected(rv - 1);
                y = seg.op(&y);
                let rprev = rv - 1;
                proof {
                    lemma_strip_window(k, rprev as nat);
                    crate::layout::lemma_strip_basics(rprev as nat);
                }
                rv = strip_index(rprev);
                proof {
                    gr = gm;
                }
            }
        }
        proof {
            if lv == 1 && gl == gn {
                assert(gr == gn);
            } else if rv == 1 && gr == gn {
                assert(gl == gn);
            } else {
                lemma_vpos_reflect(gn, gl, gr);
                lemma_vpos_reflect(gn, gr, gl);
            }
            lemma_fold_split(self.elems(), l as int, gl, r as int);
        }
        x.op(&y)
    }

    /// The aggregate of the whole element sequence.
    pub fn prod_all(&self) -> (res: T)
        requires
            self.wf(),
        ensures
            res == fold(self.elems(), 0, self.spec_n() as int),
    {
        let n = self.value.len() / 2;
        self.prod(0, n)
    }

    /// Applies the tag `m` to one fully covered boundary node: maps its
    /// cached value and, if the node is internal, composes `m` into its
    /// pending tag.
    fn apply_node(&mut self, v: usize, m: A)
        requires
            old(self).value@.len() == 2 * old(self).spec_n(),
            old(self).tag@.len() == old(self).spec_n(),
            1 <= v < 2 * old(self).spec_n(),
        ensures
            final(self).spec_n() == old(self).spec_n(),
            final(self).value@ == old(self).value@.update(
                v as int,
                A::spec_map(m, old(self).value@[v as int]),
            ),
            v < old(self).spec_n() ==> final(self).tag@ == old(self).tag@.update(
                v as int,
                A::spec_comp(m, old(self).tag@[v as int]),
            ),
            v >= old(self).spec_n() ==> final(self).tag@ == old(self).tag@,
    {
        let n = self.value.len() / 2;
        let mapped = m.map(&self.value[v]);
        self.value[v] = mapped;
        if v < n {
            let c = m.comp(&self.tag[v]);
            self.tag[v] = c;
        }
        proof {
            assert(self.value@ =~= old(self).value@.update(
                v as int,
                A::spec_map(m, old(self).value@[v as int]),
            ));
            if v < old(self).spec_n() {
                assert(self.tag@ =~= old(self).tag@.update(
                    v as int,
                    A::spec_comp(m, old(self).tag@[v as int]),
                ));
            }
        }
    }

    /// Recomputes the ancestor aggregates on the chain above `s`, which must
    /// be clean; every other node's shape clause must already hold.
    fn rebuild_path(&mut self, s: usize)
        requires
            old(self).value@.len() == 2 * old(self).spec_n(),
            old(self).tag@.len() == old(self).spec_n(),
            1 <= old(self).spec_n() <= usize::MAX / 2,
            1 <= s < 2 * old(self).spec_n(),
            tags_clean::<T, A>(old(self).tag@, (s / 2) as nat),
            forall|u: int|
                1 <= u < old(self).spec_n() && !in_chain((s / 2) as nat, u as nat)
                    ==> #[trigger] old(self).value@[u] == A::spec_map(
                    old(self).tag@[u],
                    T::spec_op(old(self).value@[2 * u], old(self).value@[2 * u + 1]),
                ),
        ensures
            final(self).wf(),
            final(self).spec_n() == old(self).spec_n(),
            final(self).tag@ == old(self).tag@,
            final(self).elems() == old(self).elems(),
    {
        let n = self.value.len() / 2;
        let ghost gn = n as nat;
        let mut q: usize = s / 2;
        proof {
            assert(in_chain((s / 2) as nat, (s / 2) as nat));
        }
        while q >= 1
            invariant
                q < gn,
                gn == self.spec_n(),
                self.value@.len() == 2 * gn,
                self.tag@.len() == gn,
                1 <= gn <= usize::MAX / 2,
                self.tag@ == old(self).tag@,
                forall|j: int|
                    0 <= j < 2 * gn && j >= gn ==> self.value@[j] == #[trigger] old(
                        self,
                    ).value@[j],
                tags_clean::<T, A>(self.tag@, (s / 2) as nat),
                in_chain((s / 2) as nat, q as nat),
                forall|u: int|
                    1 <= u < gn && !in_chain(q as nat, u as nat) ==> #[trigger] self.value@[u]
                        == A::spec_map(
                        self.tag@[u],
                        T::spec_op(self.value@[2 * u], self.value@[2 * u + 1]),
                    ),
            decreases q,
        {
            let lval = self.value[2 * q];
            let rval = self.value[2 * q + 1];
            let combined = lval.op(&rval);
            self.value[q] = combined;
            proof {
                assert forall|u: int|
                    1 <= u < gn && !in_chain((q / 2) as nat, u as nat) implies #[trigger] self.value@[u]
                    == A::spec_map(
                    self.tag@[u],
                    T::spec_op(self.value@[2 * u], self.value@[2 * u + 1]),
                ) by {
                    crate::segtree::lemma_chain_le(q as nat, u as nat);
                    crate::segtree::lemma_chain_le((q / 2) as nat, u as nat);
                    if u == q {
                        A::id_map(T::spec_op(self.value@[2 * u], self.value@[2 * u + 1]));
                    }
                }
                crate::segtree::lemma_chain_parent((s / 2) as nat, q as nat);
            }
            q = q / 2;
        }
        proof {
            assert forall|u: int|
                1 <= u < gn implies #[trigger] self.value@[u] == A::spec_map(
                self.tag@[u],
                T::spec_op(self.value@[2 * u], self.value@[2 * u + 1]),
            ) by {
                assert(!in_chain(0nat, u as nat));
            }
            assert forall|j: int| 0 <= j < gn implies self.elems()[j] == old(self).elems()[j] by {
                lemma_slot(gn, j);
            }
            assert(self.elems() =~= old(self).elems());
        }
    }

    /// Applies the tag `m` to every element of the half-open range `[l, r)`:
    /// the range's boundary nodes receive the tag in bulk after their
    /// ancestors' pending tags have been pushed down, and the ancestor
    /// aggregates are recomputed.
    pub fn apply(&mut self, l: usize, r: usize, m: A)
        requires
            old(self).wf(),
            l <= r <= old(self).spec_n(),
        ensures
            final(self).wf(),
            final(self).spec_n() == old(self).spec_n(),
            final(self).elems() == Seq::new(
                old(self).spec_n(),
                |j: int|
                    if l <= j < r {
                        A::spec_map(m, old(self).elems()[j])
                    } else {
                        old(self).elems()[j]
                    },
            ),
    {
        let ghost target = Seq::new(
            old(self).spec_n(),
            |j: int|
                if l <= j < r {
                    A::spec_map(m, old(self).elems()[j])
                } else {
                    old(self).elems()[j]
                },
        );
        if l == r {
            proof {
                assert(self.elems() =~= target);
            }
            return ;
        }
        let n = self.value.len() / 2;
        let ghost gn = n as nat;
        let ghost k = clog2(gn);
        let p = next_pow2(n);
        let lv0 = slot_index(n, p, l);
        let rv0 = slot_index(n, p, r);
        let mut lv = strip_index(lv0);
        let mut rv = strip_index(rv0);
        proof {
            lemma_clog2(gn);
            lemma_vpos_basics(gn);
            lemma_slot(gn, l as int);
            lemma_strip_window(k, lv0 as nat);
            if r < n {
                lemma_slot(gn, r as int);
                lemma_strip_window(k, rv0 as nat);
            } else {
                lemma_strip_pow2(k);
            }
        }
        let ghost mut gl: int = l as int;
        let ghost mut gr: int = r as int;
        if lv == rv {
            proof {
                if r < n {
                    lemma_vpos_reflect(gn, l as int, r as int);
                    lemma_vpos_reflect(gn, r as int, l as int);
                } else {
                    lemma_root(gn);
                    lemma_vpos_reflect(gn, l as int, 0);
                    lemma_vpos_reflect(gn, 0, l as int);
                }
                assert(tags_clean::<T, A>(self.tag@, 0nat)) by {
                    assert forall|u: nat|
                        1 <= u < self.tag@.len() && in_chain(0nat, u) implies self.tag@[u as int]
                        == A::spec_id() by {
                        assert(u == 0);
                    }
                }
            }
            let ghost pre = *self;
            self.apply_node(1, m);
            proof {
                lemma_root(gn);
                lemma_cover_elems::<T, A>(
                    pre.value@,
                    pre.tag@,
                    self.value@,
                    self.tag@,
                    gn,
                    m,
                    1,
                    0,
                    gn as int,
                );
                assert forall|u: int|
                    1 <= u < gn implies #[trigger] self.value@[u] == A::spec_map(
                    self.tag@[u],
                    T::spec_op(self.value@[2 * u], self.value@[2 * u + 1]),
                ) by {
                    if u == 1 {
                        A::comp_map(
                            m,
                            pre.tag@[1],
                            T::spec_op(pre.value@[2], pre.value@[3]),
                        );
                    }
                }
                assert(self.elems() =~= target);
            }
            return ;
        }
        while lv != rv
            invariant
                self.wf(),
                gn == self.spec_n(),
                k == clog2(gn),
                self.value@.len() == 2 * gn,
                self.tag@.len() == gn,
                1 <= gn <= usize::MAX / 2,
                n == gn,
                p == pow2(k),
                node(k, lv as nat),
                node(k, rv as nat),
                lv % 2 == 1,
                rv % 2 == 1,
                lv < 2 * gn,
                rv < 2 * gn,
                l as int <= gl <= gr <= r as int,
                r <= gn,
                l < r,
                forall|j: int|
                    0 <= j < gn ==> #[trigger] self.elems()[j] == (if l <= j < gl || gr <= j < r {
                        A::spec_map(m, old(self).elems()[j])
                    } else {
                        old(self).elems()[j]
                    }),
                vl(k, lv as nat) == vpos(gn, gl) || (lv == 1 && gl == gn),
                vl(k, rv as nat) == vpos(gn, gr) || (rv == 1 && gr == gn && r == gn),
                (rv == 1 && gr == gn && lv == 1) ==> gl == gn,
            decreases gr - gl,
        {
            if lv >= rv {
                proof {
                    crate::layout::lemma_window_bounds(k, lv as nat);
                    crate::layout::lemma_window_bounds(k, rv as nat);
                    lemma_vpos_basics(gn);
                    if lv == 1 && gl == gn {
                        assert(false);
                    }
                    if !(rv == 1 && gr == gn) {
                        lemma_left_safe(k, lv as nat, rv as nat);
                    }
                    lemma_node_image(gn, lv as nat);
                }
                let ghost gm = ivp(gn, vr(k, lv as nat));
                proof {
                    lemma_vpos_reflect(gn, gl, gm);
                    if !(rv == 1 && gr == gn) {
                        lemma_vpos_reflect(gn, gm, gr);
                    }
                    assert(tags_clean::<T, A>(self.tag@, 0nat)) by {
                        assert forall|u: nat|
                            1 <= u < self.tag@.len() && in_chain(0nat, u) implies self.tag@[
                            u as int] == A::spec_id() by {
                            assert(u == 0);
                        }
                    }
                }
                let ghost before = *self;
                self.push_path(lv, Ghost(0nat));
                let ghost pre = *self;
                self.apply_node(lv, m);
                proof {
                    lemma_cover_elems::<T, A>(
                        pre.value@,
                        pre.tag@,
                        self.value@,
                        self.tag@,
                        gn,
                        m,
                        lv as nat,
                        gl,
                        gm,
                    );
                    assert(tags_clean::<T, A>(self.tag@, ((lv / 2) as nat))) by {
                        assert forall|u: nat|
                            1 <= u < self.tag@.len() && in_chain((lv / 2) as nat, u) implies self.tag@[
                            u as int] == A::spec_id() by {
                            crate::segtree::lemma_chain_le((lv / 2) as nat, u);
                        }
                    }
                    assert forall|u: int|
                        1 <= u < gn && !in_chain((lv / 2) as nat, u as nat)
                        implies #[trigger] self.value@[u] == A::spec_map(
                        self.tag@[u],
                        T::spec_op(self.value@[2 * u], self.value@[2 * u + 1]),
                    ) by {
                        crate::segtree::lemma_chain_le((lv / 2) as nat, u as nat);
                        if u == lv {
                            assert(in_chain((lv / 2) as nat, (lv / 2) as nat));
                            A::comp_map(
                                m,
                                pre.tag@[u],
                                T::spec_op(pre.value@[2 * u], pre.value@[2 * u + 1]),
                            );
                        }
                    }
                }
                self.rebuild_path(lv);
                proof {
                    assert forall|j: int|
                        0 <= j < gn implies #[trigger] self.elems()[j] == (if l <= j < gm || gr
                            <= j < r {
                        A::spec_map(m, old(self).elems()[j])
                    } else {
                        old(self).elems()[j]
                    }) by {
                        assert(before.elems()[j] == pre.elems()[j]);
                    }
                }
                let lnext = lv + 1;
                proof {
                    crate::layout::lemma_lg_succ(lv as nat);
                    lemma_lg_bounds(lv as nat);
                    crate::layout::lemma_vr_end(k, lv as nat);
                    lemma_vpos_basics(gn);
                    if lnext as nat == pow2(lg(lv as nat) + 1) {
                        lemma_strip_pow2(lg(lv as nat) + 1);
                        lemma_vpos_reflect(gn, gm, gn as int);
                        lemma_vpos_reflect(gn, gn as int, gm);
                    } else {
                        crate::layout::lemma_adjacent(k, lv as nat);
                        lemma_strip_window(k, (lv + 1) as nat);
                        crate::layout::lemma_strip_basics((lv + 1) as nat);
                    }
                }
                lv = strip_index(lnext);
                proof {
                    gl = gm;
                }
            } else {
                proof {
                    crate::layout::lemma_window_bounds(k, lv as nat);
                    crate::layout::lemma_window_bounds(k, rv as nat);
                    lemma_vpos_basics(gn);
                    if lv == 1 && gl == gn {
                        assert(false);
                    }
                    if gl < gr {
                        lemma_vpos_mono(gn, gl, gr);
                    }
                    lemma_right_safe(k, lv as nat, rv as nat);
                    lemma_node_image(gn, (rv - 1) as nat);
                    crate::layout::lemma_window_bounds(k, (rv - 1) as nat);
                }
                let ghost gm = ivp(gn, vl(k, (rv - 1) as nat));
                proof {
                    lemma_vpos_reflect(gn, gl, gm);
                    lemma_vpos_reflect(gn, gm, gr);
                    assert(tags_clean::<T, A>(self.tag@, 0nat)) by {
                        assert forall|u: nat|
                            1 <= u < self.tag@.len() && in_chain(0nat, u) implies self.tag@[
                            u as int] == A::spec_id() by {
                            assert(u == 0);
                        }
                    }
                }
                let ghost before = *self;
                let rtarget = rv - 1;
                self.push_path(rtarget, Ghost(0nat));
                let ghost pre = *self;
                self.apply_node(rtarget, m);
                proof {
                    lemma_cover_elems::<T, A>(
                        pre.value@,
                        pre.tag@,
                        self.value@,
                        self.tag@,
                        gn,
                        m,
                        rtarget as nat,
                        gm,
                        gr,
                    );
                    assert(tags_clean::<T, A>(self.tag@, ((rtarget / 2) as nat))) by {
                        assert forall|u: nat|
                            1 <= u < self.tag@.len() && in_chain((rtarget / 2) as nat, u) implies self.tag@[
                            u as int] == A::spec_id() by {
                            crate::segtree::lemma_chain_le((rtarget / 2) as nat, u);
                        }
                    }
                    assert forall|u: int|
                        1 <= u < gn && !in_chain((rtarget / 2) as nat, u as nat)
                        implies #[trigger] self.value@[u] == A::spec_map(
                        self.tag@[u],
                        T::spec_op(self.value@[2 * u], self.value@[2 * u + 1]),
                    ) by {
                        crate::segtree::lemma_chain_le((rtarget / 2) as nat, u as nat);
                        if u == rtarget {
                            assert(in_chain((rtarget / 2) as nat, (rtarget / 2) as nat));
                            A::comp_map(
                                m,
                                pre.tag@[u],
                                T::spec_op(pre.value@[2 * u], pre.value@[2 * u + 1]),
                            );
                        }
                    }
                }
                self.rebuild_path(rtarget);
                proof {
                    assert forall|j: int|
                        0 <= j < gn implies #[trigger] self.elems()[j] == (if l <= j < gl || gm
                            <= j < r {
                        A::spec_map(m, old(self).elems()[j])
                    } else {
                        old(self).elems()[j]
                    }) by {
                        assert(before.elems()[j] == pre.elems()[j]);
                    }
                }
                proof {
                    lemma_strip_window(k, rtarget as nat);
                    crate::layout::lemma_strip_basics(rtarget as nat);
                }
                rv = strip_index(rtarget);
                proof {
                    gr = gm;
                }
            }
        }
        proof {
            if lv == 1 && gl == gn {
                assert(gr == gn);
            } else if rv == 1 && gr == gn {
                assert(gl == gn);
            } else {
                lemma_vpos_reflect(gn, gl, gr);
                lemma_vpos_reflect(gn, gr, gl);
            }
            assert(self.elems() =~= target);
        }
    }
}

} // verus!
