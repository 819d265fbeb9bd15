//! Index arithmetic for the flat array layout of the range-aggregation
//! engines. The `2N`-sized node array is an implicit complete binary tree:
//! node `v` has children `2v` and `2v + 1` and parent `v / 2`. With `P` the
//! smallest power of two at least `N` and `K = log2(P)`, each node `v` covers
//! a half-open window `[vl(K, v), vr(K, v))` of `P` virtual positions, where
//! a logical leaf occupies one virtual position on the deeper level and two
//! on the shallower one. All the laminar-family facts the engines rest on
//! are proved here over these windows.

use vstd::arithmetic::div_mod::{
    lemma_div_denominator, lemma_div_multiples_vanish, lemma_fundamental_div_mod_converse,
};
use vstd::arithmetic::power2::{
    lemma_pow2_adds, lemma_pow2_pos, lemma_pow2_strictly_increases, pow2,
};
use vstd::prelude::*;

verus! {

/// Floor of the base-2 logarithm; the depth of node `v` in the tree.
pub open spec fn lg(v: nat) -> nat
    decreases v,
{
    if v < 2 {
        0
    } else {
        (1 + lg(v / 2)) as nat
    }
}

/// `v` with its trailing zero bits stripped: the highest ancestor of `v`
/// whose window starts where `v`'s does.
pub open spec fn strip(v: nat) -> nat
    decreases v,
{
    if v == 0 {
        0
    } else if v % 2 == 1 {
        v
    } else {
        strip(v / 2)
    }
}

/// Ceiling of the base-2 logarithm: `pow2(clog2(n))` is the smallest power
/// of two at least `n`.
pub open spec fn clog2(n: nat) -> nat
    decreases n,
{
    if n <= 1 {
        0
    } else {
        (1 + clog2((n + 1) / 2)) as nat
    }
}

/// Whether `v` is a valid node index of a tree with `K = k` levels.
pub open spec fn node(k: nat, v: nat) -> bool {
    1 <= v && lg(v) <= k
}

/// The height of node `v` above the virtual leaf level.
pub open spec fn ht(k: nat, v: nat) -> nat {
    (k - lg(v)) as nat
}

/// The left end of node `v`'s window of virtual positions.
pub open spec fn vl(k: nat, v: nat) -> int {
    v * pow2(ht(k, v)) - pow2(k)
}

/// The right end of node `v`'s window of virtual positions.
pub open spec fn vr(k: nat, v: nat) -> int {
    vl(k, v) + pow2(ht(k, v))
}

/// `pow2` is monotone.
pub proof fn lemma_pow2_le(e1: nat, e2: nat)
    requires
        e1 <= e2,
    ensures
        pow2(e1) <= pow2(e2),
{
    if e1 < e2 {
        lemma_pow2_strictly_increases(e1, e2);
    }
}

/// The dyadic bounds of the floor logarithm.
pub proof fn lemma_lg_bounds(v: nat)
    requires
        v >= 1,
    ensures
        pow2(lg(v)) <= v < pow2(lg(v) + 1),
    decreases v,
{
    vstd::arithmetic::power2::lemma2_to64();
    if v < 2 {
    } else {
        lemma_lg_bounds(v / 2);
        lemma_pow2_adds(1, lg(v / 2));
        lemma_pow2_adds(1, lg(v / 2) + 1);
    }
}

/// A value squeezed between two adjacent powers of two has that logarithm.
pub proof fn lemma_lg_eq(v: nat, m: nat)
    requires
        pow2(m) <= v < pow2(m + 1),
    ensures
        lg(v) == m,
{
    lemma_pow2_pos(m);
    lemma_lg_bounds(v);
    if lg(v) < m {
        lemma_pow2_le(lg(v) + 1, m);
    }
    if lg(v) > m {
        lemma_pow2_le(m + 1, lg(v));
    }
}

/// The floor logarithm is monotone.
pub proof fn lemma_lg_mono(u: nat, v: nat)
    requires
        1 <= u <= v,
    ensures
        lg(u) <= lg(v),
{
    lemma_lg_bounds(u);
    lemma_lg_bounds(v);
    if lg(u) > lg(v) {
        lemma_pow2_le(lg(v) + 1, lg(u));
    }
}

/// Multiplying by a power of two shifts the logarithm.
pub proof fn lemma_lg_pow2_mul(x: nat, e: nat)
    requires
        x >= 1,
    ensures
        lg(x * pow2(e)) == lg(x) + e,
    decreases e,
{
    vstd::arithmetic::power2::lemma2_to64();
    if e == 0 {
    } else {
        lemma_lg_pow2_mul(x, (e - 1) as nat);
        lemma_pow2_adds(1, (e - 1) as nat);
        assert(pow2(e) == 2 * pow2((e - 1) as nat));
        assert(x * pow2(e) == 2 * (x * pow2((e - 1) as nat))) by (nonlinear_arith)
            requires
                pow2(e) == 2 * pow2((e - 1) as nat),
        ;
        lemma_pow2_pos((e - 1) as nat);
        assert(x * pow2((e - 1) as nat) >= 1) by (nonlinear_arith)
            requires
                x >= 1,
                pow2((e - 1) as nat) >= 1,
        ;
    }
}

/// The logarithm of a power of two.
pub proof fn lemma_lg_pow2(e: nat)
    ensures
        lg(pow2(e)) == e,
{
    lemma_lg_pow2_mul(1, e);
}

/// Dividing by a power of two shifts the logarithm down.
pub proof fn lemma_lg_div(v: nat, d: nat)
    requires
        v >= 1,
        d <= lg(v),
    ensures
        v / pow2(d) >= 1,
        lg(v / pow2(d)) == lg(v) - d,
    decreases d,
{
    vstd::arithmetic::power2::lemma2_to64();
    if d == 0 {
    } else {
        lemma_lg_div(v, (d - 1) as nat);
        let u = v / pow2((d - 1) as nat);
        lemma_pow2_pos((d - 1) as nat);
        lemma_div_denominator(v as int, pow2((d - 1) as nat) as int, 2);
        lemma_pow2_adds((d - 1) as nat, 1);
        assert(pow2((d - 1) as nat) * pow2(1) == pow2(d));
        assert(u / 2 == v / pow2(d));
        assert(lg(u) >= 1);
        lemma_lg_bounds(u);
    }
}

/// `clog2` indeed yields the smallest power of two at least `n`.
pub proof fn lemma_clog2(n: nat)
    requires
        n >= 1,
    ensures
        n <= pow2(clog2(n)) < 2 * n,
    decreases n,
{
    vstd::arithmetic::power2::lemma2_to64();
    if n <= 1 {
    } else {
        let m = (n + 1) / 2;
        lemma_clog2(m);
        lemma_pow2_adds(1, clog2(m));
        if m >= 2 {
            assert(clog2(m) >= 1);
            lemma_pow2_adds(1, (clog2(m) - 1) as nat);
            assert(pow2(clog2(m)) % 2 == 0) by {
                assert(pow2(clog2(m)) == 2 * pow2((clog2(m) - 1) as nat));
            }
        }
    }
}

/// Basic facts about stripping trailing zero bits.
pub proof fn lemma_strip_basics(v: nat)
    requires
        v >= 1,
    ensures
        1 <= strip(v) <= v,
        strip(v) % 2 == 1,
    decreases v,
{
    if v % 2 == 0 {
        lemma_strip_basics(v / 2);
    }
}

/// The windows of a node's children split the node's window at its midpoint.
pub proof fn lemma_child(k: nat, v: nat)
    requires
        node(k, v),
        lg(v) < k,
    ensures
        node(k, 2 * v),
        node(k, 2 * v + 1),
        lg(2 * v) == lg(v) + 1,
        lg(2 * v + 1) == lg(v) + 1,
        vl(k, 2 * v) == vl(k, v),
        vr(k, 2 * v) == vl(k, 2 * v + 1),
        vr(k, 2 * v + 1) == vr(k, v),
{
    let h = ht(k, v);
    assert(lg(2 * v) == 1 + lg((2 * v) / 2));
    assert(lg(2 * v + 1) == 1 + lg((2 * v + 1) / 2));
    vstd::arithmetic::power2::lemma2_to64();
    lemma_pow2_adds(1, (h - 1) as nat);
    assert(pow2(h) == 2 * pow2((h - 1) as nat));
    let hp = pow2((h - 1) as nat) as int;
    assert((2 * v) * hp == v * (2 * hp)) by (nonlinear_arith);
    assert((2 * v + 2) * hp == (v + 1) * (2 * hp)) by (nonlinear_arith);
    assert((2 * v + 1) * hp + hp == (2 * v + 2) * hp) by (nonlinear_arith);
    assert((2 * v) * hp + hp == (2 * v + 1) * hp) by (nonlinear_arith);
}

/// Stripping preserves the window's left end and can only widen it rightward.
pub proof fn lemma_strip_window(k: nat, v: nat)
    requires
        node(k, v),
    ensures
        node(k, strip(v)),
        vl(k, strip(v)) == vl(k, v),
        vr(k, strip(v)) >= vr(k, v),
    decreases v,
{
    if v % 2 == 0 {
        let u = v / 2;
        assert(lg(v) == 1 + lg(u));
        lemma_child(k, u);
        assert(2 * u == v);
        lemma_strip_window(k, u);
    }
}

/// Every node window lies within the tree's full span of virtual positions.
pub proof fn lemma_window_bounds(k: nat, v: nat)
    requires
        node(k, v),
    ensures
        0 <= vl(k, v),
        vl(k, v) < vr(k, v),
        vr(k, v) <= pow2(k),
        vr(k, v) == vl(k, v) + pow2(ht(k, v)),
{
    let h = ht(k, v);
    lemma_pow2_pos(h);
    vstd::arithmetic::power2::lemma2_to64();
    lemma_lg_bounds(v);
    lemma_pow2_adds(lg(v), h);
    assert(v * pow2(h) >= pow2(lg(v)) * pow2(h)) by (nonlinear_arith)
        requires
            v >= pow2(lg(v)),
            pow2(h) >= 0,
    ;
    lemma_pow2_adds(lg(v) + 1, h);
    assert((v + 1) * pow2(h) <= pow2(lg(v) + 1) * pow2(h)) by (nonlinear_arith)
        requires
            v + 1 <= pow2(lg(v) + 1),
            pow2(h) >= 0,
    ;
    assert(pow2(k + 1) == 2 * pow2(k)) by {
        vstd::arithmetic::power2::lemma2_to64();
        lemma_pow2_adds(1, k);
    }
    assert((v + 1) * pow2(h) == v * pow2(h) + pow2(h)) by (nonlinear_arith);
}

/// A node is recovered from any virtual position inside its window by
/// dividing: it is the unique node on its level whose window holds `b`.
pub proof fn lemma_contains_div(k: nat, v: nat, b: int)
    requires
        node(k, v),
        vl(k, v) <= b < vr(k, v),
    ensures
        (b + pow2(k)) / pow2(ht(k, v)) as int == v,
{
    let h = ht(k, v);
    lemma_pow2_pos(h);
    assert((v + 1) * pow2(h) == v * pow2(h) + pow2(h)) by (nonlinear_arith);
    lemma_fundamental_div_mod_converse(
        b + pow2(k),
        pow2(h) as int,
        v as int,
        b + pow2(k) - v * pow2(h),
    );
}

/// An ancestor's window contains the descendant's window.
pub proof fn lemma_anc_window(k: nat, v: nat, d: nat)
    requires
        node(k, v),
        d <= lg(v),
    ensures
        node(k, v / pow2(d)),
        lg(v / pow2(d)) == lg(v) - d,
        vl(k, v / pow2(d)) <= vl(k, v),
        vr(k, v) <= vr(k, v / pow2(d)),
    decreases d,
{
    vstd::arithmetic::power2::lemma2_to64();
    lemma_lg_div(v, d);
    if d == 0 {
        assert(pow2(0) == 1);
        lemma_fundamental_div_mod_converse(v as int, 1, v as int, 0);
        assert(v / pow2(d) == v);
    } else {
        lemma_anc_window(k, v, (d - 1) as nat);
        let u = v / pow2((d - 1) as nat);
        lemma_pow2_pos((d - 1) as nat);
        lemma_div_denominator(v as int, pow2((d - 1) as nat) as int, 2);
        lemma_pow2_adds((d - 1) as nat, 1);
        assert(u / 2 == v / pow2(d));
        let w = u / 2;
        assert(lg(u) == 1 + lg(w));
        lemma_child(k, w);
        assert(u == 2 * w || u == 2 * w + 1);
        assert(vl(k, 2 * w + 1) == vl(k, 2 * w) + pow2(ht(k, 2 * w)));
        assert(vl(k, w) <= vl(k, u));
        assert(vr(k, u) <= vr(k, w));
        assert(w == v / pow2(d));
        assert(vl(k, v / pow2(d)) <= vl(k, v));
        assert(vr(k, v) <= vr(k, v / pow2(d)));
    }
}

/// Two nodes whose windows share a position, one on a level at least as high
/// as the other, are in the ancestor relation.
pub proof fn lemma_same_pos(k: nat, u: nat, v: nat, b: int)
    requires
        node(k, u),
        node(k, v),
        lg(u) <= lg(v),
        vl(k, u) <= b < vr(k, u),
        vl(k, v) <= b < vr(k, v),
    ensures
        v / pow2((lg(v) - lg(u)) as nat) == u,
{
    let d = (lg(v) - lg(u)) as nat;
    lemma_anc_window(k, v, d);
    let w = v / pow2(d);
    lemma_contains_div(k, u, b);
    lemma_contains_div(k, w, b);
}

/// Two odd nodes with the same window start are the same node.
pub proof fn lemma_odd_unique(k: nat, u: nat, v: nat)
    requires
        node(k, u),
        node(k, v),
        u % 2 == 1,
        v % 2 == 1,
        vl(k, u) == vl(k, v),
    ensures
        u == v,
{
    if lg(u) <= lg(v) {
        lemma_odd_unique_sorted(k, u, v);
    } else {
        lemma_odd_unique_sorted(k, v, u);
    }
}

proof fn lemma_odd_unique_sorted(k: nat, u: nat, v: nat)
    requires
        node(k, u),
        node(k, v),
        u % 2 == 1,
        v % 2 == 1,
        lg(u) <= lg(v),
        vl(k, u) == vl(k, v),
    ensures
        u == v,
{
    let hu = ht(k, u);
    let hv = ht(k, v);
    let e = (hu - hv) as nat;
    lemma_pow2_adds(e, hv);
    lemma_pow2_pos(hv);
    lemma_pow2_pos(e);
    assert(u * pow2(hu) == v * pow2(hv));
    assert(u * pow2(hu) == (u * pow2(e)) * pow2(hv)) by (nonlinear_arith)
        requires
            pow2(hu) == pow2(e) * pow2(hv),
    ;
    assert(u * pow2(e) == v) by (nonlinear_arith)
        requires
            (u * pow2(e)) * pow2(hv) == v * pow2(hv),
            pow2(hv) >= 1,
    ;
    if e >= 1 {
        vstd::arithmetic::power2::lemma2_to64();
        lemma_pow2_adds(1, (e - 1) as nat);
        assert(pow2(e) == 2 * pow2((e - 1) as nat));
        assert(v == 2 * (u * pow2((e - 1) as nat))) by (nonlinear_arith)
            requires
                v == u * pow2(e),
                pow2(e) == 2 * pow2((e - 1) as nat),
        ;
        assert(v % 2 == 0);
    } else {
        assert(pow2(0) == 1) by {
            vstd::arithmetic::power2::lemma2_to64();
        }
        assert(u * 1 == u) by (nonlinear_arith);
    }
}

/// Moving to the next node on the same level moves the window by one width.
pub proof fn lemma_adjacent(k: nat, v: nat)
    requires
        node(k, v),
        lg(v + 1) == lg(v),
    ensures
        node(k, v + 1),
        vl(k, v + 1) == vr(k, v),
{
    assert((v + 1) * pow2(ht(k, v)) == v * pow2(ht(k, v)) + pow2(ht(k, v))) by (nonlinear_arith);
}

/// The successor of a node either stays on its level or is the next power of
/// two, one level down.
pub proof fn lemma_lg_succ(v: nat)
    requires
        v >= 1,
    ensures
        lg(v + 1) == lg(v) || (v + 1 == pow2(lg(v) + 1) && lg(v + 1) == lg(v) + 1),
{
    lemma_lg_bounds(v);
    if v + 1 < pow2(lg(v) + 1) {
        lemma_lg_eq(v + 1, lg(v));
    } else {
        lemma_lg_pow2(lg(v) + 1);
    }
}

/// The predecessor of an odd node above the root sits on the same level.
pub proof fn lemma_prev_same_level(v: nat)
    requires
        v % 2 == 1,
        v >= 3,
    ensures
        lg((v - 1) as nat) == lg(v),
        lg(v) >= 1,
{
    lemma_lg_bounds(v);
    assert(lg(v) >= 1) by {
        if lg(v) == 0 {
            assert(pow2(1) == 2) by {
                vstd::arithmetic::power2::lemma2_to64();
            }
        }
    }
    assert(pow2(lg(v)) % 2 == 0) by {
        vstd::arithmetic::power2::lemma2_to64();
        lemma_pow2_adds(1, (lg(v) - 1) as nat);
        assert(pow2(lg(v)) == 2 * pow2((lg(v) - 1) as nat));
    }
    lemma_lg_eq((v - 1) as nat, lg(v));
}

/// A node's window ends at the tree's right edge exactly when the node is
/// all ones, that is, when its successor is a power of two.
pub proof fn lemma_vr_end(k: nat, v: nat)
    requires
        node(k, v),
    ensures
        vr(k, v) == pow2(k) <==> v + 1 == pow2((lg(v) + 1) as nat),
{
    let h = ht(k, v);
    vstd::arithmetic::power2::lemma2_to64();
    lemma_pow2_adds(lg(v) + 1, h);
    lemma_pow2_adds(1, k);
    lemma_pow2_pos(h);
    assert(pow2(k + 1) == 2 * pow2(k));
    assert((v + 1) * pow2(h) == v * pow2(h) + pow2(h)) by (nonlinear_arith);
    if v + 1 == pow2(lg(v) + 1) {
        assert((v + 1) * pow2(h) == pow2(lg(v) + 1) * pow2(h));
    }
    if vr(k, v) == pow2(k) {
        assert((v + 1) * pow2(h) == pow2(lg(v) + 1) * pow2(h));
        assert(v + 1 == pow2(lg(v) + 1)) by (nonlinear_arith)
            requires
                (v + 1) * pow2(h) == pow2(lg(v) + 1) * pow2(h),
                pow2(h) >= 1,
        ;
    }
}

/// In the left-to-right walk, an accumulated node left of the boundary node
/// lies entirely left of the boundary: its window cannot cross it.
pub proof fn lemma_left_safe(k: nat, l: nat, r: nat)
    requires
        node(k, l),
        node(k, r),
        l % 2 == 1,
        r % 2 == 1,
        l > r,
        vl(k, l) <= vl(k, r),
    ensures
        vr(k, l) <= vl(k, r),
{
    if vl(k, r) < vr(k, l) {
        let b = vl(k, r);
        lemma_window_bounds(k, r);
        if lg(l) <= lg(r) {
            lemma_same_pos(k, l, r, b);
            lemma_div_is_le(r, (lg(r) - lg(l)) as nat);
        } else {
            lemma_same_pos(k, r, l, b);
            lemma_anc_window(k, l, (lg(l) - lg(r)) as nat);
            lemma_odd_unique(k, l, r);
        }
    }
}

proof fn lemma_div_is_le(v: nat, d: nat)
    ensures
        v / pow2(d) <= v,
{
    lemma_pow2_pos(d);
    if pow2(d) == 1 {
        assert(v / 1 == v);
    } else {
        assert(v / pow2(d) <= v) by (nonlinear_arith)
            requires
                pow2(d) >= 2,
        ;
    }
}

/// In the right-to-left walk, stepping the boundary node left keeps it at or
/// right of the left walk's boundary.
pub proof fn lemma_right_safe(k: nat, l: nat, r: nat)
    requires
        node(k, l),
        node(k, r),
        l % 2 == 1,
        r % 2 == 1,
        l < r,
        vl(k, l) <= vl(k, r),
    ensures
        r >= 3,
        node(k, (r - 1) as nat),
        lg((r - 1) as nat) == lg(r),
        vr(k, (r - 1) as nat) == vl(k, r),
        vl(k, l) <= vl(k, (r - 1) as nat),
{
    assert(r >= 3);
    lemma_prev_same_level(r);
    let p = (r - 1) as nat;
    lemma_adjacent(k, p);
    lemma_window_bounds(k, p);
    lemma_window_bounds(k, l);
    if vl(k, l) > vl(k, p) {
        if vl(k, l) == vl(k, r) {
            lemma_odd_unique(k, l, r);
        } else {
            let b = vl(k, l);
            if lg(p) <= lg(l) {
                lemma_same_pos(k, p, l, b);
                lemma_div_is_le(l, (lg(l) - lg(p)) as nat);
                lemma_anc_window(k, l, (lg(l) - lg(p)) as nat);
            } else {
                lemma_same_pos(k, l, p, b);
                lemma_anc_window(k, p, (lg(p) - lg(l)) as nat);
            }
        }
    }
}

/// The number of logical leaves stored on the deeper of the two leaf levels
/// of a tree with `n` leaves.
pub open spec fn deep(n: nat) -> int {
    2 * n - pow2(clog2(n))
}

/// The virtual position of the logical boundary `i` (for `0 <= i <= n`):
/// deep leaves are one virtual position wide, shallow leaves two.
pub open spec fn vpos(n: nat, i: int) -> int {
    if i <= deep(n) {
        i
    } else {
        2 * i - deep(n)
    }
}

/// The physical array slot holding logical leaf `i`: the rotation places the
/// first `deep(n)` leaves on the bottom level and the rest one level up.
pub open spec fn spec_slot(n: nat, i: int) -> nat {
    if i + pow2(clog2(n)) < 2 * n {
        (i + pow2(clog2(n))) as nat
    } else {
        (i + pow2(clog2(n)) - n) as nat
    }
}

/// Ranges of the rotation bookkeeping quantities.
pub proof fn lemma_vpos_basics(n: nat)
    requires
        n >= 1,
    ensures
        1 <= deep(n) <= n,
        vpos(n, 0) == 0,
        vpos(n, n as int) == pow2(clog2(n)),
{
    lemma_clog2(n);
}

/// Virtual positions are strictly increasing in the logical index.
pub proof fn lemma_vpos_mono(n: nat, i: int, j: int)
    requires
        n >= 1,
        0 <= i < j <= n,
    ensures
        vpos(n, i) < vpos(n, j),
        vpos(n, i) + (j - i) <= vpos(n, j),
{
    lemma_clog2(n);
}

/// The slot of a logical leaf is a leaf-level node whose window spans
/// exactly the leaf's virtual positions.
pub proof fn lemma_slot(n: nat, i: int)
    requires
        n >= 1,
        0 <= i < n,
    ensures
        node(clog2(n), spec_slot(n, i)),
        n <= spec_slot(n, i) < 2 * n,
        vl(clog2(n), spec_slot(n, i)) == vpos(n, i),
        vr(clog2(n), spec_slot(n, i)) == vpos(n, i + 1),
{
    let k = clog2(n);
    let p = pow2(k);
    lemma_clog2(n);
    vstd::arithmetic::power2::lemma2_to64();
    lemma_pow2_adds(1, k);
    let v = spec_slot(n, i);
    if i + p < 2 * n {
        lemma_lg_eq(v, k);
        assert(vl(k, v) == v * 1 - p);
    } else {
        assert(i >= deep(n));
        if k == 0 {
            assert(p == 1);
        }
        assert(k >= 1);
        lemma_pow2_adds(1, (k - 1) as nat);
        assert(p == 2 * pow2((k - 1) as nat));
        lemma_lg_eq(v, (k - 1) as nat);
        assert(ht(k, v) == 1);
        assert(vl(k, v) == v * 2 - p);
    }
}

/// Recovering the logical leaf index from a leaf-level slot.
pub proof fn lemma_unslot(n: nat, v: nat)
    requires
        n >= 1,
        n <= v < 2 * n,
    ensures
        v >= pow2(clog2(n)) ==> 0 <= v - pow2(clog2(n)) < n && spec_slot(
            n,
            v - pow2(clog2(n)),
        ) == v,
        v < pow2(clog2(n)) ==> 0 <= v + n - pow2(clog2(n)) < n && spec_slot(
            n,
            v + n - pow2(clog2(n)),
        ) == v,
{
    lemma_clog2(n);
}

/// The logical boundary sitting at virtual position `b`, for positions that
/// are images of `vpos`.
pub open spec fn ivp(n: nat, b: int) -> int {
    if b <= deep(n) {
        b
    } else {
        (b + deep(n)) / 2
    }
}

/// `vpos` is injective and order-reflecting.
pub proof fn lemma_vpos_reflect(n: nat, i: int, j: int)
    requires
        n >= 1,
        0 <= i <= n,
        0 <= j <= n,
        vpos(n, i) <= vpos(n, j),
    ensures
        i <= j,
        vpos(n, i) == vpos(n, j) ==> i == j,
{
    if j < i {
        lemma_vpos_mono(n, j, i);
    }
    if i < j {
        lemma_vpos_mono(n, i, j);
    }
}

/// A position left of the deep boundary, or any even position, is an image
/// of `vpos`, recovered by `ivp`.
pub proof fn lemma_image(n: nat, b: int)
    requires
        n >= 1,
        0 <= b <= pow2(clog2(n)),
        b <= deep(n) || b % 2 == 0,
    ensures
        0 <= ivp(n, b) <= n,
        vpos(n, ivp(n, b)) == b,
{
    lemma_clog2(n);
    if b > deep(n) {
        let k = clog2(n);
        vstd::arithmetic::power2::lemma2_to64();
        if k == 0 {
            assert(pow2(0) == 1);
            assert(false);
        }
        lemma_pow2_adds(1, (k - 1) as nat);
        assert(pow2(k) == 2 * pow2((k - 1) as nat));
        assert(deep(n) % 2 == 0);
        assert(vpos(n, (b + deep(n)) / 2) == b);
    }
}

/// Every window boundary of an actual node is an image of `vpos`: on levels
/// above the bottom the boundaries are even, and on the bottom level they
/// stay below the deep-leaf count.
pub proof fn lemma_node_image(n: nat, u: nat)
    requires
        n >= 1,
        node(clog2(n), u),
        u < 2 * n,
    ensures
        0 <= ivp(n, vl(clog2(n), u)) <= n,
        vpos(n, ivp(n, vl(clog2(n), u))) == vl(clog2(n), u),
        0 <= ivp(n, vr(clog2(n), u)) <= n,
        vpos(n, ivp(n, vr(clog2(n), u))) == vr(clog2(n), u),
{
    let k = clog2(n);
    let h = ht(k, u);
    lemma_clog2(n);
    lemma_window_bounds(k, u);
    vstd::arithmetic::power2::lemma2_to64();
    if h == 0 {
        lemma_lg_bounds(u);
        assert(lg(u) == k);
        assert(u * pow2(0) == u) by (nonlinear_arith)
            requires
                pow2(0) == 1,
        ;
        assert(vr(k, u) <= deep(n));
    } else {
        lemma_pow2_adds(1, (h - 1) as nat);
        assert(pow2(h) == 2 * pow2((h - 1) as nat));
        assert(u * pow2(h) == 2 * (u * pow2((h - 1) as nat))) by (nonlinear_arith)
            requires
                pow2(h) == 2 * pow2((h - 1) as nat),
        ;
        assert(k >= 1);
        lemma_pow2_adds(1, (k - 1) as nat);
        assert(pow2(k) == 2 * pow2((k - 1) as nat));
        assert(vl(k, u) % 2 == 0);
        assert(vr(k, u) % 2 == 0);
    }
    lemma_image(n, vl(k, u));
    lemma_image(n, vr(k, u));
}

/// The root is node 1 and spans the whole virtual range.
pub proof fn lemma_root(n: nat)
    requires
        n >= 1,
    ensures
        node(clog2(n), 1),
        vl(clog2(n), 1) == 0,
        vr(clog2(n), 1) == pow2(clog2(n)),
{
    assert(1 * pow2(clog2(n)) == pow2(clog2(n))) by (nonlinear_arith);
}

/// Two powers of two in `[n, 2n)` coincide, so an exec search for the
/// smallest power of two at least `n` meets `clog2`.
pub proof fn lemma_clog2_unique(n: nat, e: nat)
    requires
        n >= 1,
        pow2(e) >= n,
        pow2(e) < 2 * n,
    ensures
        e == clog2(n),
{
    lemma_clog2(n);
    if e < clog2(n) {
        lemma_pow2_strictly_increases(e, clog2(n));
        vstd::arithmetic::power2::lemma2_to64();
        lemma_pow2_adds(1, e);
        lemma_pow2_le(e + 1, clog2(n));
    }
    if e > clog2(n) {
        vstd::arithmetic::power2::lemma2_to64();
        lemma_pow2_adds(1, clog2(n));
        lemma_pow2_le(clog2(n) + 1, e);
    }
}

/// Computes the smallest power of two at least `n`.
pub(crate) fn next_pow2(n: usize) -> (p: usize)
    requires
        1 <= n,
        n <= usize::MAX / 2,
    ensures
        p == pow2(clog2(n as nat)),
        n <= p < 2 * n,
{
    let mut p: usize = 1;
    let ghost mut e: nat = 0;
    proof {
        vstd::arithmetic::power2::lemma2_to64();
    }
    while p < n
        invariant
            n <= usize::MAX / 2,
            p == pow2(e),
            1 <= p,
            p == 1 || p < 2 * n,
        decreases 2 * n - p,
    {
        proof {
            lemma_pow2_adds(1, e);
            vstd::arithmetic::power2::lemma2_to64();
            e = e + 1;
        }
        p = 2 * p;
    }
    proof {
        lemma_clog2_unique(n as nat, e);
    }
    p
}

/// Strips the trailing zero bits of a node index, moving to the highest
/// ancestor whose window starts where the node's does.
pub(crate) fn strip_index(v: usize) -> (r: usize)
    requires
        v >= 1,
    ensures
        r == strip(v as nat),
        1 <= r <= v,
        r % 2 == 1,
{
    let mut r = v;
    while r % 2 == 0
        invariant
            1 <= r <= v,
            strip(r as nat) == strip(v as nat),
        decreases r,
    {
        r = r / 2;
    }
    proof {
        lemma_strip_basics(v as nat);
    }
    r
}

/// Computes the physical slot of logical leaf boundary `i` (with `i == n`
/// wrapping to the leftmost bottom-level slot).
pub(crate) fn slot_index(n: usize, p: usize, i: usize) -> (s: usize)
    requires
        1 <= n,
        n <= usize::MAX / 2,
        p == pow2(clog2(n as nat)),
        i <= n,
    ensures
        s == spec_slot(n as nat, i as int),
        n <= s < 2 * n || (i == n && s == p),
{
    proof {
        lemma_clog2(n as nat);
        if i < n {
            lemma_slot(n as nat, i as int);
        }
    }
    let c = 2 * n - p;
    if i < c {
        i + p
    } else {
        i - c + n
    }
}

/// Only powers of two strip to the root.
pub proof fn lemma_strip_one(v: nat)
    requires
        v >= 1,
        strip(v) == 1,
    ensures
        v == pow2(lg(v)),
    decreases v,
{
    vstd::arithmetic::power2::lemma2_to64();
    if v % 2 == 1 {
    } else {
        lemma_strip_one(v / 2);
        lemma_pow2_adds(1, lg(v / 2));
        assert(lg(v) == 1 + lg(v / 2));
    }
}

/// A power-of-two node sits on the tree's left edge: its window starts at 0.
pub proof fn lemma_vl_zero(k: nat, e: nat)
    requires
        e <= k,
    ensures
        vl(k, pow2(e)) == 0,
{
    lemma_lg_pow2(e);
    lemma_pow2_adds(e, (k - e) as nat);
}

/// Stripping preserves the right end of the window of the node just before:
/// the boundary marker of the right-to-left walk survives the move to the
/// highest node sharing its left end. Reaching the root means the marker
/// stood at the tree's right edge.
pub proof fn lemma_strip_prev(k: nat, l: nat)
    requires
        l >= 2,
        node(k, (l - 1) as nat),
    ensures
        strip(l) == 1 ==> vr(k, (l - 1) as nat) == pow2(k),
        strip(l) >= 2 ==> node(k, (strip(l) - 1) as nat) && vr(k, (strip(l) - 1) as nat) == vr(
            k,
            (l - 1) as nat,
        ),
    decreases l,
{
    vstd::arithmetic::power2::lemma2_to64();
    if l % 2 == 1 {
    } else if l == 2 {
        assert(strip(2nat) == 1);
        assert(1 * pow2(k) == pow2(k)) by (nonlinear_arith);
    } else {
        let m = (l - 1) as nat;
        lemma_prev_same_level(m);
        let u = (l / 2 - 1) as nat;
        assert(lg((l - 2) as nat) == lg(m));
        assert(lg(u) == lg(m) - 1) by {
            assert(lg((l - 2) as nat) == 1 + lg(((l - 2) / 2) as nat));
        }
        lemma_child(k, u);
        assert(2 * u + 1 == m);
        lemma_strip_prev(k, l / 2);
        assert(strip(l) == strip(l / 2));
    }
}

/// Stripping a power of two reaches the root.
pub proof fn lemma_strip_pow2(e: nat)
    ensures
        strip(pow2(e)) == 1,
    decreases e,
{
    vstd::arithmetic::power2::lemma2_to64();
    if e > 0 {
        lemma_pow2_adds(1, (e - 1) as nat);
        assert(pow2(e) == 2 * pow2((e - 1) as nat));
        lemma_pow2_pos((e - 1) as nat);
        lemma_strip_pow2((e - 1) as nat);
    }
}

} // verus!
