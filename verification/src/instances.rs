//! Ready-made algebra instances over `u32` arithmetic taken modulo 2^32: a
//! plain sum monoid, an affine-function monoid, a (sum, count) monoid, and
//! the affine action on (sum, count) pairs used for range-affine /
//! range-sum workloads.

use crate::algebra::{Action, Monoid};
use crate::wrap32::{
    aw, lemma_aw_acbd, lemma_aw_assoc, lemma_aw_is_wrapping, lemma_aw_zero, lemma_mw_assoc,
    lemma_mw_aw_dist, lemma_mw_comm, lemma_mw_is_wrapping, lemma_mw_one, lemma_mw_zero, mw,
};
use vstd::prelude::*;

verus! {

/// `u32` under sum modulo 2^32, with identity 0.
impl Monoid for u32 {
    open spec fn spec_id() -> u32 {
        0
    }

    open spec fn spec_op(self, other: u32) -> u32 {
        aw(self, other)
    }

    proof fn op_assoc(a: u32, b: u32, c: u32) {
        lemma_aw_assoc(a, b, c);
    }

    proof fn id_left(a: u32) {
        lemma_aw_zero(a);
    }

    proof fn id_right(a: u32) {
        lemma_aw_zero(a);
    }

    fn id() -> (r: u32) {
        0
    }

    fn op(&self, other: &u32) -> (r: u32) {
        proof {
            lemma_aw_is_wrapping(*self, *other);
        }
        self.wrapping_add(*other)
    }
}

/// The affine function `x -> a * x + b` over `u32` arithmetic modulo 2^32,
/// stored as the pair `(a, b)`.
#[derive(Clone, Copy, PartialEq, Eq, Debug)]
pub struct Affine(pub u32, pub u32);

/// Composition of affine functions: `Affine(a, b)` composed over
/// `Affine(c, d)` is `x -> a * (c * x + d) + b`, so the identity is `(1, 0)`.
impl Monoid for Affine {
    open spec fn spec_id() -> Affine {
        Affine(1, 0)
    }

    open spec fn spec_op(self, other: Affine) -> Affine {
        Affine(mw(self.0, other.0), aw(mw(self.0, other.1), self.1))
    }

    proof fn op_assoc(a: Affine, b: Affine, c: Affine) {
        lemma_mw_assoc(a.0, b.0, c.0);
        lemma_mw_aw_dist(a.0, mw(b.0, c.1), b.1);
        lemma_mw_assoc(a.0, b.0, c.1);
        lemma_aw_assoc(mw(mw(a.0, b.0), c.1), mw(a.0, b.1), a.1);
    }

    proof fn id_left(a: Affine) {
        lemma_mw_one(a.0);
        lemma_mw_one(a.1);
        lemma_aw_zero(a.1);
    }

    proof fn id_right(a: Affine) {
        lemma_mw_one(a.0);
        lemma_mw_zero(a.0);
        lemma_aw_zero(a.1);
    }

    fn id() -> (r: Affine) {
        Affine(1, 0)
    }

    fn op(&self, other: &Affine) -> (r: Affine) {
        let scale = self.0.wrapping_mul(other.0);
        let shift_scaled = self.0.wrapping_mul(other.1);
        let shift = shift_scaled.wrapping_add(self.1);
        proof {
            lemma_mw_is_wrapping(self.0, other.0);
            lemma_mw_is_wrapping(self.0, other.1);
            lemma_aw_is_wrapping(shift_scaled, self.1);
        }
        Affine(scale, shift)
    }
}

/// A running sum together with an element count, both modulo 2^32.
#[derive(Clone, Copy, PartialEq, Eq, Debug)]
pub struct SumCount(pub u32, pub u32);

/// Component-wise sum modulo 2^32, with identity `(0, 0)`.
impl Monoid for SumCount {
    open spec fn spec_id() -> SumCount {
        SumCount(0, 0)
    }

    open spec fn spec_op(self, other: SumCount) -> SumCount {
        SumCount(aw(self.0, other.0), aw(self.1, other.1))
    }

    proof fn op_assoc(a: SumCount, b: SumCount, c: SumCount) {
        lemma_aw_assoc(a.0, b.0, c.0);
        lemma_aw_assoc(a.1, b.1, c.1);
    }

    proof fn id_left(a: SumCount) {
        lemma_aw_zero(a.0);
        lemma_aw_zero(a.1);
    }

    proof fn id_right(a: SumCount) {
        lemma_aw_zero(a.0);
        lemma_aw_zero(a.1);
    }

    fn id() -> (r: SumCount) {
        SumCount(0, 0)
    }

    fn op(&self, other: &SumCount) -> (r: SumCount) {
        proof {
            lemma_aw_is_wrapping(self.0, other.0);
            lemma_aw_is_wrapping(self.1, other.1);
        }
        SumCount(self.0.wrapping_add(other.0), self.1.wrapping_add(other.1))
    }
}

/// `Affine(a, b)` acts on a `(sum, count)` pair by `(s, c) -> (a*s + b*c, c)`:
/// adding `b` to each of the `c` underlying elements and scaling them by `a`.
impl Action<SumCount> for Affine {
    open spec fn spec_id() -> Affine {
        Affine(1, 0)
    }

    open spec fn spec_comp(self, other: Affine) -> Affine {
        <Affine as Monoid>::spec_op(self, other)
    }

    open spec fn spec_map(self, x: SumCount) -> SumCount {
        SumCount(aw(mw(self.0, x.0), mw(self.1, x.1)), x.1)
    }

    proof fn id_map(x: SumCount) {
        lemma_mw_one(x.0);
        lemma_mw_zero(x.1);
        lemma_aw_zero(x.0);
    }

    proof fn comp_id_left(t: Affine) {
        <Affine as Monoid>::id_left(t);
    }

    proof fn comp_id_right(t: Affine) {
        <Affine as Monoid>::id_right(t);
    }

    proof fn comp_map(a: Affine, b: Affine, x: SumCount) {
        lemma_mw_comm(aw(mw(a.0, b.1), a.1), x.1);
        lemma_mw_aw_dist(x.1, mw(a.0, b.1), a.1);
        lemma_mw_comm(x.1, mw(a.0, b.1));
        lemma_mw_comm(x.1, a.1);
        lemma_mw_assoc(a.0, b.1, x.1);
        lemma_mw_assoc(a.0, b.0, x.0);
        lemma_mw_aw_dist(a.0, mw(b.0, x.0), mw(b.1, x.1));
        lemma_aw_assoc(mw(mw(a.0, b.0), x.0), mw(a.0, mw(b.1, x.1)), mw(a.1, x.1));
    }

    proof fn map_distributes(t: Affine, x: SumCount, y: SumCount) {
        lemma_mw_aw_dist(t.0, x.0, y.0);
        lemma_mw_aw_dist(t.1, x.1, y.1);
        lemma_aw_acbd(mw(t.0, x.0), mw(t.0, y.0), mw(t.1, x.1), mw(t.1, y.1));
    }

    fn id() -> (r: Affine) {
        Affine(1, 0)
    }

    fn comp(&self, other: &Affine) -> (r: Affine) {
        <Affine as Monoid>::op(self, other)
    }

    fn map(&self, x: &SumCount) -> (r: SumCount) {
        let scaled = self.0.wrapping_mul(x.0);
        let added = self.1.wrapping_mul(x.1);
        proof {
            lemma_mw_is_wrapping(self.0, x.0);
            lemma_mw_is_wrapping(self.1, x.1);
            lemma_aw_is_wrapping(scaled, added);
        }
        SumCount(scaled.wrapping_add(added), x.1)
    }
}

} // verus!
