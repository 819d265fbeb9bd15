//! Arithmetic over `u32` values taken modulo 2^32, at the specification
//! level, with the small lemma kit the algebra instances need. The two
//! operations are kept opaque so that proofs go by these lemmas instead of
//! raw modulus reasoning.

use vstd::arithmetic::div_mod::{
    lemma_add_mod_noop, lemma_mul_mod_noop_left, lemma_mul_mod_noop_right, lemma_small_mod,
};
use vstd::arithmetic::mul::{
    lemma_mul_is_associative, lemma_mul_is_commutative, lemma_mul_is_distributive_add,
};
use vstd::prelude::*;

verus! {

/// The product of `x` and `y` modulo 2^32.
#[verifier::opaque]
pub open spec fn mw(x: u32, y: u32) -> u32 {
    ((x * y) % 0x1_0000_0000) as u32
}

/// The sum of `x` and `y` modulo 2^32.
#[verifier::opaque]
pub open spec fn aw(x: u32, y: u32) -> u32 {
    ((x + y) % 0x1_0000_0000) as u32
}

/// `wrapping_add` computes the modular sum.
pub proof fn lemma_aw_is_wrapping(x: u32, y: u32)
    ensures
        aw(x, y) == vstd::wrapping::u32_specs::wrapping_add(x, y),
{
    reveal(aw);
    if x + y <= u32::MAX {
        lemma_small_mod((x + y) as nat, 0x1_0000_0000);
    } else {
        lemma_small_mod((x + y - 0x1_0000_0000) as nat, 0x1_0000_0000);
        assert((x + y) % 0x1_0000_0000 == ((x + y - 0x1_0000_0000) + 1 * 0x1_0000_0000)
            % 0x1_0000_0000);
        vstd::arithmetic::div_mod::lemma_mod_multiples_vanish(
            1,
            x + y - 0x1_0000_0000,
            0x1_0000_0000,
        );
    }
}

/// `wrapping_mul` computes the modular product.
pub proof fn lemma_mw_is_wrapping(x: u32, y: u32)
    ensures
        mw(x, y) == vstd::wrapping::u32_specs::wrapping_mul(x, y),
{
    reveal(mw);
    vstd::arithmetic::mul::lemma_mul_nonnegative(x as int, y as int);
}

/// Modular addition is associative.
pub proof fn lemma_aw_assoc(a: u32, b: u32, c: u32)
    ensures
        aw(aw(a, b), c) == aw(a, aw(b, c)),
{
    reveal(aw);
    let m: int = 0x1_0000_0000;
    lemma_small_mod(a as nat, m as nat);
    lemma_small_mod(c as nat, m as nat);
    lemma_add_mod_noop(a + b, c as int, m);
    lemma_add_mod_noop(a as int, b + c, m);
}


/// Zero is neutral for modular addition.
pub proof fn lemma_aw_zero(a: u32)
    ensures
        aw(a, 0) == a,
        aw(0, a) == a,
{
    reveal(aw);
    lemma_small_mod(a as nat, 0x1_0000_0000);
}

/// Modular multiplication is associative.
pub proof fn lemma_mw_assoc(a: u32, b: u32, c: u32)
    ensures
        mw(mw(a, b), c) == mw(a, mw(b, c)),
{
    reveal(mw);
    let m: int = 0x1_0000_0000;
    lemma_mul_mod_noop_left(a * b, c as int, m);
    lemma_mul_is_associative(a as int, b as int, c as int);
    lemma_mul_mod_noop_right(a as int, b * c, m);
}

/// Modular multiplication is commutative.
pub proof fn lemma_mw_comm(a: u32, b: u32)
    ensures
        mw(a, b) == mw(b, a),
{
    reveal(mw);
    lemma_mul_is_commutative(a as int, b as int);
}

/// One is neutral for modular multiplication.
pub proof fn lemma_mw_one(a: u32)
    ensures
        mw(1, a) == a,
        mw(a, 1) == a,
{
    reveal(mw);
    lemma_mul_is_commutative(1, a as int);
    lemma_small_mod(a as nat, 0x1_0000_0000);
}

/// Zero annihilates under modular multiplication.
pub proof fn lemma_mw_zero(a: u32)
    ensures
        mw(a, 0) == 0,
        mw(0, a) == 0,
{
    reveal(mw);
    lemma_mul_is_commutative(0, a as int);
}

/// Four modular summands can be regrouped across the two pairs.
pub proof fn lemma_aw_acbd(a: u32, b: u32, c: u32, d: u32)
    ensures
        aw(aw(a, b), aw(c, d)) == aw(aw(a, c), aw(b, d)),
{
    reveal(aw);
    let m: int = 0x1_0000_0000;
    lemma_add_mod_noop(a + b, c + d, m);
    lemma_add_mod_noop(a + c, b + d, m);
}

/// Modular multiplication distributes over modular addition.
pub proof fn lemma_mw_aw_dist(a: u32, x: u32, y: u32)
    ensures
        mw(a, aw(x, y)) == aw(mw(a, x), mw(a, y)),
{
    reveal(mw);
    reveal(aw);
    let m: int = 0x1_0000_0000;
    lemma_mul_mod_noop_right(a as int, x + y, m);
    lemma_mul_is_distributive_add(a as int, x as int, y as int);
    lemma_add_mod_noop(a * x, a * y, m);
}

} // verus!
