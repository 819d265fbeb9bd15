//! Arithmetic in the integers modulo a compile-time constant `M`: a thin
//! wrapper over `u32` with modular addition, subtraction, multiplication,
//! inversion and division.

use crate::integer::spec_gcd;
use vstd::arithmetic::div_mod::{
    lemma_fundamental_div_mod, lemma_mod_bound, lemma_mod_multiples_vanish,
    lemma_mul_mod_noop_general, lemma_mul_mod_noop_left, lemma_small_mod,
};
use vstd::prelude::*;

verus! {

/// A residue modulo `M`. The raw representative is public, as the workloads
/// that build tables read it directly; the contracts speak of residues that
/// are already reduced below `M`.
#[derive(Clone, Copy, PartialEq, Eq, Debug)]
pub struct ModInt<const M: u32>(pub u32);

/// Builds the residue of `x` modulo `M`.
pub fn mint<const M: u32>(x: u64) -> (r: ModInt<M>)
    requires
        M >= 1,
    ensures
        r.0 == x % (M as u64),
        r.0 < M,
{
    ModInt((x % M as u64) as u32)
}

impl<const M: u32> ModInt<M> {
    /// Whether the representative is reduced.
    pub open spec fn reduced(self) -> bool {
        self.0 < M
    }

    /// Reduces the representative below `M`.
    pub fn normalize(self) -> (r: Self)
        requires
            M >= 1,
        ensures
            r.0 == self.0 % M,
            r.reduced(),
    {
        ModInt(self.0 % M)
    }

    /// The reduced representative.
    pub fn get(self) -> (r: u32)
        ensures
            r == self.0,
    {
        self.0
    }

    /// The representative shifted into `(-M, 0]`: zero stays zero, anything
    /// else becomes `self.0 - M`.
    pub fn get_negative(self) -> (r: i32)
        requires
            self.reduced(),
            M <= 0x7fff_ffff,
        ensures
            self.0 == 0 ==> r == 0,
            self.0 != 0 ==> r == self.0 - M,
    {
        if self.0 == 0 {
            0
        } else {
            self.0 as i32 - M as i32
        }
    }

    /// Modular addition.
    pub fn add(self, other: Self) -> (r: Self)
        requires
            self.reduced(),
            other.reduced(),
        ensures
            r.0 == (self.0 + other.0) % (M as int),
            r.reduced(),
    {
        let s = self.0 as u64 + other.0 as u64;
        if s < M as u64 {
            proof {
                lemma_small_mod(s as nat, M as nat);
            }
            ModInt(s as u32)
        } else {
            proof {
                lemma_mod_multiples_vanish(1, s - M, M as int);
                lemma_small_mod((s - M) as nat, M as nat);
            }
            ModInt((s - M as u64) as u32)
        }
    }

    /// Modular subtraction.
    pub fn sub(self, other: Self) -> (r: Self)
        requires
            self.reduced(),
            other.reduced(),
        ensures
            r.0 == (self.0 - other.0) % (M as int),
            r.reduced(),
    {
        if self.0 >= other.0 {
            proof {
                lemma_small_mod((self.0 - other.0) as nat, M as nat);
            }
            ModInt(self.0 - other.0)
        } else {
            let s = self.0 as u64 + M as u64 - other.0 as u64;
            proof {
                lemma_mod_multiples_vanish(1, self.0 - other.0, M as int);
                lemma_small_mod(s as nat, M as nat);
            }
            ModInt(s as u32)
        }
    }

    /// Modular negation.
    pub fn neg(self) -> (r: Self)
        requires
            self.reduced(),
        ensures
            r.0 == (0 - self.0) % (M as int),
            r.reduced(),
    {
        ModInt(0).sub(self)
    }

    /// Modular multiplication.
    pub fn mul(self, other: Self) -> (r: Self)
        requires
            M >= 1,
            self.reduced(),
            other.reduced(),
        ensures
            r.0 == (self.0 * other.0) % (M as int),
            r.reduced(),
    {
        proof {
            assert((self.0 as u64 * other.0 as u64) < 0x1_0000_0000_0000_0000) by (nonlinear_arith)
                requires
                    self.0 <= 0xffff_ffffu32,
                    other.0 <= 0xffff_ffffu32,
            ;
            lemma_mod_bound(self.0 as u64 * other.0 as u64, M as int);
        }
        ModInt(((self.0 as u64 * other.0 as u64) % M as u64) as u32)
    }

    /// The modular inverse, through the extended Euclidean algorithm.
    pub fn inv(self) -> (r: Self)
        requires
            2 <= M <= 0x7fff_ffff,
            self.reduced(),
            self.0 != 0,
            spec_gcd(self.0 as nat, M as nat) == 1,
        ensures
            r.reduced(),
            (r.0 * self.0) % (M as int) == 1,
    {
        let (g, u, _v) = crate::integer::ext_gcd(self.0 as i64, M as i64);
        let ghost gu = u as int;
        let ghost gv = _v as int;
        proof {
            lemma_mod_bound(u as int, M as int);
        }
        let ru = u.checked_rem_euclid(M as i64).unwrap();
        proof {
            let mi = M as int;
            let xi = self.0 as int;
            lemma_mul_mod_noop_left(gu, xi, mi);
            lemma_fundamental_div_mod(gu, mi);
            assert(ru == gu % mi);
            assert(gu * xi == 1 - gv * mi) by (nonlinear_arith)
                requires
                    gu * xi + gv * mi == 1,
            ;
            lemma_mod_multiples_vanish(-gv, 1, mi);
            assert(mi * (-gv) + 1 == 1 - gv * mi) by (nonlinear_arith);
            lemma_small_mod(1, M as nat);
            assert((ru * xi) % mi == 1);
        }
        ModInt(ru as u32)
    }

    /// Modular division: multiplication by the inverse of `other`.
    pub fn div(self, other: Self) -> (r: Self)
        requires
            2 <= M <= 0x7fff_ffff,
            self.reduced(),
            other.reduced(),
            other.0 != 0,
            spec_gcd(other.0 as nat, M as nat) == 1,
        ensures
            r.reduced(),
            (r.0 * other.0) % (M as int) == (self.0 as int) % (M as int),
    {
        let oi = other.inv();
        let r = self.mul(oi);
        proof {
            let mi = M as int;
            let a = self.0 as int;
            let b = other.0 as int;
            let w = oi.0 as int;
            lemma_mul_mod_noop_general(a * w, b, mi);
            assert((a * w) * b == a * (w * b)) by (nonlinear_arith);
            lemma_mul_mod_noop_general(a, w * b, mi);
            lemma_small_mod(1, M as nat);
            assert((a * 1) == a) by (nonlinear_arith);
            assert((r.0 * b) % mi == ((a * w) % mi * b) % mi);
            assert(((a * w) % mi * b) % mi == ((a * w) * b) % mi) by {
                lemma_mul_mod_noop_general(a * w, b, mi);
            }
            assert((a * (w * b)) % mi == (a * ((w * b) % mi)) % mi) by {
                lemma_mul_mod_noop_general(a, w * b, mi);
            }
            lemma_small_mod(self.0 as nat, M as nat);
        }
        r
    }
}

} // verus!
