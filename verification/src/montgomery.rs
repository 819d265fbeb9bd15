//! Montgomery reduction over `u64` moduli: fixed-point computation of the
//! modular inverse of the modulus, and the reduction primitive used by the
//! factoring routines. Every operation is total and free of overflow; for
//! a well-formed context (an odd modulus below 2^63) the contracts state
//! the residues exactly.

use vstd::arithmetic::div_mod::{
    lemma_fundamental_div_mod, lemma_mod_bound, lemma_mod_mod, lemma_mod_multiples_vanish,
    lemma_mul_mod_noop_left, lemma_mul_mod_noop_right, lemma_sub_mod_noop,
};
use vstd::prelude::*;
use vstd::wrapping::{u128_specs, u64_specs};

verus! {

/// `ninv` inverts `n` modulo 2^64.
pub open spec fn inv_ok(n: u64, ninv: u64) -> bool {
    (n as int * ninv as int) % 0x1_0000_0000_0000_0000 == 1
}

/// One Newton step doubles the modulus to which `x` inverts `n`: from an
/// inverse modulo `m` it computes one modulo `m * m`, as long as `m * m`
/// still divides 2^64.
proof fn lemma_newton_step(n: u64, x: u64, x2: u64, m: int)
    requires
        2 <= m,
        0x1_0000_0000_0000_0000int % (m * m) == 0,
        (n as int * x as int) % m == 1,
        x2 == u64_specs::wrapping_mul(
            x,
            u64_specs::wrapping_sub(2u64, u64_specs::wrapping_mul(n, x)),
        ),
    ensures
        (n as int * x2 as int) % (m * m) == 1,
{
    let mm = 0x1_0000_0000_0000_0000int;
    let m2 = m * m;
    let ni = n as int;
    let xi = x as int;
    let u = ni * xi;
    let v = u64_specs::wrapping_mul(n, x) as int;
    assert(v == u % mm);
    let w = u64_specs::wrapping_sub(2u64, u64_specs::wrapping_mul(n, x)) as int;
    assert(0 <= v < mm) by {
        lemma_mod_bound(u, mm);
    }
    assert(w == (2 - v) % mm) by {
        if 2 - v < 0 {
            assert((2 - v) % mm == 2 - v + mm);
        } else {
            assert((2 - v) % mm == 2 - v);
        }
    }
    let x2i = x2 as int;
    assert(x2i == (xi * w) % mm);
    assert(m2 >= 4) by (nonlinear_arith)
        requires
            m >= 2,
            m2 == m * m,
    ;
    lemma_fundamental_div_mod(mm, m2);
    let k = mm / m2;
    assert(mm == m2 * k);
    assert(k >= 1) by (nonlinear_arith)
        requires
            mm == m2 * k,
            mm > 0,
            m2 > 0,
    ;
    // x2 agrees with x * w modulo m * m
    lemma_mod_mod(xi * w, m2, k);
    assert(x2i % m2 == (xi * w) % m2);
    // push n inside: (n * x2) == (n * x * w) modulo m * m
    lemma_mul_mod_noop_right(ni, x2i, m2);
    lemma_mul_mod_noop_right(ni, xi * w, m2);
    assert(ni * (xi * w) == u * w) by (nonlinear_arith)
        requires
            u == ni * xi,
    ;
    assert((ni * x2i) % m2 == (u * w) % m2);
    // w agrees with 2 - u modulo m * m
    lemma_mod_mod(2 - v, m2, k);
    assert(w % m2 == (2 - v) % m2);
    lemma_sub_mod_noop(2, v, m2);
    lemma_sub_mod_noop(2, u, m2);
    lemma_mod_mod(u, m2, k);
    assert((2 - v) % m2 == (2 - u) % m2) by {
        assert(v % m2 == u % m2);
        assert((2int % m2 - v % m2) % m2 == (2 - v) % m2);
        assert((2int % m2 - u % m2) % m2 == (2 - u) % m2);
    }
    lemma_mul_mod_noop_right(u, w, m2);
    lemma_mul_mod_noop_right(u, 2 - u, m2);
    assert((u * w) % m2 == (u * (2 - u)) % m2);
    // the quadratic identity: u * (2 - u) == 1 - (u - 1)^2
    assert(u * (2 - u) == 1 - (u - 1) * (u - 1)) by (nonlinear_arith);
    // u == 1 modulo m, so (u - 1)^2 is a multiple of m * m
    lemma_fundamental_div_mod(u, m);
    let c = u / m;
    assert(u - 1 == m * c);
    assert((u - 1) * (u - 1) == m2 * (c * c)) by (nonlinear_arith)
        requires
            u - 1 == m * c,
            m2 == m * m,
    ;
    lemma_mod_multiples_vanish(-(c * c), 1, m2);
    assert(m2 * (-(c * c)) + 1 == 1 - m2 * (c * c)) by (nonlinear_arith);
    vstd::arithmetic::div_mod::lemma_small_mod(1nat, m2 as nat);
    assert(1int % m2 == 1);
    assert((u * (2 - u)) % m2 == 1);
}

/// The Montgomery context for an odd modulus `n`: `ninv` inverts `n`
/// modulo 2^64, `r` is the residue of 2^64 and `r2` the residue of 2^128.
pub struct Montgomery {
    /// The modulus.
    pub n: u64,
    /// The inverse of `n` modulo 2^64, for odd `n`.
    pub ninv: u64,
    /// `2^64 % n`.
    pub r: u64,
    /// `2^128 % n`.
    pub r2: u64,
}

impl Montgomery {
    /// The context carries what the reduction arguments rest on: an odd
    /// modulus below 2^63, its exact inverse modulo 2^64, and the exact
    /// residues of the two powers of 2^64.
    pub open spec fn wf(&self) -> bool {
        &&& 1 <= self.n < 0x8000_0000_0000_0000
        &&& inv_ok(self.n, self.ninv)
        &&& self.r as int == 0x1_0000_0000_0000_0000int % (self.n as int)
        &&& self.r2 as int == (0x1_0000_0000_0000_0000int * 0x1_0000_0000_0000_0000int) % (
        self.n as int)
    }

    /// Prepares the context for modulus `n`: the residues of 2^64 and of
    /// 2^128 are exactly what their fields say, and for an odd modulus
    /// below 2^63 the whole context is well formed.
    pub fn new(n: u64) -> (m: Montgomery)
        requires
            n >= 1,
        ensures
            m.n == n,
            m.r == 0x1_0000_0000_0000_0000int % (n as int),
            m.r2 == (0x1_0000_0000_0000_0000int * 0x1_0000_0000_0000_0000int) % (n as int),
            m.r < n || n == 1,
            m.r2 < n || n == 1,
            n % 2 == 1 ==> inv_ok(n, m.ninv),
            n % 2 == 1 && n < 0x8000_0000_0000_0000 ==> m.wf(),
    {
        let ninv = Montgomery::inv(n);
        let r = (u64::MAX - n + 1) % n;
        proof {
            vstd::arithmetic::div_mod::lemma_mod_add_multiples_vanish(
                0x1_0000_0000_0000_0000int - n as int,
                n as int,
            );
            assert(r == 0x1_0000_0000_0000_0000int % (n as int));
            assert((r as u128 * r as u128) < 0x1_0000_0000_0000_0000_0000_0000_0000_0000int)
                by (nonlinear_arith)
                requires
                    r as u128 <= 0xffff_ffff_ffff_ffffu128,
            ;
        }
        let wide = r as u128 * r as u128;
        let r2 = (wide % n as u128) as u64;
        proof {
            vstd::arithmetic::div_mod::lemma_mul_mod_noop(
                0x1_0000_0000_0000_0000int,
                0x1_0000_0000_0000_0000int,
                n as int,
            );
            if n > 1 {
                lemma_mod_bound(wide as int, n as int);
            }
        }
        Montgomery { n, ninv, r, r2 }
    }

    /// The modulus.
    pub fn modulo(&self) -> (r: u64)
        ensures
            r == self.n,
    {
        self.n
    }

    /// The fixed-point iteration for the inverse of `n` modulo 2^64: each
    /// step doubles the modulus to which the result inverts `n`, so six
    /// steps from 1 reach 2^64 exactly, for odd `n`.
    fn inv(n: u64) -> (r: u64)
        ensures
            n % 2 == 1 ==> inv_ok(n, r),
    {
        let x0: u64 = 1;
        let x1 = x0.wrapping_mul(2u64.wrapping_sub(n.wrapping_mul(x0)));
        proof {
            if n % 2 == 1 {
                assert((n as int * x0 as int) % 2 == 1);
                lemma_newton_step(n, x0, x1, 2);
            }
        }
        let x2 = x1.wrapping_mul(2u64.wrapping_sub(n.wrapping_mul(x1)));
        proof {
            if n % 2 == 1 {
                lemma_newton_step(n, x1, x2, 4);
            }
        }
        let x3 = x2.wrapping_mul(2u64.wrapping_sub(n.wrapping_mul(x2)));
        proof {
            if n % 2 == 1 {
                lemma_newton_step(n, x2, x3, 16);
            }
        }
        let x4 = x3.wrapping_mul(2u64.wrapping_sub(n.wrapping_mul(x3)));
        proof {
            if n % 2 == 1 {
                lemma_newton_step(n, x3, x4, 256);
            }
        }
        let x5 = x4.wrapping_mul(2u64.wrapping_sub(n.wrapping_mul(x4)));
        proof {
            if n % 2 == 1 {
                lemma_newton_step(n, x4, x5, 65536);
            }
        }
        let x6 = x5.wrapping_mul(2u64.wrapping_sub(n.wrapping_mul(x5)));
        proof {
            if n % 2 == 1 {
                lemma_newton_step(n, x5, x6, 0x1_0000_0000);
            }
        }
        x6
    }

    /// Montgomery reduction of a double-width value: for a well-formed
    /// context and `x` below `n * 2^64` the result is below `n` and,
    /// multiplied back by 2^64, leaves the residue of `x` unchanged.
    #[verifier::rlimit(100)]
    pub fn redc(&self, x: u128) -> (t: u64)
        requires
            self.n >= 1,
        ensures
            self.wf() && (x as int) < (self.n as int) * 0x1_0000_0000_0000_0000 ==> t < self.n && (
            t as int * 0x1_0000_0000_0000_0000) % (self.n as int) == (x as int) % (self.n as int),
    {
        let low = (x % 0x1_0000_0000_0000_0000u128) as u64;
        let m = low.wrapping_mul(self.ninv);
        let sub = (m as u128).wrapping_mul(self.n as u128);
        let diffv = x.wrapping_sub(sub);
        let traw = (diffv >> 64) as u64;
        proof {
            vstd::bits::lemma_u128_shr_is_div(diffv, 64);
            vstd::arithmetic::power2::lemma2_to64();
            let mm = 0x1_0000_0000_0000_0000int;
            let two128 = 0x1_0000_0000_0000_0000_0000_0000_0000_0000int;
            assert((diffv >> 64) as int == diffv as int / mm);
            assert(diffv as int / mm < mm) by (nonlinear_arith)
                requires
                    mm == 0x1_0000_0000_0000_0000int,
                    0 <= (diffv as int) < 0x1_0000_0000_0000_0000_0000_0000_0000_0000int,
            ;
            assert(traw as int == diffv as int / mm);
            if self.wf() && (x as int) < (self.n as int) * mm {
                let nn = self.n as int;
                let xi = x as int;
                let ninvi = self.ninv as int;
                let mi = m as int;
                assert(low as int == xi % mm);
                assert(mi == ((xi % mm) * ninvi) % mm);
                assert(0 <= mi < mm) by {
                    lemma_mod_bound((xi % mm) * ninvi, mm);
                }
                // sub is exactly m * n: the product stays under 2^128
                assert(0 <= (mi * nn) < two128) by (nonlinear_arith)
                    requires
                        two128 == 0x1_0000_0000_0000_0000_0000_0000_0000_0000int,
                        0 <= mi < 0x1_0000_0000_0000_0000int,
                        0 <= nn < 0x1_0000_0000_0000_0000int,
                ;
                let subi = sub as int;
                assert(subi == mi * nn) by {
                    assert(sub == u128_specs::wrapping_mul(m as u128, self.n as u128));
                }
                // m * n has the same low word as x
                assert((mi * nn) % mm == xi % mm) by {
                    lemma_mul_mod_noop_left((xi % mm) * ninvi, nn, mm);
                    assert((mi * nn) % mm == (((xi % mm) * ninvi) * nn) % mm);
                    assert(((xi % mm) * ninvi) * nn == (xi % mm) * (ninvi * nn))
                        by (nonlinear_arith);
                    lemma_mul_mod_noop_right(xi % mm, ninvi * nn, mm);
                    assert(ninvi * nn == nn * ninvi) by (nonlinear_arith);
                    assert((ninvi * nn) % mm == 1);
                    assert(((xi % mm) * 1) % mm == (xi % mm) % mm);
                    lemma_mod_mod(xi, mm, 1);
                    assert((xi % mm) % mm == xi % mm);
                }
                // so the difference is an exact multiple of 2^64
                let d = xi - subi;
                assert(d % mm == 0) by {
                    lemma_sub_mod_noop(xi, mi * nn, mm);
                    assert((xi % mm - (mi * nn) % mm) % mm == (xi - mi * nn) % mm);
                }
                lemma_fundamental_div_mod(d, mm);
                let q = d / mm;
                assert(d == mm * q);
                assert(d < nn * mm);
                assert(d > -(nn * mm)) by (nonlinear_arith)
                    requires
                        mm == 0x1_0000_0000_0000_0000int,
                        xi >= 0,
                        subi == mi * nn,
                        0 <= mi < 0x1_0000_0000_0000_0000int,
                        1 <= nn,
                        d == xi - subi,
                ;
                assert(-nn < q < nn) by (nonlinear_arith)
                    requires
                        d == 0x1_0000_0000_0000_0000int * q,
                        -(nn * 0x1_0000_0000_0000_0000int) < d < nn * 0x1_0000_0000_0000_0000int,
                ;
                // the difference modulo n is the residue of x
                assert(d % nn == xi % nn) by {
                    lemma_mod_multiples_vanish(-mi, xi, nn);
                    assert(nn * (-mi) + xi == xi - mi * nn) by (nonlinear_arith);
                }
                assert(diffv == u128_specs::wrapping_sub(x, sub));
                if d >= 0 {
                    assert(diffv as int == d);
                    assert(traw as int == q) by (nonlinear_arith)
                        requires
                            traw as int == d / 0x1_0000_0000_0000_0000int,
                            d == 0x1_0000_0000_0000_0000int * q,
                    ;
                    assert(traw < self.n);
                    assert((traw as int) < 0x8000_0000_0000_0000);
                    assert((traw as int * mm) % nn == xi % nn) by {
                        assert(traw as int * mm == mm * q) by (nonlinear_arith)
                            requires
                                traw as int == q,
                                mm == 0x1_0000_0000_0000_0000int,
                        ;
                    }
                } else {
                    assert(diffv as int == d + two128);
                    assert(diffv as int == mm * (q + mm)) by (nonlinear_arith)
                        requires
                            d == 0x1_0000_0000_0000_0000int * q,
                            mm == 0x1_0000_0000_0000_0000int,
                            two128 == 0x1_0000_0000_0000_0000_0000_0000_0000_0000int,
                            diffv as int == d + two128,
                    ;
                    assert(traw as int == q + mm) by (nonlinear_arith)
                        requires
                            traw as int == diffv as int / 0x1_0000_0000_0000_0000int,
                            diffv as int == 0x1_0000_0000_0000_0000int * (q
                                + 0x1_0000_0000_0000_0000int),
                            mm == 0x1_0000_0000_0000_0000int,
                    ;
                    assert((traw as int) >= 0x8000_0000_0000_0000) by {
                        assert(q > -nn);
                        assert(nn < 0x8000_0000_0000_0000);
                    }
                    let t = u64_specs::wrapping_add(traw, self.n);
                    assert(t as int == q + nn) by {
                        assert(traw as int + nn == q + mm + nn);
                        assert(q + mm + nn > 0xffff_ffff_ffff_ffff);
                    }
                    assert(t < self.n);
                    assert((t as int * mm) % nn == xi % nn) by {
                        lemma_mod_multiples_vanish(mm, q * mm, nn);
                        assert(t as int * mm == nn * mm + q * mm) by (nonlinear_arith)
                            requires
                                t as int == q + nn,
                                mm == 0x1_0000_0000_0000_0000int,
                        ;
                        assert(q * mm == mm * q) by (nonlinear_arith);
                    }
                }
            }
        }
        if traw >= 0x8000_0000_0000_0000 {
            traw.wrapping_add(self.n)
        } else {
            traw
        }
    }

    /// The Montgomery form of `x`: for a well-formed context the result,
    /// multiplied back by 2^64, has the residue of `x * 2^128`.
    pub fn mul_r(&self, x: u64) -> (r: u64)
        requires
            self.n >= 1,
        ensures
            self.wf() ==> r < self.n && (r as int * 0x1_0000_0000_0000_0000) % (self.n as int) == (
            (x as int) * (0x1_0000_0000_0000_0000int * 0x1_0000_0000_0000_0000int)) % (
            self.n as int),
    {
        proof {
            assert((x as u128 * self.r2 as u128)
                < 0x1_0000_0000_0000_0000_0000_0000_0000_0000int) by (nonlinear_arith)
                requires
                    x as u128 <= 0xffff_ffff_ffff_ffffu128,
                    self.r2 as u128 <= 0xffff_ffff_ffff_ffffu128,
            ;
            let mm = 0x1_0000_0000_0000_0000int;
            let nn = self.n as int;
            if self.wf() {
                assert(0 <= (self.r2 as int) < nn) by {
                    lemma_mod_bound(mm * mm, nn);
                }
                assert((x as int) * (self.r2 as int) < nn * mm) by (nonlinear_arith)
                    requires
                        0 <= (x as int) < 0x1_0000_0000_0000_0000int,
                        0 <= (self.r2 as int) < nn,
                        nn >= 1,
                        mm == 0x1_0000_0000_0000_0000int,
                ;
                lemma_mul_mod_noop_right(x as int, mm * mm, nn);
                assert((x as int * self.r2 as int) % nn == (x as int * (mm * mm)) % nn);
            }
        }
        self.redc(x as u128 * self.r2 as u128)
    }

    /// Modular multiplication through two reduction steps: for a
    /// well-formed context the result, multiplied back by 2^128, has the
    /// residue of `x * y * 2^128`.
    pub fn mul(&self, x: u64, y: u64) -> (r: u64)
        requires
            self.n >= 1,
        ensures
            self.wf() ==> r < self.n && (r as int * (0x1_0000_0000_0000_0000int
                * 0x1_0000_0000_0000_0000int)) % (self.n as int) == ((x as int) * (y as int) * (
            0x1_0000_0000_0000_0000int * 0x1_0000_0000_0000_0000int)) % (self.n as int),
    {
        let xr = self.mul_r(x);
        proof {
            assert((xr as u128 * y as u128) < 0x1_0000_0000_0000_0000_0000_0000_0000_0000int)
                by (nonlinear_arith)
                requires
                    xr as u128 <= 0xffff_ffff_ffff_ffffu128,
                    y as u128 <= 0xffff_ffff_ffff_ffffu128,
            ;
            let mm = 0x1_0000_0000_0000_0000int;
            let nn = self.n as int;
            if self.wf() {
                assert((xr as int) * (y as int) < nn * mm) by (nonlinear_arith)
                    requires
                        0 <= (xr as int) < nn,
                        0 <= (y as int) < 0x1_0000_0000_0000_0000int,
                        nn >= 1,
                        mm == 0x1_0000_0000_0000_0000int,
                ;
            }
        }
        let r = self.redc(xr as u128 * y as u128);
        proof {
            let mm = 0x1_0000_0000_0000_0000int;
            let nn = self.n as int;
            if self.wf() {
                let xi = x as int;
                let yi = y as int;
                let xri = xr as int;
                let ri = r as int;
                // lift the two reduction equations by one factor of 2^64
                assert((ri * mm) % nn == (xri * yi) % nn);
                lemma_mul_mod_noop_left(ri * mm, mm, nn);
                lemma_mul_mod_noop_left(xri * yi, mm, nn);
                assert((ri * mm * mm) % nn == (xri * yi * mm) % nn);
                assert(xri * yi * mm == (xri * mm) * yi) by (nonlinear_arith);
                lemma_mul_mod_noop_left(xri * mm, yi, nn);
                lemma_mul_mod_noop_left(xi * (mm * mm), yi, nn);
                assert(((xri * mm) * yi) % nn == ((xi * (mm * mm)) * yi) % nn);
                assert((xi * (mm * mm)) * yi == xi * yi * (mm * mm)) by (nonlinear_arith);
                assert(ri * mm * mm == ri * (mm * mm)) by (nonlinear_arith);
            }
        }
        r
    }
}

} // verus!
