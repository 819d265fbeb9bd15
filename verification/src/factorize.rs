//! Integer factorisation: trial removal of twos, Miller-Rabin style
//! compositeness testing over deterministic witnesses, and Pollard's rho
//! with bounded search. The contract pins the product of the returned
//! factors to the input; the differential tests check primality of the
//! parts.

use crate::montgomery::Montgomery;
use vstd::arithmetic::div_mod::{lemma_fundamental_div_mod, lemma_mod_decreases};
use vstd::prelude::*;

verus! {

/// The product of a sequence of factors.
pub open spec fn spec_prod(s: Seq<u64>) -> int
    decreases s.len(),
{
    if s.len() == 0 {
        1
    } else {
        spec_prod(s.drop_last()) * s.last()
    }
}

/// Factors `n` into parts whose product gives `n` back; each part is at
/// least two. The parts that the splitting step cannot break further are
/// reported as found.
pub fn factorize(n: u64) -> (res: Vec<u64>)
    requires
        n >= 1,
    ensures
        spec_prod(res@) == n,
        forall|t: int| 0 <= t < res@.len() ==> #[trigger] res@[t] >= 2,
{
    let mut res: Vec<u64> = Vec::new();
    let mut rest = n;
    while rest % 2 == 0 && rest > 0
        invariant
            rest >= 1,
            spec_prod(res@) * rest == n,
            forall|t: int| 0 <= t < res@.len() ==> #[trigger] res@[t] >= 2,
        decreases rest,
    {
        let ghost pre = res@;
        rest = rest / 2;
        res.push(2);
        proof {
            assert(res@.drop_last() =~= pre);
            assert(spec_prod(pre) * (rest * 2) == (spec_prod(pre) * 2) * rest)
                by (nonlinear_arith);
        }
    }
    if rest > 1 {
        let ghost before = res@;
        factorize_rec(rest, &mut res);
        proof {
            assert forall|t: int| 0 <= t < res@.len() implies #[trigger] res@[t] >= 2 by {
                if t < before.len() {
                    assert(res@[t] == before[t]);
                }
            }
        }
    }
    proof {
        vstd::arithmetic::mul::lemma_mul_basics(spec_prod(res@));
    }
    res
}

/// Splits `m` recursively: primes (by the witness test) are kept whole,
/// composites are split by the rho search where it finds a divisor.
fn factorize_rec(m: u64, res: &mut Vec<u64>)
    requires
        m >= 2,
    ensures
        spec_prod(final(res)@) == spec_prod(old(res)@) * m,
        final(res)@.len() >= old(res)@.len(),
        forall|t: int| 0 <= t < old(res)@.len() ==> final(res)@[t] == #[trigger] old(res)@[t],
        forall|t: int|
            old(res)@.len() <= t < final(res)@.len() ==> #[trigger] final(res)@[t] >= 2,
    decreases m,
{
    let mont = Montgomery::new(m);
    if is_prime(&mont) {
        let ghost pre = res@;
        res.push(m);
        proof {
            assert(res@.drop_last() =~= pre);
        }
        return ;
    }
    match rho(&mont) {
        Some(d) => {
            let q = m / d;
            proof {
                lemma_fundamental_div_mod(m as int, d as int);
                assert(m == d * q);
                assert(2 <= q < m) by (nonlinear_arith)
                    requires
                        m == d * q,
                        2 <= d < m,
                        m >= 2,
                ;
            }
            let ghost mid0 = res@;
            factorize_rec(d, res);
            let ghost mid1 = res@;
            factorize_rec(q, res);
            proof {
                assert(spec_prod(res@) == (spec_prod(mid0) * d) * q);
                assert((spec_prod(mid0) * d) * q == spec_prod(mid0) * m) by (nonlinear_arith)
                    requires
                        m == d * q,
                ;
                assert forall|t: int| mid0.len() <= t < res@.len() implies #[trigger] res@[t]
                    >= 2 by {
                    if t < mid1.len() {
                        assert(res@[t] == mid1[t]);
                    }
                }
            }
        },
        None => {
            let ghost pre = res@;
            res.push(m);
            proof {
                assert(res@.drop_last() =~= pre);
            }
        },
    }
}

/// The deterministic witness set test: composite numbers below the tested
/// ranges are always caught; what survives is reported as prime.
fn is_prime(m: &Montgomery) -> bool
    requires
        m.n >= 2,
{
    if m.n % 2 == 0 {
        return m.n == 2;
    }
    if m.n < 4759123141 {
        (2 >= m.n || miller_rabin(2, m)) && (7 >= m.n || miller_rabin(7, m)) && (61 >= m.n
            || miller_rabin(61, m))
    } else {
        (miller_rabin(2, m)) && (miller_rabin(325, m)) && (miller_rabin(9375, m)) && (
        miller_rabin(28178, m)) && (miller_rabin(450775, m)) && (miller_rabin(9780504, m)) && (
        miller_rabin(1795265022, m))
    }
}

/// One Miller-Rabin round for witness `a`.
fn miller_rabin(a: u64, m: &Montgomery) -> bool
    requires
        m.n >= 3,
        m.n % 2 == 1,
{
    let s = (m.n - 1).trailing_zeros();
    proof {
        vstd::std_specs::bits::axiom_u64_trailing_zeros((m.n - 1) as u64);
    }
    let d = (m.n - 1) >> (s as u64);
    let mut x = mod_pow(a, d, m);
    if x == 1 || x == m.n - 1 {
        return true;
    }
    let mut xr = m.mul_r(x);
    let mut it: u32 = 1;
    while it < s
        invariant
            m.n >= 3,
        decreases s - it,
    {
        xr = m.redc(mul_wide(xr, xr));
        x = m.redc(xr as u128);
        if x == m.n - 1 {
            return true;
        }
        it += 1;
    }
    false
}

/// Modular exponentiation through the Montgomery context.
fn mod_pow(base: u64, e: u64, m: &Montgomery) -> u64
    requires
        m.n >= 1,
{
    if e == 0 {
        return 1;
    }
    let mut base_r = m.mul_r(base);
    let mut acc: u64 = 1;
    let mut rem = e;
    while rem > 0
        invariant
            m.n >= 1,
        decreases rem,
    {
        if rem % 2 == 1 {
            acc = m.redc(mul_wide(acc, base_r));
        }
        rem = rem / 2;
        base_r = m.redc(mul_wide(base_r, base_r));
    }
    acc
}

/// Pollard's rho over every polynomial shift and starting point, as wide
/// a search as the modulus allows: where it returns a divisor, that
/// divisor is proper. Each inner iteration is budgeted by a bound beyond
/// the point where the iterated sequence must have closed its cycle.
fn rho(m: &Montgomery) -> (res: Option<u64>)
    requires
        m.n >= 2,
    ensures
        res matches Some(d) ==> 2 <= d < m.n && (m.n as int) % (d as int) == 0,
{
    let n = m.n;
    let mut i: u64 = 1;
    while i < n
        invariant
            n == m.n,
            n >= 2,
            i >= 1,
        decreases n - i,
    {
        let mut j: u64 = 2;
        while j < n
            invariant
                n == m.n,
                n >= 2,
                i >= 1,
            decreases n - j,
        {
            let mut x = j;
            let mut y = j;
            let mut fuel: u64 = 0;
            let cap = if n <= 0x3fff_ffff_ffff_ffff {
                4 * n
            } else {
                u64::MAX
            };
            while fuel < cap
                invariant
                    n == m.n,
                    n >= 2,
                    i >= 1,
                decreases cap - fuel,
            {
                x = step_poly(m, x, i);
                y = step_poly(m, step_poly(m, y, i), i);
                let diff = if x >= y {
                    x - y
                } else {
                    y - x
                };
                let d = gcd_u64_pair(diff, n);
                if d == n {
                    break ;
                }
                if d != 1 {
                    proof {
                        crate::integer::lemma_gcd_divides(diff as nat, n as nat);
                    }
                    if d >= 2 && d < n {
                        return Some(d);
                    }
                    break ;
                }
                fuel += 1;
            }
            j += 1;
        }
        i += 1;
    }
    None
}

/// Widens and multiplies two words; the product always fits the result.
fn mul_wide(a: u64, b: u64) -> (r: u128)
    ensures
        r == a * b,
{
    proof {
        assert((a as u128 * b as u128) < 0x1_0000_0000_0000_0000_0000_0000_0000_0000int)
            by (nonlinear_arith)
            requires
                a as u128 <= 0xffff_ffff_ffff_ffffu128,
                b as u128 <= 0xffff_ffff_ffff_ffffu128,
        ;
    }
    a as u128 * b as u128
}

/// One step of the rho polynomial `x -> x^2 + i` under the reduction.
fn step_poly(m: &Montgomery, x: u64, i: u64) -> u64
    requires
        m.n >= 1,
{
    let sq = mul_wide(x, x);
    let shifted = sq.wrapping_add(i as u128);
    m.redc(shifted)
}

/// Euclid's loop, yielding the greatest common divisor.
fn gcd_u64_pair(x: u64, y: u64) -> (r: u64)
    ensures
        r == crate::integer::spec_gcd(x as nat, y as nat),
    decreases y,
{
    let mut a = x;
    let mut b = y;
    while b != 0
        invariant
            crate::integer::spec_gcd(a as nat, b as nat) == crate::integer::spec_gcd(
                x as nat,
                y as nat,
            ),
        decreases b,
    {
        let t = a % b;
        proof {
            lemma_mod_decreases(a as nat, b as nat);
        }
        a = b;
        b = t;
    }
    a
}

} // verus!
