//! Integer number theory helpers: greatest common divisor, least common
//! multiple, the extended Euclidean algorithm with a Bezout identity, and
//! the Chinese remainder theorem for two congruences.

use vstd::arithmetic::div_mod::{
    lemma_add_mod_noop, lemma_fundamental_div_mod, lemma_mod_bound, lemma_mod_decreases,
    lemma_mod_multiples_basic, lemma_mod_self_0, lemma_mul_mod_noop_general,
    lemma_mul_mod_noop_right, lemma_small_mod,
};
use vstd::prelude::*;

verus! {

/// The greatest common divisor, by Euclid's recursion; `spec_gcd(a, 0) == a`.
pub open spec fn spec_gcd(a: nat, b: nat) -> nat
    decreases b,
{
    if b == 0 {
        a
    } else {
        spec_gcd(b, a % b)
    }
}

/// The least common multiple of two non-negative values.
pub open spec fn spec_lcm(a: nat, b: nat) -> nat {
    if a == 0 || b == 0 {
        0
    } else {
        (a / spec_gcd(a, b)) * b
    }
}

/// The absolute value, at the specification level.
pub open spec fn abs(x: int) -> int {
    if x < 0 {
        -x
    } else {
        x
    }
}

/// The greatest common divisor divides both arguments and is positive when
/// either argument is.
pub proof fn lemma_gcd_divides(a: nat, b: nat)
    requires
        a > 0 || b > 0,
    ensures
        spec_gcd(a, b) > 0,
        a % spec_gcd(a, b) == 0,
        b % spec_gcd(a, b) == 0,
    decreases b,
{
    if b == 0 {
        lemma_mod_self_0(a as int);
        lemma_small_mod(0, a);
    } else {
        lemma_mod_decreases(a, b);
        lemma_gcd_divides(b, a % b);
        let g = spec_gcd(b, a % b);
        lemma_fundamental_div_mod(a as int, b as int);
        let q = a as int / b as int;
        assert(a as int == (b as int) * q + (a % b));
        assert((q * b) % (g as int) == 0) by {
            lemma_mul_mod_noop_right(q, b as int, g as int);
            assert(q * (((b as int) % (g as int))) == 0) by (nonlinear_arith)
                requires
                    (b as int) % (g as int) == 0,
            ;
            lemma_small_mod(0, g);
        }
        lemma_add_mod_noop(q * b, (a % b) as int, g as int);
        lemma_small_mod(0, g);
        assert((b as int) * q == q * b) by (nonlinear_arith);
        assert((a as int) % (g as int) == ((q * b) % (g as int) + ((a % b) as int % (g as int)))
            % (g as int));
    }
}

/// Euclid's loop over magnitudes.
fn gcd_u64(x: u64, y: u64) -> (r: u64)
    ensures
        r == spec_gcd(x as nat, y as nat),
        r <= x || r <= y || (x == 0 && y == 0 && r == 0),
    decreases y,
{
    let mut a = x;
    let mut b = y;
    while b != 0
        invariant
            spec_gcd(a as nat, b as nat) == spec_gcd(x as nat, y as nat),
            a <= x || a <= y,
            b <= x || b <= y,
            (x == 0 && y == 0) ==> a == 0,
        decreases b,
    {
        let t = a % b;
        proof {
            lemma_mod_decreases(a as nat, b as nat);
        }
        a = b;
        b = t;
    }
    a
}

/// The magnitude of a value above `i64::MIN`.
fn magnitude(x: i64) -> (r: u64)
    requires
        x > i64::MIN,
    ensures
        r == abs(x as int),
{
    if x < 0 {
        (-x) as u64
    } else {
        x as u64
    }
}

/// Computes the greatest common divisor of the absolute values.
pub fn gcd(x: i64, y: i64) -> (r: i64)
    requires
        x > i64::MIN,
        y > i64::MIN,
    ensures
        r == spec_gcd(abs(x as int) as nat, abs(y as int) as nat),
        r >= 0,
{
    let a = magnitude(x);
    let b = magnitude(y);
    gcd_u64(a, b) as i64
}

/// Computes the least common multiple of the absolute values.
pub fn lcm(x: i64, y: i64) -> (r: i64)
    requires
        x > i64::MIN,
        y > i64::MIN,
        spec_lcm(abs(x as int) as nat, abs(y as int) as nat) <= i64::MAX,
    ensures
        r == spec_lcm(abs(x as int) as nat, abs(y as int) as nat),
{
    if x == 0 || y == 0 {
        return 0;
    }
    let a = magnitude(x);
    let b = magnitude(y);
    let g = gcd_u64(a, b);
    proof {
        lemma_gcd_divides(a as nat, b as nat);
        assert(a / g <= a) by (nonlinear_arith)
            requires
                g >= 1,
                a >= 0,
        ;
    }
    (a / g * b) as i64
}

/// The extended Euclidean recursion over magnitudes: returns `(g, s, t)`
/// with `g == gcd(a, b)`, `s*a + t*b == g`, and the coefficient bounds
/// `|s| <= max(b, 1)` and `|t| <= max(a, 1)`.
fn ext_gcd_rec(a: u64, b: u64) -> (res: (u64, i64, i64))
    requires
        a <= i64::MAX,
        b <= i64::MAX,
        a > 0 || b > 0,
    ensures
        res.0 == spec_gcd(a as nat, b as nat),
        res.1 * a + res.2 * b == res.0,
        -(if b > 0 {
            b as int
        } else {
            1
        }) <= res.1 <= (if b > 0 {
            b as int
        } else {
            1
        }),
        -(if a > 0 {
            a as int
        } else {
            1
        }) <= res.2 <= (if a > 0 {
            a as int
        } else {
            1
        }),
        b == 0 ==> res.1 == 1 && res.2 == 0,
    decreases b,
{
    if b == 0 {
        proof {
            assert(1 * a + 0 * b == a) by (nonlinear_arith);
        }
        return (a, 1, 0);
    }
    let q = a / b;
    let rem = a % b;
    proof {
        lemma_mod_decreases(a as nat, b as nat);
    }
    let (g, s, t) = ext_gcd_rec(b, rem);
    proof {
        lemma_fundamental_div_mod(a as int, b as int);
        assert(a as int == (b as int) * q + rem);
        assert(t * rem == t * a - (q * t) * b) by (nonlinear_arith)
            requires
                a as int == (b as int) * q + rem,
        ;
        assert(s * b + t * rem == g);
    }
    if q == 0 {
        proof {
            assert(rem == a) by (nonlinear_arith)
                requires
                    a as int == (b as int) * q + rem,
                    q == 0,
            ;
            assert(t * a + s * b == g);
        }
        return (g, t, s);
    }
    proof {
        let bb: int = if b > 0 {
            b as int
        } else {
            1int
        };
        assert(-(q * bb) <= q * t <= q * bb) by (nonlinear_arith)
            requires
                q >= 1,
                -bb <= t <= bb,
        ;
        if rem == 0 {
            assert(s == 1 && t == 0);
            assert(q * t == 0) by (nonlinear_arith)
                requires
                    t == 0,
            ;
        } else {
            assert(rem + q * bb <= a) by (nonlinear_arith)
                requires
                    b >= 1,
                    bb == b,
                    1 <= rem < b,
                    q >= 1,
                    a as int == (b as int) * q + rem,
            ;
        }
        assert(q * bb <= a) by (nonlinear_arith)
            requires
                bb == b,
                b >= 1,
                rem >= 0,
                a as int == (b as int) * q + rem,
        ;
    }
    let coeff = s - (q as i64) * t;
    proof {
        assert(t * a + coeff * b == g) by (nonlinear_arith)
            requires
                coeff == s - q * t,
                s * b + t * rem == g,
                t * rem == t * a - (q * t) * b,
        ;
    }
    (g, t, coeff)
}

/// Extended Euclid: returns `(g, u, v)` with `g` the (positive) greatest
/// common divisor of `x` and `y` and `u*x + v*y == g`.
pub fn ext_gcd(x: i64, y: i64) -> (res: (i64, i64, i64))
    requires
        x != 0,
        x > i64::MIN,
        y > i64::MIN,
    ensures
        res.0 == spec_gcd(abs(x as int) as nat, abs(y as int) as nat),
        res.0 >= 1,
        res.1 * x + res.2 * y == res.0,
{
    let a = magnitude(x);
    let b = magnitude(y);
    let (g, s, t) = ext_gcd_rec(a, b);
    proof {
        lemma_gcd_divides(a as nat, b as nat);
        if g > a {
            lemma_small_mod(a as nat, g as nat);
        }
        if x < 0 {
            assert((-s) * (x as int) == s * (a as int)) by (nonlinear_arith)
                requires
                    a == -(x as int),
            ;
        }
        if y < 0 {
            assert((-t) * (y as int) == t * (b as int)) by (nonlinear_arith)
                requires
                    b == -(y as int),
            ;
        }
    }
    let u = if x < 0 {
        -s
    } else {
        s
    };
    let v = if y < 0 {
        -t
    } else {
        t
    };
    (g as i64, u, v)
}

/// The Euclidean remainder of `x` by a positive modulus, as an executable
/// helper.
fn rem_euclid_pos(x: i64, n: i64) -> (r: i64)
    requires
        1 <= n,
    ensures
        r == (x as int) % (n as int),
        0 <= r < n,
{
    proof {
        lemma_mod_bound(x as int, n as int);
    }
    let r = x.checked_rem_euclid(n);
    r.unwrap()
}

/// Computes `(p * q) % n` without overflow, via a wide intermediate.
fn mul_mod(p: i64, q: i64, n: i64) -> (r: i64)
    requires
        1 <= n <= 0x7fff_ffff,
    ensures
        r == (p * q) % (n as int),
        0 <= r < n,
{
    let pn = rem_euclid_pos(p, n);
    let qn = rem_euclid_pos(q, n);
    proof {
        assert(pn * qn < 0x4000_0000_0000_0000) by (nonlinear_arith)
            requires
                0 <= pn < 0x8000_0000,
                0 <= qn < 0x8000_0000,
        ;
        lemma_mul_mod_noop_general(p as int, q as int, n as int);
        lemma_mod_bound(pn * qn, n as int);
    }
    let wide = pn * qn;
    let r = rem_euclid_pos(wide, n);
    proof {
        lemma_mul_mod_noop_general(pn as int, qn as int, n as int);
        lemma_mod_bound(pn as int, n as int);
        lemma_mod_bound(qn as int, n as int);
        lemma_small_mod(pn as nat, n as nat);
        lemma_small_mod(qn as nat, n as nat);
    }
    r
}

/// Solves the two congruences `z = a (mod m)` and `z = b (mod n)`. Returns
/// the smallest non-negative solution together with the combined modulus
/// (the least common multiple of `m` and `n`), or nothing when the
/// congruences conflict.
pub fn crt(a: i64, m: i64, b: i64, n: i64) -> (res: Option<(i64, i64)>)
    requires
        1 <= m <= 0x7fff_ffff,
        1 <= n <= 0x7fff_ffff,
        -0x7fff_ffff <= a <= 0x7fff_ffff,
        -0x7fff_ffff <= b <= 0x7fff_ffff,
    ensures
        res is Some <==> (b - a) % (spec_gcd(m as nat, n as nat) as int) == 0,
        res matches Some(ck) ==> ck.1 == spec_lcm(m as nat, n as nat) && 0 <= ck.0 < ck.1 && (
        ck.0 - a) % (m as int) == 0 && (ck.0 - b) % (n as int) == 0,
{
    let (a, m, b, n) = if a <= b {
        (a, m, b, n)
    } else {
        (b, n, a, m)
    };
    proof {
        lemma_gcd_comm(m as nat, n as nat);
        lemma_lcm_comm(m as nat, n as nat);
    }
    let (g, minv, vcoef) = ext_gcd(m, n);
    proof {
        lemma_gcd_divides(m as nat, n as nat);
        lemma_gcd_comm(m as nat, n as nat);
    }
    let diff = (b - a) as u64;
    if diff % (g as u64) != 0 {
        proof {
            lemma_neg_mod(b - a, a - b, g as int);
        }
        return None;
    }
    let steps = (diff / (g as u64)) as i64;
    proof {
        lemma_fundamental_div_mod(diff as int, g as int);
        vstd::arithmetic::div_mod::lemma_div_pos_is_pos(diff as int, g as int);
        vstd::arithmetic::div_mod::lemma_div_is_ordered_by_denominator(diff as int, 1, g as int);
        assert(diff as int / 1 == diff as int) by {
            vstd::arithmetic::div_mod::lemma_fundamental_div_mod_converse(
                diff as int,
                1,
                diff as int,
                0,
            );
        }
    }
    let x = mul_mod(steps, minv, n);
    proof {
        assert(g <= m) by {
            if g > m {
                lemma_small_mod(m as nat, g as nat);
            }
        }
    }
    let mg = m as u64 / g as u64;
    proof {
        lemma_fundamental_div_mod(m as int, g as int);
        assert(1 <= mg <= m) by (nonlinear_arith)
            requires
                1 <= g <= m,
                m as int == g * (mg as int) + (m as int) % (g as int),
                (m as int) % (g as int) == 0,
                mg == m as int / g as int,
        ;
        assert((mg as int) * n <= (m as int) * n && 1 <= (mg as int) * n) by (nonlinear_arith)
            requires
                1 <= mg <= m,
                1 <= n,
        ;
        assert((m as int) * n <= 0x3fff_ffff_0000_0001) by (nonlinear_arith)
            requires
                1 <= m <= 0x7fff_ffff,
                1 <= n <= 0x7fff_ffff,
        ;
        assert(-(0x7fff_fffei64 * 0x7fff_ffff) <= (m as int) * x <= 0x7fff_fffei64
            * 0x7fff_ffff) by (nonlinear_arith)
            requires
                1 <= m <= 0x7fff_ffff,
                0 <= x <= n - 1,
                n <= 0x7fff_ffff,
        ;
    }
    let k = (mg as i64) * n;
    let c = rem_euclid_pos(m * x + a, k);
    proof {
        lemma_mod_bound((m as int) * x + a, k as int);
        lemma_crt_congruences(
            a as int,
            m as int,
            b as int,
            n as int,
            g as int,
            minv as int,
            vcoef as int,
            steps as int,
            x as int,
            k as int,
            c as int,
        );
        assert(k == spec_lcm(m as nat, n as nat));
        lemma_neg_mod(b - a, a - b, g as int);
    }
    Some((c, k))
}

/// `gcd` is symmetric.
proof fn lemma_gcd_comm(a: nat, b: nat)
    ensures
        spec_gcd(a, b) == spec_gcd(b, a),
{
    if a == 0 && b != 0 {
        lemma_small_mod(0, b);
    } else if b == 0 && a != 0 {
        lemma_small_mod(0, a);
    } else if a != 0 && b != 0 {
        if a == b {
            lemma_mod_self_0(a as int);
        } else if a < b {
            lemma_small_mod(a, b);
        } else {
            lemma_small_mod(b, a);
        }
    }
}

/// `lcm` is symmetric.
proof fn lemma_lcm_comm(a: nat, b: nat)
    ensures
        spec_lcm(a, b) == spec_lcm(b, a),
{
    if a > 0 && b > 0 {
        lemma_gcd_comm(a, b);
        lemma_gcd_divides(a, b);
        let g = spec_gcd(a, b);
        lemma_fundamental_div_mod(a as int, g as int);
        lemma_fundamental_div_mod(b as int, g as int);
        assert((a as int / g as int) * b == (b as int / g as int) * a) by (nonlinear_arith)
            requires
                g >= 1,
                a == (a as int / g as int) * g,
                b == (b as int / g as int) * g,
        ;
    }
}

/// Negating the dividend preserves divisibility.
proof fn lemma_neg_mod(p: int, q: int, d: int)
    requires
        d >= 1,
        q == -p,
    ensures
        p % d == 0 <==> q % d == 0,
{
    lemma_fundamental_div_mod(p, d);
    lemma_fundamental_div_mod(q, d);
    if p % d == 0 {
        assert(q == (-(p / d)) * d) by (nonlinear_arith)
            requires
                p == d * (p / d) + p % d,
                p % d == 0,
                q == -p,
        ;
        lemma_mod_multiples_basic(-(p / d), d);
    }
    if q % d == 0 {
        assert(p == (-(q / d)) * d) by (nonlinear_arith)
            requires
                q == d * (q / d) + q % d,
                q % d == 0,
                q == -p,
        ;
        lemma_mod_multiples_basic(-(q / d), d);
    }
}

/// The congruence and modulus facts behind `crt`'s successful branch.
proof fn lemma_crt_congruences(
    a: int,
    m: int,
    b: int,
    n: int,
    g: int,
    minv: int,
    vcoef: int,
    steps: int,
    x: int,
    k: int,
    c: int,
)
    requires
        m >= 1,
        n >= 1,
        g >= 1,
        g == spec_gcd(m as nat, n as nat),
        g == spec_gcd(n as nat, m as nat),
        minv * m + vcoef * n == g,
        b - a >= 0,
        (b - a) % g == 0,
        steps == (b - a) / g,
        x == (steps * minv) % n,
        k == (m / g) * n,
        k >= 1,
        m % g == 0,
        n % g == 0,
        c == (m * x + a) % k,
        0 <= c < k,
    ensures
        (c - a) % m == 0,
        (c - b) % n == 0,
        k == spec_lcm(m as nat, n as nat),
{
    lemma_fundamental_div_mod(m * x + a, k);
    let q = (m * x + a) / k;
    assert(m * x + a == q * k + c);
    let mg = m / g;
    lemma_fundamental_div_mod(m, g);
    assert(m == mg * g);
    let ng = n / g;
    lemma_fundamental_div_mod(n, g);
    assert(n == ng * g);
    assert(q * k == (q * ng) * m) by (nonlinear_arith)
        requires
            k == mg * n,
            n == ng * g,
            m == mg * g,
    ;
    assert(c - a == (x - q * ng) * m) by (nonlinear_arith)
        requires
            m * x + a == q * k + c,
            q * k == (q * ng) * m,
    ;
    lemma_mod_multiples_basic(x - q * ng, m);
    lemma_fundamental_div_mod(steps * minv, n);
    let s = (steps * minv) / n;
    assert(x == steps * minv - s * n);
    lemma_fundamental_div_mod(b - a, g);
    assert(b - a == steps * g);
    assert(m * x == (b - a) - (steps * vcoef + m * s) * n) by (nonlinear_arith)
        requires
            x == steps * minv - s * n,
            minv * m + vcoef * n == g,
            b - a == steps * g,
    ;
    assert(c - b == (-(steps * vcoef + m * s) - q * mg) * n) by (nonlinear_arith)
        requires
            m * x == (b - a) - (steps * vcoef + m * s) * n,
            m * x + a == q * k + c,
            k == mg * n,
    ;
    lemma_mod_multiples_basic(-(steps * vcoef + m * s) - q * mg, n);
}

} // verus!
