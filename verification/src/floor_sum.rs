//! The sum of `floor((a*i + b) / m)` over `0 <= i < n`.

use vstd::arithmetic::div_mod::{lemma_fundamental_div_mod, lemma_mod_bound};
use vstd::prelude::*;

verus! {

/// The reference meaning: the sum of the floored terms, with a negative
/// modulus folded into the numerator. For a positive divisor the Euclidean
/// division below is exactly the floor.
pub open spec fn spec_floor_sum(n: int, m: int, a: int, b: int) -> int
    decreases n, (if m < 0 {
        1int
    } else {
        0int
    }),
{
    if m < 0 {
        spec_floor_sum(n, -m, -a, -b)
    } else if n <= 0 || m == 0 {
        0
    } else {
        spec_floor_sum(n - 1, m, a, b) + (a * (n - 1) + b) / m
    }
}

/// Computes the sum of `floor((a*i + b) / m)` over `0 <= i < n`.
pub fn floor_sum(n: i64, m: i64, a: i64, b: i64) -> (r: i64)
    requires
        0 <= n <= 0x7fff_ffff,
        m != 0,
        -0x7fff_ffff <= m <= 0x7fff_ffff,
        -0x7fff_ffff <= a <= 0x7fff_ffff,
        -0x7fff_ffff <= b <= 0x7fff_ffff,
        i64::MIN <= spec_floor_sum(n as int, m as int, a as int, b as int) <= i64::MAX,
    ensures
        r == spec_floor_sum(n as int, m as int, a as int, b as int),
{
    let (m, a, b) = if m > 0 {
        (m, a, b)
    } else {
        (-m, -a, -b)
    };
    let ghost target = spec_floor_sum(n as int, m as int, a as int, b as int);
    let mut sum: i128 = 0;
    let mut i: i64 = 0;
    while i < n
        invariant
            0 <= i <= n,
            n <= 0x7fff_ffff,
            1 <= m <= 0x7fff_ffff,
            -0x7fff_ffff <= a <= 0x7fff_ffff,
            -0x7fff_ffff <= b <= 0x7fff_ffff,
            sum == spec_floor_sum(i as int, m as int, a as int, b as int),
            -(i as int) * 0x8000_0000_0000_0000 <= sum <= (i as int) * 0x8000_0000_0000_0000,
        decreases n - i,
    {
        proof {
            assert(-0x4000_0000_0000_0000 <= a as int * i as int <= 0x4000_0000_0000_0000)
                by (nonlinear_arith)
                requires
                    -0x7fff_ffff <= a <= 0x7fff_ffff,
                    0 <= i <= 0x7fff_ffff,
            ;
        }
        let num = a * i + b;
        proof {
            lemma_fundamental_div_mod(num as int, m as int);
            lemma_mod_bound(num as int, m as int);
            assert(-0x8000_0000_0000_0000 <= (num as int) / (m as int)
                <= 0x8000_0000_0000_0000) by (nonlinear_arith)
                requires
                    1 <= m,
                    -0x4000_0001_0000_0000 <= num <= 0x4000_0001_0000_0000,
                    num == m * ((num as int) / (m as int)) + (num as int) % (m as int),
                    0 <= (num as int) % (m as int) < m,
            ;
            assert(((i + 1) as int) * 0x8000_0000_0000_0000 == (i as int) * 0x8000_0000_0000_0000
                + 0x8000_0000_0000_0000) by (nonlinear_arith);
        }
        let term = num.checked_div_euclid(m).unwrap();
        sum = sum + term as i128;
        i = i + 1;
    }
    sum as i64
}

} // verus!
