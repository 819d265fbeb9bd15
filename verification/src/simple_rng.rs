//! A small deterministic pseudo-random generator (a permuted congruential
//! generator) with bounded-range sampling and shuffling. The contracts pin
//! every output to a specification-level mirror of the generator, so replays
//! are exactly reproducible.

use vstd::prelude::*;
use vstd::wrapping::u64_specs;

verus! {

/// The generator: a single 64-bit congruential state.
pub struct Rng(u64);

/// One step of the underlying linear congruential state transition.
pub open spec fn spec_step(s: u64) -> u64 {
    u64_specs::wrapping_add(u64_specs::wrapping_mul(s, 0x5851F42D4C957F2D), 0xa02bdbf7bb3c0a7)
}

/// The 32-bit output permutation: xorshift, then a rotation by the top bits.
pub open spec fn spec_out(s: u64) -> u32 {
    let folded = (((s >> 18) ^ s) >> 27) as u32;
    let rot = (s >> 59) as u32;
    if rot == 0 {
        folded
    } else {
        (folded >> rot) | (folded << (32 - rot))
    }
}

/// The state after seeding with `seed`.
pub open spec fn spec_seeded(seed: u64) -> u64 {
    spec_step(u64_specs::wrapping_add(seed, 0xa02bdbf7bb3c0a7))
}

/// The 64-bit draw made of two 32-bit outputs, low word first.
pub open spec fn spec_out64(s: u64) -> u64 {
    (spec_out(s) as u64) | ((spec_out(spec_step(s)) as u64) << 32)
}

/// The state after `k` congruential steps.
pub open spec fn spec_steps(s: u64, k: nat) -> u64
    decreases k,
{
    if k == 0 {
        s
    } else {
        spec_step(spec_steps(s, (k - 1) as nat))
    }
}

/// The sequence with the entries at `i` and `j` exchanged.
pub open spec fn spec_swapped<U>(s: Seq<U>, i: int, j: int) -> Seq<U> {
    s.update(i, s[j]).update(j, s[i])
}

/// The backward Fisher-Yates pass from position `j` down to 1, drawing
/// one index per position from the generator state `st`.
pub open spec fn spec_shuffle_from<U>(s: Seq<U>, st: u64, j: int) -> Seq<U>
    decreases j,
{
    if j < 1 {
        s
    } else {
        let i = <usize as Range>::spec_pick(st, 0usize, j as usize) as int;
        spec_shuffle_from(spec_swapped(s, i, j), spec_steps(st, 2), j - 1)
    }
}

/// Step counts compose by addition.
pub proof fn lemma_steps_add(s: u64, a: nat, b: nat)
    ensures
        spec_steps(spec_steps(s, a), b) == spec_steps(s, a + b),
    decreases b,
{
    if b > 0 {
        lemma_steps_add(s, a, (b - 1) as nat);
    }
}

impl Rng {
    /// The current generator state.
    pub closed spec fn state(&self) -> u64 {
        self.0
    }

    /// Creates a generator from a seed.
    pub fn new(seed: u64) -> (r: Rng)
        ensures
            r.state() == spec_seeded(seed),
    {
        let mut rng = Rng(seed.wrapping_add(0xa02bdbf7bb3c0a7));
        rng.step();
        rng
    }

    /// Advances the state by one congruential step.
    fn step(&mut self)
        ensures
            final(self).state() == spec_step(old(self).state()),
    {
        self.0 = self.0.wrapping_mul(0x5851F42D4C957F2D).wrapping_add(0xa02bdbf7bb3c0a7);
    }

    /// Draws the next 32-bit value and advances the state.
    pub fn next_u32(&mut self) -> (r: u32)
        ensures
            r == spec_out(old(self).state()),
            final(self).state() == spec_step(old(self).state()),
    {
        let x = self.0;
        self.step();
        let folded = (((x >> 18) ^ x) >> 27) as u32;
        let rot = (x >> 59) as u32;
        proof {
            assert(x >> 59 < 32) by (bit_vector);
        }
        if rot == 0 {
            folded
        } else {
            (folded >> rot) | (folded << (32 - rot))
        }
    }

    /// Draws the next 64-bit value from two 32-bit draws.
    pub fn next_u64(&mut self) -> (r: u64)
        ensures
            r == (spec_out(old(self).state()) as u64) | ((spec_out(
                spec_step(old(self).state()),
            ) as u64) << 32),
            final(self).state() == spec_step(spec_step(old(self).state())),
    {
        let lo = self.next_u32();
        let hi = self.next_u32();
        lo as u64 | (hi as u64) << 32
    }

    /// Draws a uniformly distributed value of the requested type.
    pub fn random<R: Random>(&mut self) -> R {
        R::random(self)
    }

    /// Draws a value from the inclusive range `[l, r]`, consuming the
    /// type's fixed number of generator words; the value drawn is a
    /// function of the state alone.
    pub fn range<R: Range>(&mut self, l: R, r: R) -> (res: R)
        requires
            R::ordered(l, r),
        ensures
            R::between(l, res, r),
            res == R::spec_pick(old(self).state(), l, r),
            final(self).state() == spec_steps(old(self).state(), R::spec_draws()),
    {
        R::range(self, l, r)
    }

    /// Shuffles the vector in place by backward Fisher-Yates swaps,
    /// drawing one index per position from the generator: the result is
    /// a permutation of the input, fully determined by the input and the
    /// generator state, so a replay from the same state repeats it.
    pub fn shuffle<U: Copy>(&mut self, items: &mut Vec<U>)
        ensures
            final(items)@.len() == old(items)@.len(),
            final(items)@.to_multiset() == old(items)@.to_multiset(),
            final(items)@ == spec_shuffle_from(
                old(items)@,
                old(self).state(),
                old(items)@.len() - 1,
            ),
            final(self).state() == spec_steps(
                old(self).state(),
                if old(items)@.len() <= 1 {
                    0nat
                } else {
                    2 * (old(items)@.len() - 1) as nat
                },
            ),
    {
        let len = items.len();
        if len <= 1 {
            return ;
        }
        let mut j: usize = len - 1;
        while j >= 1
            invariant
                j < items@.len(),
                items@.len() == old(items)@.len(),
                items@.to_multiset() == old(items)@.to_multiset(),
                self.state() == spec_steps(
                    old(self).state(),
                    (2 * (old(items)@.len() - 1 - j)) as nat,
                ),
                spec_shuffle_from(old(items)@, old(self).state(), old(items)@.len() - 1)
                    == spec_shuffle_from(items@, self.state(), j as int),
            decreases j,
        {
            proof {
                lemma_steps_add(
                    old(self).state(),
                    (2 * (old(items)@.len() - 1 - j)) as nat,
                    2,
                );
            }
            let ghost s = items@;
            let ghost st = self.state();
            let i = self.range(0usize, j);
            let a = items[i];
            let b = items[j];
            items[i] = b;
            items[j] = a;
            proof {
                assert(i == <usize as Range>::spec_pick(st, 0usize, j));
                assert(items@ == s.update(i as int, b).update(j as int, a));
                assert(items@ =~= spec_swapped(s, i as int, j as int));
                assert(spec_shuffle_from(s, st, j as int) == spec_shuffle_from(
                    spec_swapped(s, i as int, j as int),
                    spec_steps(st, 2),
                    j - 1,
                ));
                if i == j {
                    assert(items@ =~= s);
                } else {
                    vstd::seq_lib::to_multiset_update(s, i as int, b);
                    vstd::seq_lib::to_multiset_update(s.update(i as int, b), j as int, a);
                    s.to_multiset_ensures();
                    assert(s.contains(a));
                    assert(s.contains(b));
                    assert(items@.to_multiset() =~= s.to_multiset());
                }
            }
            j -= 1;
        }
        proof {
            assert(spec_shuffle_from(items@, self.state(), 0int) == items@);
        }
    }
}

/// A type the generator can draw uniformly.
pub trait Random: Sized {
    /// Draws one value.
    fn random(rng: &mut Rng) -> Self;
}

impl Random for u8 {
    fn random(rng: &mut Rng) -> Self {
        rng.next_u32() as u8
    }
}

impl Random for u16 {
    fn random(rng: &mut Rng) -> Self {
        rng.next_u32() as u16
    }
}

impl Random for u32 {
    fn random(rng: &mut Rng) -> Self {
        rng.next_u32()
    }
}

impl Random for u64 {
    fn random(rng: &mut Rng) -> Self {
        rng.next_u64()
    }
}

impl Random for usize {
    fn random(rng: &mut Rng) -> Self {
        rng.next_u64() as usize
    }
}

/// A type the generator can sample from an inclusive range.
pub trait Range: Sized {
    /// Whether `l` may be the lower and `r` the upper end of a range.
    spec fn ordered(l: Self, r: Self) -> bool;

    /// Whether `x` lies between `l` and `r` inclusive.
    spec fn between(l: Self, x: Self, r: Self) -> bool;

    /// How many generator words one draw of this type consumes.
    spec fn spec_draws() -> nat;

    /// The value drawn from `[l, r]` at generator state `s`.
    spec fn spec_pick(s: u64, l: Self, r: Self) -> Self;

    /// Draws a value from `[l, r]`, consuming exactly `spec_draws()`
    /// generator words: both the value and the stream position are
    /// pinned, so a replay from the same state repeats the draw.
    fn range(rng: &mut Rng, l: Self, r: Self) -> (res: Self)
        requires
            Self::ordered(l, r),
        ensures
            Self::between(l, res, r),
            res == Self::spec_pick(old(rng).state(), l, r),
            final(rng).state() == spec_steps(old(rng).state(), Self::spec_draws()),
    ;
}

impl Range for u32 {
    open spec fn ordered(l: u32, r: u32) -> bool {
        l <= r
    }

    open spec fn between(l: u32, x: u32, r: u32) -> bool {
        l <= x <= r
    }

    open spec fn spec_draws() -> nat {
        1
    }

    open spec fn spec_pick(s: u64, l: u32, r: u32) -> u32 {
        if l == 0 && r == 0xffff_ffffu32 {
            spec_out(s)
        } else {
            (l + (spec_out(s) * (r - l + 1)) / 0x1_0000_0000) as u32
        }
    }

    fn range(rng: &mut Rng, l: u32, r: u32) -> (res: u32) {
        proof {
            reveal_with_fuel(spec_steps, 2);
            assert(spec_steps(old(rng).state(), 1) == spec_step(old(rng).state()));
        }
        let d = r.wrapping_sub(l).wrapping_add(1);
        if d == 0 {
            return rng.next_u32();
        }
        let x = rng.next_u32();
        proof {
            assert((x as u64 * d as u64) < 0x1_0000_0000_0000_0000) by (nonlinear_arith)
                requires
                    x as u64 <= 0xffff_ffffu64,
                    d as u64 <= 0xffff_ffffu64,
            ;
        }
        let prod: u64 = x as u64 * d as u64;
        let k = (prod >> 32) as u32;
        proof {
            vstd::bits::lemma_u64_shr_is_div(prod, 32);
            vstd::arithmetic::power2::lemma2_to64();
            assert(prod < d as u64 * 0x1_0000_0000) by (nonlinear_arith)
                requires
                    x as u64 <= 0xffff_ffffu64,
                    prod == x as u64 * d as u64,
                    1 <= d,
            ;
            assert(prod / 0x1_0000_0000u64 < d as u64) by (nonlinear_arith)
                requires
                    prod < d as u64 * 0x1_0000_0000,
            ;
            assert(k == (x * (r - l + 1)) / 0x1_0000_0000);
        }
        l + k
    }
}

impl Range for i32 {
    open spec fn ordered(l: i32, r: i32) -> bool {
        l <= r
    }

    open spec fn between(l: i32, x: i32, r: i32) -> bool {
        l <= x <= r
    }

    open spec fn spec_draws() -> nat {
        1
    }

    open spec fn spec_pick(s: u64, l: i32, r: i32) -> i32 {
        if r - l == 0xffff_ffffint {
            spec_out(s) as i32
        } else {
            (l + (spec_out(s) * (r - l + 1)) / 0x1_0000_0000) as i32
        }
    }

    fn range(rng: &mut Rng, l: i32, r: i32) -> (res: i32) {
        proof {
            reveal_with_fuel(spec_steps, 2);
            assert(spec_steps(old(rng).state(), 1) == spec_step(old(rng).state()));
        }
        let w: i64 = r as i64 - l as i64;
        if w == 0xffff_ffffi64 {
            return rng.next_u32() as i32;
        }
        let d = (w + 1) as u64;
        let x = rng.next_u32();
        proof {
            assert((x as u64 * d) < 0x1_0000_0000_0000_0000) by (nonlinear_arith)
                requires
                    x as u64 <= 0xffff_ffffu64,
                    d <= 0xffff_ffffu64,
            ;
        }
        let prod: u64 = x as u64 * d;
        let k = (prod >> 32) as i64;
        proof {
            vstd::bits::lemma_u64_shr_is_div(prod, 32);
            vstd::arithmetic::power2::lemma2_to64();
            assert(prod < d * 0x1_0000_0000) by (nonlinear_arith)
                requires
                    x as u64 <= 0xffff_ffffu64,
                    prod == x as u64 * d,
                    1 <= d,
            ;
            assert(prod / 0x1_0000_0000u64 < d) by (nonlinear_arith)
                requires
                    prod < d * 0x1_0000_0000,
            ;
            assert(k == (x * (r - l + 1)) / 0x1_0000_0000);
        }
        (l as i64 + k) as i32
    }
}

impl Range for i64 {
    open spec fn ordered(l: i64, r: i64) -> bool {
        l <= r
    }

    open spec fn between(l: i64, x: i64, r: i64) -> bool {
        l <= x <= r
    }

    open spec fn spec_draws() -> nat {
        2
    }

    open spec fn spec_pick(s: u64, l: i64, r: i64) -> i64 {
        if r - l == 0xffff_ffff_ffff_ffffint {
            spec_out64(s) as i64
        } else {
            (l + (spec_out64(s) * (r - l + 1)) / 0x1_0000_0000_0000_0000) as i64
        }
    }

    #[verifier::rlimit(100)]
    fn range(rng: &mut Rng, l: i64, r: i64) -> (res: i64) {
        proof {
            reveal_with_fuel(spec_steps, 3);
            assert(spec_steps(old(rng).state(), 2) == spec_step(spec_step(old(rng).state())));
        }
        let w: i128 = r as i128 - l as i128;
        if w == 0xffff_ffff_ffff_ffffi128 {
            return rng.next_u64() as i64;
        }
        let d = (w + 1) as u128;
        let draw = rng.next_u64();
        proof {
            assert((draw as u128 * d) < 0x1_0000_0000_0000_0000_0000_0000_0000_0000int)
                by (nonlinear_arith)
                requires
                    draw as u128 <= 0xffff_ffff_ffff_ffffu128,
                    d <= 0x1_0000_0000_0000_0000u128,
            ;
        }
        let prod: u128 = draw as u128 * d;
        let k = (prod >> 64) as i128;
        proof {
            vstd::bits::lemma_u128_shr_is_div(prod, 64);
            vstd::arithmetic::power2::lemma2_to64();
            assert(prod < d * 0x1_0000_0000_0000_0000) by (nonlinear_arith)
                requires
                    draw as u128 <= 0xffff_ffff_ffff_ffffu128,
                    prod == draw as u128 * d,
                    1 <= d,
            ;
            assert(prod / 0x1_0000_0000_0000_0000u128 < d) by (nonlinear_arith)
                requires
                    prod < d * 0x1_0000_0000_0000_0000,
            ;
            assert(draw == spec_out64(old(rng).state()));
            assert(k == (draw * (r - l + 1)) / 0x1_0000_0000_0000_0000);
        }
        (l as i128 + k) as i64
    }
}

impl Range for u64 {
    open spec fn ordered(l: u64, r: u64) -> bool {
        l <= r
    }

    open spec fn between(l: u64, x: u64, r: u64) -> bool {
        l <= x <= r
    }

    open spec fn spec_draws() -> nat {
        2
    }

    open spec fn spec_pick(s: u64, l: u64, r: u64) -> u64 {
        if r - l == 0xffff_ffff_ffff_ffffint {
            spec_out64(s)
        } else {
            (l + (spec_out64(s) * (r - l + 1)) / 0x1_0000_0000_0000_0000) as u64
        }
    }

    #[verifier::rlimit(100)]
    fn range(rng: &mut Rng, l: u64, r: u64) -> (res: u64) {
        proof {
            reveal_with_fuel(spec_steps, 3);
            assert(spec_steps(old(rng).state(), 2) == spec_step(spec_step(old(rng).state())));
        }
        let w: u64 = r - l;
        if w == 0xffff_ffff_ffff_ffffu64 {
            return rng.next_u64();
        }
        let d = w as u128 + 1;
        let draw = rng.next_u64();
        proof {
            assert((draw as u128 * d) < 0x1_0000_0000_0000_0000_0000_0000_0000_0000int)
                by (nonlinear_arith)
                requires
                    draw as u128 <= 0xffff_ffff_ffff_ffffu128,
                    d <= 0x1_0000_0000_0000_0000u128,
            ;
        }
        let prod: u128 = draw as u128 * d;
        let k = (prod >> 64) as u128;
        proof {
            vstd::bits::lemma_u128_shr_is_div(prod, 64);
            vstd::arithmetic::power2::lemma2_to64();
            assert(prod < d * 0x1_0000_0000_0000_0000) by (nonlinear_arith)
                requires
                    draw as u128 <= 0xffff_ffff_ffff_ffffu128,
                    prod == draw as u128 * d,
                    1 <= d,
            ;
            assert(prod / 0x1_0000_0000_0000_0000u128 < d) by (nonlinear_arith)
                requires
                    prod < d * 0x1_0000_0000_0000_0000,
            ;
            assert(draw == spec_out64(old(rng).state()));
            assert(k == (draw * (r - l + 1)) / 0x1_0000_0000_0000_0000);
        }
        l + k as u64
    }
}

impl Range for usize {
    open spec fn ordered(l: usize, r: usize) -> bool {
        l <= r
    }

    open spec fn between(l: usize, x: usize, r: usize) -> bool {
        l <= x <= r
    }

    open spec fn spec_draws() -> nat {
        2
    }

    open spec fn spec_pick(s: u64, l: usize, r: usize) -> usize {
        if r - l == 0xffff_ffff_ffff_ffffint {
            spec_out64(s) as usize
        } else {
            (l + (spec_out64(s) * (r - l + 1)) / 0x1_0000_0000_0000_0000) as usize
        }
    }

    #[verifier::rlimit(100)]
    fn range(rng: &mut Rng, l: usize, r: usize) -> (res: usize) {
        proof {
            reveal_with_fuel(spec_steps, 3);
            assert(spec_steps(old(rng).state(), 2) == spec_step(spec_step(old(rng).state())));
        }
        let w: u128 = r as u128 - l as u128;
        if w == 0xffff_ffff_ffff_ffffu128 {
            return rng.next_u64() as usize;
        }
        let d = w + 1;
        let draw = rng.next_u64();
        proof {
            assert((draw as u128 * d) < 0x1_0000_0000_0000_0000_0000_0000_0000_0000int)
                by (nonlinear_arith)
                requires
                    draw as u128 <= 0xffff_ffff_ffff_ffffu128,
                    d <= 0x1_0000_0000_0000_0000u128,
            ;
        }
        let prod: u128 = draw as u128 * d;
        let k = (prod >> 64) as u128;
        proof {
            vstd::bits::lemma_u128_shr_is_div(prod, 64);
            vstd::arithmetic::power2::lemma2_to64();
            assert(prod < d * 0x1_0000_0000_0000_0000) by (nonlinear_arith)
                requires
                    draw as u128 <= 0xffff_ffff_ffff_ffffu128,
                    prod == draw as u128 * d,
                    1 <= d,
            ;
            assert(prod / 0x1_0000_0000_0000_0000u128 < d) by (nonlinear_arith)
                requires
                    prod < d * 0x1_0000_0000_0000_0000,
            ;
            assert(draw == spec_out64(old(rng).state()));
            assert(k == (draw * (r - l + 1)) / 0x1_0000_0000_0000_0000);
        }
        l + k as usize
    }
}

} // verus!
