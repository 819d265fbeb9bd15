//! Treating a byte vector as a set of bits: single-bit reads and writes,
//! counting, bulk boolean operations, reversal, and rendering. Bit `i`
//! lives in byte `i / 8` at position `i % 8`.

use vstd::prelude::*;

verus! {

/// Whether bit `i` of the byte sequence is set.
pub open spec fn spec_bit(s: Seq<u8>, i: int) -> bool {
    (s[i / 8] >> ((i % 8) as u8)) & 1 == 1
}

/// The number of set bits among the low `k` bits of one byte.
pub open spec fn ones8(w: u8, k: nat) -> nat
    decreases k,
{
    if k == 0 {
        0
    } else {
        ones8(w, (k - 1) as nat) + (if (w >> ((k - 1) as u8)) & 1 == 1 {
            1nat
        } else {
            0
        })
    }
}

/// The number of set bits in the first `k` bytes.
pub open spec fn total_ones(s: Seq<u8>, k: int) -> nat
    decreases k,
{
    if k <= 0 {
        0
    } else {
        total_ones(s, k - 1) + ones8(s[k - 1], 8)
    }
}

/// A byte vector read as a bit set.
pub trait BitSet: Sized {
    /// The underlying bytes, at the specification level.
    spec fn bits(&self) -> Seq<u8>;

    /// The number of addressable bits.
    fn len_bits(&self) -> (r: usize)
        requires
            self.bits().len() <= usize::MAX / 8,
        ensures
            r == 8 * self.bits().len(),
    ;

    /// Reads bit `i`.
    fn bit(&self, i: usize) -> (r: bool)
        requires
            i < 8 * self.bits().len(),
        ensures
            r == spec_bit(self.bits(), i as int),
    ;

    /// Writes bit `i` to `f` and returns its previous value.
    fn set_bit(&mut self, i: usize, f: bool) -> (r: bool)
        requires
            i < 8 * old(self).bits().len(),
        ensures
            r == spec_bit(old(self).bits(), i as int),
            final(self).bits().len() == old(self).bits().len(),
            forall|j: int|
                0 <= j < 8 * old(self).bits().len() && j != i ==> spec_bit(final(self).bits(), j)
                    == spec_bit(old(self).bits(), j),
            spec_bit(final(self).bits(), i as int) == f,
    ;

    /// Flips bit `i` and returns its previous value.
    fn flip_bit(&mut self, i: usize) -> (r: bool)
        requires
            i < 8 * old(self).bits().len(),
        ensures
            r == spec_bit(old(self).bits(), i as int),
            final(self).bits().len() == old(self).bits().len(),
            forall|j: int|
                0 <= j < 8 * old(self).bits().len() && j != i ==> spec_bit(final(self).bits(), j)
                    == spec_bit(old(self).bits(), j),
            spec_bit(final(self).bits(), i as int) == !spec_bit(old(self).bits(), i as int),
    ;

    /// Counts the set bits.
    fn count_ones(&self) -> (r: usize)
        requires
            self.bits().len() <= usize::MAX / 8,
        ensures
            r == total_ones(self.bits(), self.bits().len() as int),
    ;

    /// Complements every bit.
    fn not(&mut self)
        ensures
            final(self).bits().len() == old(self).bits().len(),
            forall|k: int|
                0 <= k < old(self).bits().len() ==> final(self).bits()[k] == !#[trigger] old(
                    self,
                ).bits()[k],
    ;

    /// Intersects with `other`, bitwise.
    fn and(&mut self, other: &Self)
        requires
            old(self).bits().len() == other.bits().len(),
        ensures
            final(self).bits().len() == old(self).bits().len(),
            forall|k: int|
                0 <= k < old(self).bits().len() ==> final(self).bits()[k] == (#[trigger] old(
                    self,
                ).bits()[k] & other.bits()[k]),
    ;

    /// Unions with `other`, bitwise.
    fn or(&mut self, other: &Self)
        requires
            old(self).bits().len() == other.bits().len(),
        ensures
            final(self).bits().len() == old(self).bits().len(),
            forall|k: int|
                0 <= k < old(self).bits().len() ==> final(self).bits()[k] == (#[trigger] old(
                    self,
                ).bits()[k] | other.bits()[k]),
    ;

    /// Symmetric difference with `other`, bitwise.
    fn xor(&mut self, other: &Self)
        requires
            old(self).bits().len() == other.bits().len(),
        ensures
            final(self).bits().len() == old(self).bits().len(),
            forall|k: int|
                0 <= k < old(self).bits().len() ==> final(self).bits()[k] == (#[trigger] old(
                    self,
                ).bits()[k] ^ other.bits()[k]),
    ;

    /// Removes `other`'s bits, bitwise.
    fn difference(&mut self, other: &Self)
        requires
            old(self).bits().len() == other.bits().len(),
        ensures
            final(self).bits().len() == old(self).bits().len(),
            forall|k: int|
                0 <= k < old(self).bits().len() ==> final(self).bits()[k] == (#[trigger] old(
                    self,
                ).bits()[k] & !(other.bits()[k])),
    ;

    /// Reverses the order of all bits.
    fn reverse_bits(&mut self)
        ensures
            final(self).bits().len() == old(self).bits().len(),
    ;

    /// Renders the bits in index order as a string of `0` and `1`.
    fn display_bits(&self) -> (r: String)
        requires
            self.bits().len() <= usize::MAX / 8,
        ensures
            r@.len() == 8 * self.bits().len(),
            forall|i: int|
                0 <= i < 8 * self.bits().len() ==> r@[i] == (if spec_bit(self.bits(), i) {
                    '1'
                } else {
                    '0'
                }),
    ;

    /// The indices of all set bits, in increasing order.
    fn one_positions(&self) -> (r: Vec<usize>)
        requires
            self.bits().len() <= usize::MAX / 8,
        ensures
            forall|t: int|
                0 <= t < r@.len() ==> #[trigger] r@[t] < 8 * self.bits().len() && spec_bit(
                    self.bits(),
                    r@[t] as int,
                ),
    ;
}

/// Counts the set bits of one byte.
fn byte_ones(w: u8) -> (r: usize)
    ensures
        r == ones8(w, 8),
        r <= 8,
{
    let mut count: usize = 0;
    let mut j: usize = 0;
    while j < 8
        invariant
            j <= 8,
            count == ones8(w, j as nat),
            count <= j,
        decreases 8 - j,
    {
        if (w >> (j as u8)) & 1 == 1 {
            count += 1;
        }
        j += 1;
    }
    count
}

/// The byte and in-byte position of bit index `8*k + j`.
proof fn lemma_bit_addr(k: int, j: int) by (nonlinear_arith)
    requires
        0 <= j < 8,
        0 <= k,
    ensures
        (8 * k + j) / 8 == k,
        (8 * k + j) % 8 == j,
{
}

impl BitSet for Vec<u8> {
    open spec fn bits(&self) -> Seq<u8> {
        self@
    }

    fn len_bits(&self) -> (r: usize) {
        8 * self.len()
    }

    fn bit(&self, i: usize) -> (r: bool) {
        (self[i / 8] >> ((i % 8) as u8)) & 1 == 1
    }

    fn set_bit(&mut self, i: usize, f: bool) -> (r: bool) {
        let orig = (self[i / 8] >> ((i % 8) as u8)) & 1 == 1;
        let q = i / 8;
        let r8 = (i % 8) as u8;
        let b = self[q];
        let nb = if f {
            b | (1u8 << r8)
        } else {
            b & !(1u8 << r8)
        };
        self[q] = nb;
        proof {
            lemma_byte_write(b, nb, r8, f);
            assert forall|j: int|
                0 <= j < 8 * old(self)@.len() && j != i implies spec_bit(self@, j) == spec_bit(
                old(self)@,
                j,
            ) by {
                if j / 8 == q {
                    assert(j % 8 != i % 8);
                    assert((j % 8) as u8 != r8);
                }
            }
        }
        orig
    }

    fn flip_bit(&mut self, i: usize) -> (r: bool) {
        let orig = (self[i / 8] >> ((i % 8) as u8)) & 1 == 1;
        let q = i / 8;
        let r8 = (i % 8) as u8;
        let b = self[q];
        let nb = b ^ (1u8 << r8);
        self[q] = nb;
        proof {
            lemma_byte_flip(b, nb, r8);
            assert forall|j: int|
                0 <= j < 8 * old(self)@.len() && j != i implies spec_bit(self@, j) == spec_bit(
                old(self)@,
                j,
            ) by {
                if j / 8 == q {
                    assert(j % 8 != i % 8);
                    assert((j % 8) as u8 != r8);
                }
            }
        }
        orig
    }

    fn count_ones(&self) -> (r: usize) {
        let mut count: usize = 0;
        let mut k: usize = 0;
        while k < self.len()
            invariant
                k <= self@.len(),
                self@.len() <= usize::MAX / 8,
                count == total_ones(self@, k as int),
                count <= 8 * k,
            decreases self@.len() - k,
        {
            let c = byte_ones(self[k]);
            count += c;
            k += 1;
        }
        count
    }

    fn not(&mut self) {
        let n = self.len();
        let mut k: usize = 0;
        while k < n
            invariant
                k <= n,
                self@.len() == n,
                forall|t: int| 0 <= t < k ==> self@[t] == !#[trigger] old(self)@[t],
                forall|t: int| k <= t < n ==> self@[t] == #[trigger] old(self)@[t],
            decreases n - k,
        {
            let b = self[k];
            self[k] = !b;
            k += 1;
        }
    }

    fn and(&mut self, other: &Self) {
        let n = self.len();
        let mut k: usize = 0;
        while k < n
            invariant
                k <= n,
                self@.len() == n,
                other@.len() == n,
                forall|t: int| 0 <= t < k ==> self@[t] == (#[trigger] old(self)@[t] & other@[t]),
                forall|t: int| k <= t < n ==> self@[t] == #[trigger] old(self)@[t],
            decreases n - k,
        {
            let b = self[k];
            self[k] = b & other[k];
            k += 1;
        }
    }

    fn or(&mut self, other: &Self) {
        let n = self.len();
        let mut k: usize = 0;
        while k < n
            invariant
                k <= n,
                self@.len() == n,
                other@.len() == n,
                forall|t: int| 0 <= t < k ==> self@[t] == (#[trigger] old(self)@[t] | other@[t]),
                forall|t: int| k <= t < n ==> self@[t] == #[trigger] old(self)@[t],
            decreases n - k,
        {
            let b = self[k];
            self[k] = b | other[k];
            k += 1;
        }
    }

    fn xor(&mut self, other: &Self) {
        let n = self.len();
        let mut k: usize = 0;
        while k < n
            invariant
                k <= n,
                self@.len() == n,
                other@.len() == n,
                forall|t: int| 0 <= t < k ==> self@[t] == (#[trigger] old(self)@[t] ^ other@[t]),
                forall|t: int| k <= t < n ==> self@[t] == #[trigger] old(self)@[t],
            decreases n - k,
        {
            let b = self[k];
            self[k] = b ^ other[k];
            k += 1;
        }
    }

    fn difference(&mut self, other: &Self) {
        let n = self.len();
        let mut k: usize = 0;
        while k < n
            invariant
                k <= n,
                self@.len() == n,
                other@.len() == n,
                forall|t: int|
                    0 <= t < k ==> self@[t] == (#[trigger] old(self)@[t] & !(other@[t])),
                forall|t: int| k <= t < n ==> self@[t] == #[trigger] old(self)@[t],
            decreases n - k,
        {
            let b = self[k];
            self[k] = b & !other[k];
            k += 1;
        }
    }

    fn reverse_bits(&mut self) {
        let n = self.len();
        let mut out: Vec<u8> = Vec::new();
        let mut k: usize = n;
        while k > 0
            invariant
                k <= n,
                self@.len() == n,
                out@.len() == n - k,
            decreases k,
        {
            k -= 1;
            let b = self[k];
            let mut rev: u8 = 0;
            let mut j: usize = 0;
            while j < 8
                invariant
                    j <= 8,
                decreases 8 - j,
            {
                rev = rev << 1;
                if (b >> (j as u8)) & 1 == 1 {
                    rev = rev | 1;
                }
                j += 1;
            }
            out.push(rev);
        }
        *self = out;
    }

    fn display_bits(&self) -> (r: String) {
        let total = self.len();
        let mut s = String::new();
        proof {
            reveal_strlit("1");
            reveal_strlit("0");
        }
        let mut k: usize = 0;
        while k < total
            invariant
                k <= total,
                total <= usize::MAX / 8,
                self@.len() == total,
                s@.len() == 8 * k,
                forall|i: int|
                    0 <= i < 8 * k ==> s@[i] == (if spec_bit(self@, i) {
                        '1'
                    } else {
                        '0'
                    }),
            decreases total - k,
        {
            let b = self[k];
            let mut j: usize = 0;
            while j < 8
                invariant
                    j <= 8,
                    k < total,
                    total <= usize::MAX / 8,
                    self@.len() == total,
                    b == self@[k as int],
                    s@.len() == 8 * k + j,
                    forall|i: int|
                        0 <= i < 8 * k + j ==> s@[i] == (if spec_bit(self@, i) {
                            '1'
                        } else {
                            '0'
                        }),
                decreases 8 - j,
            {
                proof {
                    reveal_strlit("1");
                    reveal_strlit("0");
                    lemma_bit_addr(k as int, j as int);
                }
                if (b >> (j as u8)) & 1 == 1 {
                    s.append("1");
                } else {
                    s.append("0");
                }
                j += 1;
            }
            k += 1;
        }
        s
    }

    fn one_positions(&self) -> (r: Vec<usize>) {
        let total = self.len();
        let mut r: Vec<usize> = Vec::new();
        let mut k: usize = 0;
        while k < total
            invariant
                k <= total,
                total <= usize::MAX / 8,
                self@.len() == total,
                forall|t: int|
                    0 <= t < r@.len() ==> #[trigger] r@[t] < 8 * k && spec_bit(
                        self@,
                        r@[t] as int,
                    ),
            decreases total - k,
        {
            let b = self[k];
            let mut j: usize = 0;
            while j < 8
                invariant
                    j <= 8,
                    k < total,
                    total <= usize::MAX / 8,
                    self@.len() == total,
                    b == self@[k as int],
                    forall|t: int|
                        0 <= t < r@.len() ==> #[trigger] r@[t] < 8 * k + j && spec_bit(
                            self@,
                            r@[t] as int,
                        ),
                decreases 8 - j,
            {
                if (b >> (j as u8)) & 1 == 1 {
                    proof {
                        lemma_bit_addr(k as int, j as int);
                    }
                    r.push(8 * k + j);
                }
                j += 1;
            }
            k += 1;
        }
        r
    }
}

/// The effect of writing one bit of a byte.
proof fn lemma_byte_write(b: u8, nb: u8, r: u8, f: bool)
    requires
        r < 8,
        nb == (if f {
            b | (1u8 << r)
        } else {
            b & !(1u8 << r)
        }),
    ensures
        forall|j: u8| j < 8 && j != r ==> ((nb >> j) & 1 == 1) == (((b >> j) & 1) == 1),
        ((nb >> r) & 1 == 1) == f,
{
    if f {
        assert forall|j: u8| j < 8 && j != r implies (((b | (1u8 << r)) >> j) & 1 == 1) == (((b
            >> j) & 1) == 1) by {
            assert(j < 8 && r < 8 && j != r ==> (((b | (1u8 << r)) >> j) & 1) == ((b >> j) & 1))
                by (bit_vector);
        }
        assert((((b | (1u8 << r)) >> r) & 1 == 1)) by (bit_vector)
            requires
                r < 8,
        ;
    } else {
        assert forall|j: u8| j < 8 && j != r implies (((b & !(1u8 << r)) >> j) & 1 == 1) == (((b
            >> j) & 1) == 1) by {
            assert(j < 8 && r < 8 && j != r ==> (((b & !(1u8 << r)) >> j) & 1) == ((b >> j) & 1))
                by (bit_vector);
        }
        assert((((b & !(1u8 << r)) >> r) & 1 == 0)) by (bit_vector)
            requires
                r < 8,
        ;
    }
}

/// The effect of flipping one bit of a byte.
proof fn lemma_byte_flip(b: u8, nb: u8, r: u8)
    requires
        r < 8,
        nb == b ^ (1u8 << r),
    ensures
        forall|j: u8| j < 8 && j != r ==> ((nb >> j) & 1 == 1) == (((b >> j) & 1) == 1),
        ((nb >> r) & 1 == 1) == !((b >> r) & 1 == 1),
{
    assert forall|j: u8| j < 8 && j != r implies (((b ^ (1u8 << r)) >> j) & 1 == 1) == (((b >> j)
        & 1) == 1) by {
        assert(j < 8 && r < 8 && j != r ==> (((b ^ (1u8 << r)) >> j) & 1) == ((b >> j) & 1))
            by (bit_vector);
    }
    assert(r < 8 ==> (((b ^ (1u8 << r)) >> r) & 1) == 1 - ((b >> r) & 1)) by (bit_vector);
}

} // verus!
