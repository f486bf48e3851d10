//! One row of a banded linear system over GF(2).
use crate::bits::bit;
use crate::bits::bit_at;
use crate::bits::lemma_bit_and;
use crate::bits::lemma_bit_xor;
use crate::bits::lemma_parity_xor;
use crate::bits::lemma_xor_sum_add;
use crate::bits::lemma_xor_sum_ext;
use crate::bits::lemma_xor_sum_shift;
use crate::bits::lemma_xor_sum_split;
use crate::bits::lemma_xor_sum_zero;
use crate::bits::parity;
use crate::bits::parity_of;
use crate::bits::window;
use crate::bits::xor_sum;
use vstd::prelude::*;

verus! {

/// The products that make up the dot product of the coefficient bits `a` with the bits of `z`
/// from bit `s` on.
pub open spec fn dot_term(a: Seq<u64>, z: Seq<u64>, s: int) -> spec_fn(int) -> bool {
    |j: int| bit_at(a, j) && bit_at(z, s + j)
}

/// The dot product over GF(2) of the coefficient bits `a` with the window of `z` that begins at
/// bit `s`.
pub open spec fn dot(a: Seq<u64>, z: Seq<u64>, s: int) -> bool {
    xor_sum(dot_term(a, z, s), 0, 64 * (a.len() as int))
}

/// A row of a linear system over GF(2): the coefficients `coeffs`, read as a vector of `64 * W`
/// bits, apply to the unknowns from `start` on, and the row asks for their dot product to equal
/// `target`.
#[derive(Clone, Copy, Debug)]
pub struct Equation<const W: usize> {
    pub start: usize,
    pub coeffs: [u64; W],
    pub target: bool,
}

impl<const W: usize> Equation<W> {
    /// The left-hand side of the row under the assignment `z`.
    pub open spec fn value(&self, z: Seq<u64>) -> bool {
        dot(self.coeffs@, z, self.start as int)
    }

    /// Whether the assignment `z` satisfies the row.
    pub open spec fn holds(&self, z: Seq<u64>) -> bool {
        self.value(z) == self.target
    }

    /// Whether every coefficient is zero.
    pub open spec fn vanishes(&self) -> bool {
        forall|i: int| 0 <= i < W ==> self.coeffs[i] == 0
    }

    /// Whether the coefficient of the unknown at `start` is one.
    pub open spec fn aligned(&self) -> bool {
        W > 0 && bit(self.coeffs[0], 0)
    }

    /// The row with the given coefficients and target zero.
    pub fn homogeneous(start: usize, coeffs: [u64; W]) -> (e: Self)
        ensures
            e.start == start,
            e.coeffs == coeffs,
            !e.target,
    {
        Equation { start, coeffs, target: false }
    }

    /// The row with the given coefficients and target one.
    pub fn inhomogeneous(start: usize, coeffs: [u64; W]) -> (e: Self)
        ensures
            e.start == start,
            e.coeffs == coeffs,
            e.target,
    {
        Equation { start, coeffs, target: true }
    }

    /// The row without coefficients at `start`.
    pub fn zero(start: usize) -> (e: Self)
        ensures
            e.start == start,
            e.vanishes(),
            !e.target,
    {
        Equation { start, coeffs: [0u64;W], target: false }
    }

    /// Tells whether every coefficient is zero.
    pub fn is_zero(&self) -> (r: bool)
        ensures
            r == self.vanishes(),
    {
        let mut i: usize = 0;
        while i < W
            invariant
                i <= W,
                forall|k: int| 0 <= k < i ==> self.coeffs[k] == 0,
            decreases W - i,
        {
            if self.coeffs[i] != 0 {
                return false;
            }
            i += 1;
        }
        true
    }

    /// Tells whether the coefficient of the unknown at `start` is one.
    pub fn is_aligned(&self) -> (r: bool)
        ensures
            r == self.aligned(),
    {
        if W == 0 {
            return false;
        }
        let c: u64 = self.coeffs[0];
        proof {
            assert((c >> 0) & 1 == c & 1) by (bit_vector);
        }
        c & 1 == 1
    }

    /// An aligned row has a coefficient.
    pub proof fn lemma_aligned_not_vanishing(&self)
        requires
            self.aligned(),
        ensures
            !self.vanishes(),
    {
        let first: u64 = self.coeffs[0];
        assert((first >> 0) & 1 == 1 ==> first != 0) by (bit_vector);
    }

    /// A row without coefficients has the value zero under every assignment.
    pub proof fn lemma_vanishing_value(&self, z: Seq<u64>)
        requires
            self.vanishes(),
        ensures
            !self.value(z),
    {
        let f = dot_term(self.coeffs@, z, self.start as int);
        assert forall|j: int| 0 <= j < 64 * W implies !#[trigger] f(j) by {
            let ju = (j % 64) as u64;
            assert((0u64 >> ju) & 1 == 0) by (bit_vector);
        }
        lemma_xor_sum_zero(f, 0, 64 * W);
    }

    /// The value of a row depends only on the unknowns from `start` on: two assignments that
    /// agree there give the same value.
    pub proof fn lemma_value_frame(&self, z1: Seq<u64>, z2: Seq<u64>)
        requires
            forall|i: int| i >= self.start ==> bit_at(z1, i) == bit_at(z2, i),
        ensures
            self.value(z1) == self.value(z2),
    {
        let f1 = dot_term(self.coeffs@, z1, self.start as int);
        let f2 = dot_term(self.coeffs@, z2, self.start as int);
        assert forall|j: int| 0 <= j < 64 * W implies #[trigger] f1(j) == #[trigger] f2(j) by {
            assert(bit_at(z1, self.start + j) == bit_at(z2, self.start + j));
        }
        lemma_xor_sum_ext(f1, f2, 0, 64 * W);
    }

    /// Evaluates the left-hand side of the row against the packed assignment `z`.
    pub fn eval(&self, z: &[u64]) -> (r: bool)
        ensures
            r == self.value(z@),
    {
        let limb: usize = self.start / 64;
        let shift: usize = self.start % 64;
        let ghost f = dot_term(self.coeffs@, z@, self.start as int);
        let mut acc: u64 = 0;
        let mut i: usize = 0;
        proof {
            let zero = |j: int| bit(0u64, j);
            assert forall|j: int| 0 <= j < 64 implies !#[trigger] zero(j) by {
                let ju = j as u64;
                assert((0u64 >> ju) & 1 == 0) by (bit_vector);
            }
            lemma_xor_sum_zero(zero, 0, 64);
        }
        while i < W
            invariant
                i <= W,
                limb == self.start / 64,
                shift == self.start % 64,
                f == dot_term(self.coeffs@, z@, self.start as int),
                parity_of(acc) == xor_sum(f, 0, 64 * i),
            decreases W - i,
        {
            let c: u64 = self.coeffs[i];
            let w: u64 = if i <= usize::MAX - limb {
                window(z, limb + i, shift)
            } else {
                0
            };
            proof {
                let g = |j: int| bit(c & w, j);
                assert(self.start == 64 * limb + shift);
                assert forall|j: int| 0 <= j < 64 implies #[trigger] g(j) == f(j + 64 * i) by {
                    lemma_bit_and(c, w, j);
                    if i <= usize::MAX - limb {
                        assert(bit(w, j) == bit_at(z@, 64 * (limb + i) + shift + j));
                    } else {
                        let ju = j as u64;
                        assert((0u64 >> ju) & 1 == 0) by (bit_vector);
                        assert(z@.len() == z.len());
                        assert(self.start + j + 64 * i >= 64 * z@.len());
                        assert(!bit_at(z@, self.start + j + 64 * i));
                    }
                    assert((64 * i + j) / 64 == i && (64 * i + j) % 64 == j);
                    assert(bit_at(self.coeffs@, 64 * i + j) == bit(c, j));
                    assert(g(j) == (bit(c, j) && bit(w, j)));
                    assert(f(j + 64 * i) == (bit_at(self.coeffs@, j + 64 * i) && bit_at(
                        z@,
                        self.start + (j + 64 * i),
                    )));
                }
                lemma_xor_sum_shift(f, g, 0, 64, 64 * i);
                lemma_xor_sum_split(f, 0, 64 * i, 64 * i + 64);
                lemma_parity_xor(acc, c & w);
            }
            acc = acc ^ (c & w);
            i += 1;
        }
        parity(acc)
    }

    /// Moves the row to its lowest nonzero coefficient: afterwards the row is aligned, unless it
    /// has no coefficient at all, and it has the same value as before under every assignment.
    pub fn align(&mut self)
        requires
            old(self).start + 64 * W <= usize::MAX,
        ensures
            final(self).target == old(self).target,
            forall|z: Seq<u64>| #[trigger] final(self).value(z) == old(self).value(z),
            old(self).vanishes() ==> *final(self) == *old(self),
            !old(self).vanishes() ==> final(self).aligned() && old(self).start <= final(self).start
                < old(self).start + 64 * W,
            old(self).aligned() ==> *final(self) == *old(self),
            !old(self).vanishes() && !old(self).aligned() ==> final(self).start > old(self).start,
            forall|j: int|
                0 <= j < 64 * W ==> bit_at(final(self).coeffs@, j) == bit_at(
                    old(self).coeffs@,
                    j + final(self).start - old(self).start,
                ),
    {
        let mut k: usize = 0;
        while k < W && self.coeffs[k] == 0
            invariant
                k <= W,
                *self == *old(self),
                forall|i: int| 0 <= i < k ==> self.coeffs[i] == 0,
            decreases W - k,
        {
            k += 1;
        }
        if k == W {
            return ;
        }
        let low: u64 = self.coeffs[k];
        let tz: u32 = low.trailing_zeros();
        assert(tz < 64);
        let t: usize = 64 * k + tz as usize;
        proof {
            if old(self).aligned() {
                let first: u64 = self.coeffs[0];
                assert((first >> 0) & 1 == 1 ==> first != 0) by (bit_vector);
                assert(k == 0);
                if tz > 0 {
                    assert((low >> 0u64) & 1 == 0);
                }
            }
        }
        if t == 0 {
            proof {
                assert((low >> (tz as u64)) & 1 == 1);
            }
            return ;
        }
        let mut shifted: [u64; W] = [0u64;W];
        let mut i: usize = 0;
        while i < W
            invariant
                i <= W,
                k < W,
                tz < 64,
                *self == *old(self),
                forall|n: int, j: int|
                    0 <= n < i && 0 <= j < 64 ==> bit(#[trigger] shifted[n], j) == #[trigger] bit_at(
                        self.coeffs@,
                        64 * (n + k) + tz + j,
                    ),
            decreases W - i,
        {
            let w: u64 = if i <= usize::MAX - k {
                window(self.coeffs.as_slice(), i + k, tz as usize)
            } else {
                0
            };
            proof {
                if i > usize::MAX - k {
                    assert forall|j: int| 0 <= j < 64 implies !bit(w, j) by {
                        let ju = j as u64;
                        assert((0u64 >> ju) & 1 == 0) by (bit_vector);
                    }
                }
            }
            shifted[i] = w;
            i += 1;
        }
        proof {
            let a = self.coeffs@;
            let a2 = shifted@;
            let s = self.start as int;
            let n = 64 * W as int;
            assert forall|j: int| 0 <= j < t implies !bit_at(a, j) by {
                if j / 64 < k {
                    let ju = (j % 64) as u64;
                    assert((0u64 >> ju) & 1 == 0) by (bit_vector);
                } else {
                    let ju = (j % 64) as u64;
                    assert(j / 64 == k);
                    assert(ju < tz);
                    assert((low >> ju) & 1 == 0);
                }
            }
            assert forall|j: int| 0 <= j < n implies bit_at(a2, j) == bit_at(a, j + t) by {
                assert(bit(shifted[j / 64], j % 64) == bit_at(a, 64 * (j / 64 + k) + tz + j % 64));
            }
            assert forall|z: Seq<u64>|
                dot(a2, z, s + t) == dot(a, z, s) by {
                let f = dot_term(a, z, s);
                let g = dot_term(a2, z, s + t);
                lemma_xor_sum_split(f, 0, t as int, n);
                lemma_xor_sum_zero(f, 0, t as int);
                lemma_xor_sum_shift(f, g, 0, n - t, t as int);
                lemma_xor_sum_split(g, 0, n - t, n);
                lemma_xor_sum_zero(g, n - t, n);
            }
            assert((low >> (tz as u64)) & 1 == 1);
            assert(bit_at(a2, 0) == bit_at(a, t as int));
            assert(bit_at(a, t as int) == bit(low, tz as int));
        }
        self.coeffs = shifted;
        self.start = self.start + t;
    }

    /// Adds `other` to the row and aligns the sum: the new row holds under an assignment exactly
    /// when the old row and `other` either both hold or both fail.
    pub fn add(&mut self, other: &Equation<W>)
        requires
            old(self).start == other.start,
            old(self).start + 64 * W <= usize::MAX,
        ensures
            final(self).target == (old(self).target != other.target),
            forall|z: Seq<u64>| #[trigger]
                final(self).value(z) == (old(self).value(z) != other.value(z)),
            final(self).vanishes() || final(self).aligned(),
            old(self).start <= final(self).start,
            final(self).vanishes() || final(self).start < old(self).start + 64 * W,
            old(self).aligned() && other.aligned() && !final(self).vanishes() ==> final(self).start
                > old(self).start,
            forall|j: int|
                0 <= j < 64 * W ==> bit_at(final(self).coeffs@, j) == (bit_at(
                    old(self).coeffs@,
                    j + final(self).start - old(self).start,
                ) != bit_at(other.coeffs@, j + final(self).start - old(self).start)),
    {
        let mut i: usize = 0;
        while i < W
            invariant
                i <= W,
                self.start == old(self).start,
                self.target == old(self).target,
                forall|k: int| 0 <= k < i ==> self.coeffs[k] == old(self).coeffs[k] ^ other.coeffs[k],
                forall|k: int| i <= k < W ==> self.coeffs[k] == old(self).coeffs[k],
            decreases W - i,
        {
            let x: u64 = self.coeffs[i] ^ other.coeffs[i];
            self.coeffs[i] = x;
            i += 1;
        }
        self.target = self.target != other.target;
        proof {
            let a = old(self).coeffs@;
            let b = other.coeffs@;
            let c = self.coeffs@;
            let s = self.start as int;
            assert forall|j: int| 0 <= j < 64 * W implies bit_at(c, j) == (bit_at(a, j) != bit_at(
                b,
                j,
            )) by {
                lemma_bit_xor(a[j / 64], b[j / 64], j % 64);
            }
            assert forall|z: Seq<u64>| dot(c, z, s) == (dot(a, z, s) != dot(b, z, s)) by {
                lemma_xor_sum_add(dot_term(a, z, s), dot_term(b, z, s), dot_term(c, z, s), 0, 64 * W);
            }
            if old(self).aligned() && other.aligned() {
                lemma_bit_xor(a[0], b[0], 0);
                assert(!bit(self.coeffs[0], 0));
            }
        }
        self.align();
    }
}

} // verus!
