//! Bit vectors over GF(2): single bits of packed words, XOR sums, parity and 64-bit windows.
use vstd::prelude::*;

verus! {

/// Bit `j` of the word `x`, for `0 <= j < 64`.
pub open spec fn bit(x: u64, j: int) -> bool {
    (x >> (j as u64)) & 1 == 1
}

/// Bit `i` of the bit vector packed into `words`, least significant bit first. Every bit outside
/// the vector is zero.
pub open spec fn bit_at(words: Seq<u64>, i: int) -> bool {
    0 <= i < 64 * words.len() && bit(words[i / 64], i % 64)
}

/// The sum over GF(2) of `f(lo), ..., f(hi - 1)`.
pub open spec fn xor_sum(f: spec_fn(int) -> bool, lo: int, hi: int) -> bool
    decreases hi - lo,
{
    if hi <= lo {
        false
    } else {
        xor_sum(f, lo, hi - 1) != f(hi - 1)
    }
}

/// The sum of a function that vanishes on the whole range is zero.
pub proof fn lemma_xor_sum_zero(f: spec_fn(int) -> bool, lo: int, hi: int)
    requires
        forall|j: int| lo <= j < hi ==> !#[trigger] f(j),
    ensures
        !xor_sum(f, lo, hi),
    decreases hi - lo,
{
    if lo < hi {
        lemma_xor_sum_zero(f, lo, hi - 1);
    }
}

/// Two functions that agree on the range have the same sum.
pub proof fn lemma_xor_sum_ext(f: spec_fn(int) -> bool, g: spec_fn(int) -> bool, lo: int, hi: int)
    requires
        forall|j: int| lo <= j < hi ==> #[trigger] f(j) == #[trigger] g(j),
    ensures
        xor_sum(f, lo, hi) == xor_sum(g, lo, hi),
    decreases hi - lo,
{
    if lo < hi {
        lemma_xor_sum_ext(f, g, lo, hi - 1);
    }
}

/// A sum splits at any point of its range.
pub proof fn lemma_xor_sum_split(f: spec_fn(int) -> bool, lo: int, mid: int, hi: int)
    requires
        lo <= mid <= hi,
    ensures
        xor_sum(f, lo, hi) == (xor_sum(f, lo, mid) != xor_sum(f, mid, hi)),
    decreases hi - mid,
{
    if mid < hi {
        lemma_xor_sum_split(f, lo, mid, hi - 1);
    }
}

/// The sum of `f` over `[lo + t, hi + t)` is the sum of `g` over `[lo, hi)` when `g(j) == f(j + t)`.
pub proof fn lemma_xor_sum_shift(
    f: spec_fn(int) -> bool,
    g: spec_fn(int) -> bool,
    lo: int,
    hi: int,
    t: int,
)
    requires
        forall|j: int| lo <= j < hi ==> #[trigger] g(j) == f(j + t),
    ensures
        xor_sum(f, lo + t, hi + t) == xor_sum(g, lo, hi),
    decreases hi - lo,
{
    if lo < hi {
        lemma_xor_sum_shift(f, g, lo, hi - 1, t);
    }
}

/// The sum of a pointwise sum is the sum of the sums.
pub proof fn lemma_xor_sum_add(
    f: spec_fn(int) -> bool,
    g: spec_fn(int) -> bool,
    h: spec_fn(int) -> bool,
    lo: int,
    hi: int,
)
    requires
        forall|j: int| lo <= j < hi ==> #[trigger] h(j) == (f(j) != g(j)),
    ensures
        xor_sum(h, lo, hi) == (xor_sum(f, lo, hi) != xor_sum(g, lo, hi)),
    decreases hi - lo,
{
    if lo < hi {
        lemma_xor_sum_add(f, g, h, lo, hi - 1);
    }
}

/// Changing the function at one point of the range flips the sum exactly when the value there
/// changes.
pub proof fn lemma_xor_sum_update(
    f: spec_fn(int) -> bool,
    g: spec_fn(int) -> bool,
    lo: int,
    hi: int,
    p: int,
)
    requires
        lo <= p < hi,
        forall|j: int| lo <= j < hi && j != p ==> #[trigger] f(j) == #[trigger] g(j),
    ensures
        xor_sum(g, lo, hi) == (xor_sum(f, lo, hi) != (f(p) != g(p))),
{
    lemma_xor_sum_split(f, lo, p, hi);
    lemma_xor_sum_split(g, lo, p, hi);
    lemma_xor_sum_split(f, p, p + 1, hi);
    lemma_xor_sum_split(g, p, p + 1, hi);
    lemma_xor_sum_ext(f, g, lo, p);
    lemma_xor_sum_ext(f, g, p + 1, hi);
    assert(xor_sum(f, p, p + 1) == f(p)) by {
        assert(!xor_sum(f, p, p));
    }
    assert(xor_sum(g, p, p + 1) == g(p)) by {
        assert(!xor_sum(g, p, p));
    }
}

/// The parity of a word: the sum over GF(2) of its 64 bits.
pub open spec fn parity_of(x: u64) -> bool {
    xor_sum(|j: int| bit(x, j), 0, 64)
}

proof fn lemma_fold_half(x: u64, n: int)
    requires
        n == 1 || n == 2 || n == 4 || n == 8 || n == 16 || n == 32,
    ensures
        xor_sum(|j: int| bit(x, j), 0, 2 * n) == xor_sum(|j: int| bit(x ^ (x >> (n as u64)), j), 0, n),
{
    let f = |j: int| bit(x, j);
    let g = |j: int| bit(x >> (n as u64), j);
    let h = |j: int| bit(x ^ (x >> (n as u64)), j);
    lemma_xor_sum_split(f, 0, n, 2 * n);
    assert forall|j: int| 0 <= j < n implies #[trigger] g(j) == f(j + n) by {
        let ju = j as u64;
        let nu = n as u64;
        assert(ju < 32 && nu <= 32 ==> ((x >> nu) >> ju) & 1 == (x >> ((ju + nu) as u64)) & 1)
            by (bit_vector);
    }
    lemma_xor_sum_shift(f, g, 0, n, n);
    assert forall|j: int| 0 <= j < n implies #[trigger] h(j) == (f(j) != g(j)) by {
        let ju = j as u64;
        let y = x >> (n as u64);
        assert(((x ^ y) >> ju) & 1 == 1 <==> (((x >> ju) & 1 == 1) != ((y >> ju) & 1 == 1)))
            by (bit_vector);
    }
    lemma_xor_sum_add(f, g, h, 0, n);
}

/// Computes the parity of a word.
pub fn parity(x: u64) -> (p: bool)
    ensures
        p == parity_of(x),
{
    let x32 = x ^ (x >> 32);
    let x16 = x32 ^ (x32 >> 16);
    let x8 = x16 ^ (x16 >> 8);
    let x4 = x8 ^ (x8 >> 4);
    let x2 = x4 ^ (x4 >> 2);
    let x1 = x2 ^ (x2 >> 1);
    proof {
        lemma_fold_half(x, 32);
        lemma_fold_half(x32, 16);
        lemma_fold_half(x16, 8);
        lemma_fold_half(x8, 4);
        lemma_fold_half(x4, 2);
        lemma_fold_half(x2, 1);
        let f = |j: int| bit(x1, j);
        assert(xor_sum(f, 0, 1) == f(0)) by {
            assert(!xor_sum(f, 0, 0));
        }
        assert((x1 >> 0) & 1 == x1 & 1) by (bit_vector);
    }
    x1 & 1 == 1
}

/// The parity of the XOR of two words is the sum of their parities.
pub proof fn lemma_parity_xor(x: u64, y: u64)
    ensures
        parity_of(x ^ y) == (parity_of(x) != parity_of(y)),
{
    let f = |j: int| bit(x, j);
    let g = |j: int| bit(y, j);
    let h = |j: int| bit(x ^ y, j);
    assert forall|j: int| 0 <= j < 64 implies #[trigger] h(j) == (f(j) != g(j)) by {
        let ju = j as u64;
        assert(((x ^ y) >> ju) & 1 == 1 <==> (((x >> ju) & 1 == 1) != ((y >> ju) & 1 == 1)))
            by (bit_vector);
    }
    lemma_xor_sum_add(f, g, h, 0, 64);
}

/// Bit `j` of the AND of two words is the product of their bits.
pub proof fn lemma_bit_and(x: u64, y: u64, j: int)
    requires
        0 <= j < 64,
    ensures
        bit(x & y, j) == (bit(x, j) && bit(y, j)),
{
    let ju = j as u64;
    assert(((x & y) >> ju) & 1 == 1 <==> (((x >> ju) & 1 == 1) && ((y >> ju) & 1 == 1)))
        by (bit_vector);
}

/// Bit `j` of the XOR of two words is the sum of their bits.
pub proof fn lemma_bit_xor(x: u64, y: u64, j: int)
    requires
        0 <= j < 64,
    ensures
        bit(x ^ y, j) == (bit(x, j) != bit(y, j)),
{
    let ju = j as u64;
    assert(((x ^ y) >> ju) & 1 == 1 <==> (((x >> ju) & 1 == 1) != ((y >> ju) & 1 == 1)))
        by (bit_vector);
}

/// The 64 bits of the bit vector that start at bit `shift` of word `limb`.
pub fn window(words: &[u64], limb: usize, shift: usize) -> (w: u64)
    requires
        shift < 64,
    ensures
        forall|j: int| 0 <= j < 64 ==> #[trigger] bit(w, j) == bit_at(words@, 64 * limb + shift + j),
{
    let lo: u64 = if limb < words.len() {
        words[limb]
    } else {
        0
    };
    let hi: u64 = if limb < words.len() && limb + 1 < words.len() {
        words[limb + 1]
    } else {
        0
    };
    let w: u64 = if shift == 0 {
        lo
    } else {
        (lo >> shift) | (hi << (64 - shift))
    };
    proof {
        let su = shift as u64;
        assert forall|j: int| 0 <= j < 64 implies #[trigger] bit(w, j) == bit_at(
            words@,
            64 * limb + shift + j,
        ) by {
            let ju = j as u64;
            assert((0u64 >> ju) & 1 == 0) by (bit_vector);
            let k = (j + shift) % 64;
            let ku = k as u64;
            assert((0u64 >> ku) & 1 == 0) by (bit_vector);
            if shift == 0 {
            } else if j + shift < 64 {
                assert(0 < su < 64 && ju < 64 && ju + su < 64 ==> (((lo >> su) | (hi << ((64
                    - su) as u64))) >> ju) & 1 == (lo >> ((ju + su) as u64)) & 1) by (bit_vector);
            } else {
                assert(0 < su < 64 && ju < 64 && ju + su >= 64 ==> (((lo >> su) | (hi << ((64
                    - su) as u64))) >> ju) & 1 == (hi >> ((ju + su - 64) as u64)) & 1)
                    by (bit_vector);
            }
        }
    }
    w
}

} // verus!
