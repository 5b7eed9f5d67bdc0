//! The least-significant-bit-first bit streams that LZW codes are packed in.
//!
//! Bit `i` of a byte stream is bit `i % 8` of byte `i / 8`, counting from
//! the least significant bit, and a code of `w` bits starting at bit `pos`
//! has bit `pos` as its least significant bit.

use vstd::prelude::*;
use vstd::arithmetic::power2::{pow2, lemma_pow2_pos, lemma_pow2_adds, lemma_pow2_unfold, lemma2_to64};
use vstd::arithmetic::div_mod::{
    lemma_mod_breakdown, lemma_div_denominator, lemma_fundamental_div_mod_converse,
    lemma_mod_bound, lemma_div_pos_is_pos,
};
use vstd::arithmetic::mul::{lemma_mul_inequality, lemma_mul_is_commutative, lemma_mul_nonnegative};

verus! {

/// Bit `i` of the stream `p`.
pub open spec fn bit_at(p: Seq<u8>, i: int) -> nat {
    ((p[i / 8] as nat / pow2((i % 8) as nat)) % 2) as nat
}

/// The value of the `w` bits of `p` that start at bit `pos`.
pub open spec fn bits_at(p: Seq<u8>, pos: int, w: nat) -> nat
    decreases w,
{
    if w == 0 {
        0
    } else {
        bit_at(p, pos) + 2 * bits_at(p, pos + 1, (w - 1) as nat)
    }
}

/// The code of `w` bits at `pos`, or `None` when the stream ends before it.
pub open spec fn read_bits(p: Seq<u8>, pos: int, w: nat) -> Option<nat> {
    if 0 <= pos && pos + w <= 8 * p.len() {
        Some(bits_at(p, pos, w))
    } else {
        None
    }
}

/// `w` bits hold a value below `2^w`.
pub proof fn lemma_bits_at_bound(p: Seq<u8>, pos: int, w: nat)
    ensures
        bits_at(p, pos, w) < pow2(w),
    decreases w,
{
    lemma2_to64();
    if w > 0 {
        lemma_bits_at_bound(p, pos + 1, (w - 1) as nat);
        lemma_pow2_unfold(w);
    }
}

/// The first `a + b` bits are the first `a` bits followed by the next `b`.
pub proof fn lemma_bits_at_split(p: Seq<u8>, pos: int, a: nat, b: nat)
    ensures
        bits_at(p, pos, a + b) == bits_at(p, pos, a) + pow2(a) * bits_at(p, pos + a, b),
    decreases a,
{
    lemma2_to64();
    if a == 0 {
        assert(a + b == b);
    } else {
        let a1 = (a - 1) as nat;
        lemma_bits_at_split(p, pos + 1, a1, b);
        lemma_pow2_unfold(a);
        assert((a + b - 1) as nat == a1 + b);
        assert(pos + 1 + a1 == pos + a);
        let x = bits_at(p, pos + 1, a1);
        let y = bits_at(p, pos + a, b);
        assert(bits_at(p, pos, a + b) == bit_at(p, pos) + 2 * bits_at(p, pos + 1, a1 + b));
        assert(bits_at(p, pos + 1, a1 + b) == x + pow2(a1) * y);
        assert(bits_at(p, pos, a) == bit_at(p, pos) + 2 * x);
        assert(2 * (x + pow2(a1) * y) == 2 * x + (2 * pow2(a1)) * y) by (nonlinear_arith);
    }
}

/// Bits `j .. j + m` of byte `k`.
pub proof fn lemma_bits_in_byte(p: Seq<u8>, k: int, j: nat, m: nat)
    requires
        0 <= k < p.len(),
        j + m <= 8,
    ensures
        bits_at(p, 8 * k + j, m) == (p[k] as nat / pow2(j)) % pow2(m),
    decreases m,
{
    lemma2_to64();
    lemma_pow2_pos(j);
    let x = p[k] as nat;
    if m == 0 {
        assert((x / pow2(j)) % 1 == 0);
    } else {
        lemma_bits_in_byte(p, k, j + 1, (m - 1) as nat);
        assert((8 * k + j) / 8 == k);
        assert((8 * k + j) % 8 == j);
        assert(8 * k + j + 1 == 8 * k + (j + 1));
        lemma_pow2_adds(j, 1);
        lemma_pow2_pos((m - 1) as nat);
        lemma_div_denominator(x as int, pow2(j) as int, 2);
        let y = x / pow2(j);
        lemma_div_pos_is_pos(x as int, pow2(j) as int);
        lemma_mod_breakdown(y as int, 2, pow2((m - 1) as nat) as int);
        lemma_pow2_unfold(m);
    }
}

/// The 8 bits of byte `k` are the byte.
pub proof fn lemma_bits_of_byte(p: Seq<u8>, k: int)
    requires
        0 <= k < p.len(),
    ensures
        bits_at(p, 8 * k, 8) == p[k],
{
    lemma_bits_in_byte(p, k, 0, 8);
    lemma2_to64();
    assert(8 * k + 0 == 8 * k);
}

/// Splitting an accumulated value at `w` bits: the low `w` bits are the
/// code, the rest are the bits that follow it.
pub proof fn lemma_bits_take(p: Seq<u8>, pos: int, w: nat, n: nat)
    requires
        w <= n,
    ensures
        bits_at(p, pos, n) % pow2(w) == bits_at(p, pos, w),
        bits_at(p, pos, n) / pow2(w) == bits_at(p, pos + w, (n - w) as nat),
{
    lemma_bits_at_split(p, pos, w, (n - w) as nat);
    assert(w + (n - w) as nat == n);
    lemma_bits_at_bound(p, pos, w);
    lemma_pow2_pos(w);
    let hi = bits_at(p, pos + w, (n - w) as nat);
    lemma_mul_is_commutative(pow2(w) as int, hi as int);
    lemma_fundamental_div_mod_converse(
        bits_at(p, pos, n) as int,
        pow2(w) as int,
        hi as int,
        bits_at(p, pos, w) as int,
    );
}

/// The bits of a stream do not change when more bytes follow.
pub proof fn lemma_bits_at_prefix(p: Seq<u8>, q: Seq<u8>, pos: int, w: nat)
    requires
        0 <= pos,
        pos + w <= 8 * p.len(),
        p.len() <= q.len(),
        p == q.take(p.len() as int),
    ensures
        bits_at(p, pos, w) == bits_at(q, pos, w),
    decreases w,
{
    if w > 0 {
        lemma_bits_at_prefix(p, q, pos + 1, (w - 1) as nat);
        assert(pos / 8 < p.len());
        assert(q.take(p.len() as int)[pos / 8] == q[pos / 8]);
    }
}

} // verus!
