//! Power-of-two alignment arithmetic and byte-size units.

use vstd::prelude::*;
use vstd::arithmetic::power2::{pow2, lemma_pow2_pos, lemma2_to64};
use vstd::bits::{low_bits_mask, lemma_u64_low_bits_mask_is_mod, lemma_u64_pow2_no_overflow};

verus! {

/// Bytes in a small (4 KiB) page.
pub const PAGE_SIZE: u64 = 4096;

/// Bytes in a large (2 MiB) page.
pub const PAGE_SIZE_LARGE: u64 = 0x20_0000;

/// `v` rounded down to the next multiple of `a`.
pub open spec fn round_down(v: int, a: int) -> int {
    v - v % a
}

/// `v` rounded up to the next multiple of `a`.
pub open spec fn round_up(v: int, a: int) -> int {
    round_down(v + a - 1, a)
}

/// `v` is a multiple of `a`.
pub open spec fn aligned(v: int, a: int) -> bool {
    v % a == 0
}

/// `a` is a power of two that fits in a `u64`.
pub open spec fn is_pow2(a: u64) -> bool {
    exists|k: nat| k < 64 && a == pow2(k)
}

pub proof fn lemma_pow2_4096()
    ensures
        is_pow2(4096),
{
    lemma2_to64();
    assert(pow2(12) == 4096);
}

pub proof fn lemma_pow2_2m()
    ensures
        is_pow2(0x20_0000),
{
    lemma2_to64();
    assert(pow2(21) == 0x20_0000);
}

/// For non-negative `v` and positive `a`, the remainder is between 0 and `v`.
pub proof fn lemma_mod_range(v: int, a: int)
    requires
        v >= 0,
        a > 0,
    ensures
        0 <= v % a <= v,
        v % a < a,
{
    if v < a {
        assert(v % a == v) by (nonlinear_arith)
            requires 0 <= v < a;
    } else {
        assert(0 <= v % a < a) by (nonlinear_arith)
            requires v >= 0 && a > 0;
    }
}

/// Rounding down lands on a multiple, never increases, and moves less
/// than one step.
pub proof fn lemma_round_down_props(v: int, a: int)
    requires
        v >= 0,
        a > 0,
    ensures
        aligned(round_down(v, a), a),
        round_down(v, a) <= v,
        v - round_down(v, a) < a,
        aligned(v, a) ==> round_down(v, a) == v,
{
    lemma_mod_range(v, a);
    let q = v / a;
    assert(v == a * q + v % a) by (nonlinear_arith)
        requires a > 0 && q == v / a;
    assert(round_down(v, a) == a * q);
    assert((a * q) % a == 0) by (nonlinear_arith)
        requires a > 0;
}

/// Rounding up lands on a multiple, never decreases, and moves less than
/// one step.
pub proof fn lemma_round_up_props(v: int, a: int)
    requires
        v >= 0,
        a > 0,
    ensures
        aligned(round_up(v, a), a),
        round_up(v, a) >= v,
        round_up(v, a) - v < a,
        aligned(v, a) ==> round_up(v, a) == v,
{
    lemma_round_down_props(v + a - 1, a);
    if aligned(v, a) {
        lemma_round_down_props(v, a);
        assert((v + a - 1) % a == (a - 1) % a) by (nonlinear_arith)
            requires a > 0 && v % a == 0 && v >= 0;
        assert((a - 1) % a == a - 1) by (nonlinear_arith)
            requires a > 0;
    }
}

/// Two aligned values a whole step apart: the lower one plus one step
/// still does not pass the higher one.
pub proof fn lemma_aligned_step(x: int, y: int, a: int)
    requires
        a > 0,
        x >= 0,
        y >= 0,
        aligned(x, a),
        aligned(y, a),
        x < y,
    ensures
        x + a <= y,
{
    let qx = x / a;
    let qy = y / a;
    assert(x == a * qx && y == a * qy) by (nonlinear_arith)
        requires a > 0 && x % a == 0 && y % a == 0 && qx == x / a && qy == y / a && x >= 0 && y
            >= 0;
    assert(qx < qy) by (nonlinear_arith)
        requires a > 0 && x == a * qx && y == a * qy && x < y;
    assert(a * qx + a <= a * qy) by (nonlinear_arith)
        requires a > 0 && qx < qy;
}

/// A multiple of `a` below `v` is also below `v` rounded down.
pub proof fn lemma_round_down_lb(v: int, m: int, a: int)
    requires
        a > 0,
        v >= 0,
        m >= 0,
        aligned(m, a),
        m <= v,
    ensures
        m <= round_down(v, a),
{
    lemma_round_down_props(v, a);
    lemma_mod_range(v, a);
    if round_down(v, a) < m {
        lemma_aligned_step(round_down(v, a), m, a);
    }
}

/// Masking a value with `po2 - 1` yields its remainder modulo `po2`.
proof fn lemma_pow2_mask(value: u64, po2: u64)
    requires
        is_pow2(po2),
    ensures
        1 <= po2,
        (value & ((po2 - 1) as u64)) == value % po2,
{
    let k = choose|k: nat| k < 64 && po2 == pow2(k);
    lemma_u64_pow2_no_overflow(k);
    lemma_pow2_pos(k);
    lemma_u64_low_bits_mask_is_mod(value, k);
    assert((po2 - 1) as u64 == low_bits_mask(k) as u64);
}

/// True iff `value` is a multiple of the power of two `po2`.
pub fn is_po2_aligned(value: u64, po2: u64) -> (r: bool)
    requires
        is_pow2(po2),
    ensures
        r == aligned(value as int, po2 as int),
{
    proof {
        lemma_pow2_mask(value, po2);
    }
    value & (po2 - 1) == 0
}

/// `value` rounded down to a multiple of the power of two `po2`.
pub fn po2_round_down(value: u64, po2: u64) -> (r: u64)
    requires
        is_pow2(po2),
    ensures
        r == round_down(value as int, po2 as int),
{
    proof {
        lemma_pow2_mask(value, po2);
        lemma_mod_range(value as int, po2 as int);
    }
    value - (value & (po2 - 1))
}

/// `value` rounded up to a multiple of the power of two `po2`.
/// The sum `value + po2 - 1` must not overflow.
pub fn po2_round_up(value: u64, po2: u64) -> (r: u64)
    requires
        is_pow2(po2),
        value + po2 - 1 <= u64::MAX,
    ensures
        r == round_up(value as int, po2 as int),
{
    proof {
        lemma_pow2_mask(value, po2);
    }
    po2_round_down(value + (po2 - 1), po2)
}

} // verus!
