//! Facts that connect shifts and masks on `u64` with arithmetic on powers
//! of two.
use vstd::arithmetic::div_mod::{
    lemma_div_by_multiple, lemma_div_denominator, lemma_fundamental_div_mod,
    lemma_mod_multiples_basic,
};
use vstd::arithmetic::mul::{lemma_mul_is_associative, lemma_mul_is_commutative};
use vstd::arithmetic::power2::{lemma2_to64, lemma_pow2_adds, lemma_pow2_pos, pow2};
use vstd::bits::{lemma_u64_low_bits_mask_is_mod, lemma_u64_pow2_no_overflow, lemma_u64_shl_is_mul, lemma_u64_shr_is_div};
use vstd::prelude::*;
use vstd::std_specs::bits::{axiom_u64_trailing_zeros, u64_trailing_zeros};

verus! {

/// `1 << t` is the power of two `2^t`.
pub proof fn lemma_shl_one(t: u64)
    requires
        t < 64,
    ensures
        1u64 << t == pow2(t as nat),
        0 < pow2(t as nat) <= u64::MAX,
{
    lemma_u64_pow2_no_overflow(t as nat);
    lemma_u64_shl_is_mul(1, t);
}

/// The lowest bit of a word is its remainder modulo two.
pub proof fn lemma_and_one(y: u64)
    ensures
        y & 1 == y % 2,
{
    assert(y & 1 == y % 2) by (bit_vector);
}

/// Bit `j` of `x`, read arithmetically.
pub proof fn lemma_bit_is_div_mod(x: u64, j: u64)
    requires
        j < 64,
    ensures
        (x >> j) & 1 == (x as int / pow2(j as nat) as int) % 2,
{
    lemma_u64_shr_is_div(x, j);
    lemma_and_one(x >> j);
}

/// A word that is an odd multiple of `2^t` has exactly `t` trailing zeros.
pub proof fn lemma_trailing_zeros_of(x: u64, t: nat, m: int)
    requires
        t < 64,
        0 <= m,
        x == (2 * m + 1) * pow2(t),
    ensures
        u64_trailing_zeros(x) == t,
{
    axiom_u64_trailing_zeros(x);
    lemma_pow2_pos(t);
    let z = u64_trailing_zeros(x) as nat;
    assert(x != 0) by (nonlinear_arith)
        requires
            x == (2 * m + 1) * pow2(t),
            pow2(t) > 0,
            m >= 0,
    ;
    // Bit `t` is set.
    lemma_div_by_multiple(2 * m + 1, pow2(t) as int);
    lemma_bit_is_div_mod(x, t as u64);
    assert((x >> t as u64) & 1 == 1);
    if z < t {
        // Bit `z` is clear, since `x / 2^z` is an even multiple.
        let d = (t - z) as nat;
        lemma_pow2_adds(z, d);
        lemma_pow2_adds(1, (d - 1) as nat);
        lemma_pow2_pos(z);
        lemma_pow2_pos((d - 1) as nat);
        lemma2_to64();
        let e = (2 * m + 1) * pow2((d - 1) as nat);
        assert(x == (e * 2) * pow2(z)) by (nonlinear_arith)
            requires
                x == (2 * m + 1) * pow2(t),
                pow2(t) == pow2(z) * pow2(d),
                pow2(d) == 2 * pow2((d - 1) as nat),
                e == (2 * m + 1) * pow2((d - 1) as nat),
        ;
        assert(e * 2 >= 0) by (nonlinear_arith)
            requires
                e == (2 * m + 1) * pow2((d - 1) as nat),
                m >= 0,
        ;
        lemma_div_by_multiple(e * 2, pow2(z) as int);
        lemma_mod_multiples_basic(e, 2);
        lemma_bit_is_div_mod(x, z as u64);
        assert((x >> z as u64) & 1 == 0);
        assert(false);
    } else if z > t {
        assert(((x >> t as u64) & 1) == 0);
        assert(false);
    }
}

/// A nonzero word splits around its lowest set bit:
/// `x == (2 * (x >> (t + 1)) + 1) * 2^t` with `t` its trailing zero count.
pub proof fn lemma_split_at_lowest_bit(x: u64)
    requires
        x != 0,
    ensures
        u64_trailing_zeros(x) < 64,
        x as int == (2 * (x as int / pow2((u64_trailing_zeros(x) + 1) as nat) as int) + 1)
            * pow2(u64_trailing_zeros(x) as nat),
{
    axiom_u64_trailing_zeros(x);
    let t = u64_trailing_zeros(x) as u64;
    // The low `t` bits are zero.
    assert(x & (((1u64 << t) - 1) as u64) == 0) by (bit_vector)
        requires
            t < 64,
            x << (64 - t) as u64 == 0 || t == 0,
    ;
    lemma_shl_one(t);
    lemma_u64_low_bits_mask_is_mod(x, t as nat);
    assert(x % (pow2(t as nat) as u64) == 0);
    lemma_bit_is_div_mod(x, t);
    let p = pow2(t as nat) as int;
    let q = x as int / p;
    lemma_fundamental_div_mod(x as int, p);
    lemma_fundamental_div_mod(q, 2);
    lemma_pow2_adds(t as nat, 1);
    lemma2_to64();
    lemma_div_denominator(x as int, p, 2);
    assert(x as int == (2 * (q / 2) + 1) * p) by (nonlinear_arith)
        requires
            x as int == p * q + 0,
            q == 2 * (q / 2) + 1,
    ;
    assert(pow2((t + 1) as nat) == p * 2);
}

/// `x & (!x + 1)` keeps exactly the lowest set bit of a nonzero `x`.
pub proof fn lemma_lowest_bit(x: u64)
    requires
        x != 0,
    ensures
        u64_trailing_zeros(x) < 64,
        !x < u64::MAX,
        x & (((!x) + 1) as u64) == pow2(u64_trailing_zeros(x) as nat),
{
    axiom_u64_trailing_zeros(x);
    let t = u64_trailing_zeros(x) as u64;
    assert(x & (((!x) + 1) as u64) == 1u64 << t && !x < 0xffff_ffff_ffff_ffffu64) by (bit_vector)
        requires
            t < 64,
            (x >> t) & 1 == 1,
            x << (64 - t) as u64 == 0 || t == 0,
    ;
    lemma_shl_one(t);
}

} // verus!
