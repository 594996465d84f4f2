//! The mathematical model of bit patterns: natural numbers seen bit by bit.
use vstd::arithmetic::div_mod::{
    lemma_basic_div,
    lemma_div_denominator,
    lemma_mod_breakdown,
    lemma_mod_mod,
};
use vstd::arithmetic::power2::{
    lemma2_to64,
    lemma_pow2_adds,
    lemma_pow2_pos,
    lemma_pow2_strictly_increases,
    lemma_pow2_unfold,
    pow2,
};
use vstd::bits::lemma_u128_shr_is_div;
use vstd::prelude::*;

verus! {

/// Bit `p` of `v`, counting from the least significant bit.
pub open spec fn bit(v: nat, p: nat) -> bool
    decreases p,
{
    if p == 0 {
        v % 2 == 1
    } else {
        bit(v / 2, (p - 1) as nat)
    }
}

/// Bit `p` of a machine word, read with a shift and a mask.
pub open spec fn word_bit(v: u128, p: u128) -> bool {
    (v >> p) & 1u128 == 1u128
}

/// `2^128`, one more than the largest `u128`.
pub proof fn lemma_pow2_128()
    ensures
        pow2(128) == 0x1_0000_0000_0000_0000_0000_0000_0000_0000,
        pow2(64) == 0x1_0000_0000_0000_0000,
{
    lemma2_to64();
    lemma_pow2_adds(64, 64);
}

/// Bit `p` is the parity of `v / 2^p`.
pub proof fn lemma_bit_div_pow2(v: nat, p: nat)
    ensures
        bit(v, p) == ((v / pow2(p)) % 2 == 1),
    decreases p,
{
    lemma_pow2_pos(p);
    if p == 0 {
        lemma2_to64();
    } else {
        let q = (p - 1) as nat;
        lemma_bit_div_pow2(v / 2, q);
        lemma_pow2_unfold(p);
        lemma_pow2_pos(q);
        lemma_div_denominator(v as int, 2, pow2(q) as int);
    }
}

/// No bit at or above `w` is set in a value below `2^w`.
pub proof fn lemma_bit_above(v: nat, w: nat, p: nat)
    requires
        v < pow2(w),
        w <= p,
    ensures
        !bit(v, p),
{
    lemma_bit_div_pow2(v, p);
    if w < p {
        lemma_pow2_strictly_increases(w, p);
    }
    lemma_basic_div(v as int, pow2(p) as int);
}

/// A machine word has no bit at or above 128.
pub proof fn lemma_word_high(v: u128)
    ensures
        forall|p: nat| 128 <= p ==> !#[trigger] bit(v as nat, p),
{
    lemma_pow2_128();
    assert forall|p: nat| 128 <= p implies !#[trigger] bit(v as nat, p) by {
        lemma_bit_above(v as nat, 128, p);
    }
}

proof fn lemma_and_one_is_mod(t: u128)
    by (bit_vector)
    ensures
        (t & 1u128 == 1u128) == (t % 2 == 1),
{
}

/// The model's bit agrees with the machine's shift-and-mask reading.
pub proof fn lemma_word_bit(v: u128, p: nat)
    requires
        p < 128,
    ensures
        bit(v as nat, p) == word_bit(v, p as u128),
{
    lemma_bit_div_pow2(v as nat, p);
    lemma_u128_shr_is_div(v, p as u128);
    lemma_and_one_is_mod(v >> (p as u128));
}

/// Two numbers with the same bits are equal.
pub proof fn lemma_bits_equal(a: nat, b: nat)
    requires
        forall|p: nat| #[trigger] bit(a, p) == bit(b, p),
    ensures
        a == b,
    decreases a + b,
{
    if a != 0 || b != 0 {
        assert(bit(a, 0) == bit(b, 0));
        assert forall|p: nat| #[trigger] bit(a / 2, p) == bit(b / 2, p) by {
            assert(bit(a, p + 1) == bit(b, p + 1));
        }
        lemma_bits_equal(a / 2, b / 2);
    }
}

/// Keeping the remainder modulo `2^w` keeps exactly the bits below `w`.
pub proof fn lemma_bit_mod_pow2(v: nat, w: nat, p: nat)
    ensures
        bit(v % pow2(w), p) == (p < w && bit(v, p)),
    decreases w,
{
    lemma_pow2_pos(w);
    if w == 0 {
        lemma2_to64();
        assert(v % 1 == 0);
        lemma_bit_above(0, 0, p);
    } else {
        let m = pow2((w - 1) as nat);
        lemma_pow2_unfold(w);
        lemma_pow2_pos((w - 1) as nat);
        lemma_mod_mod(v as int, 2, m as int);
        lemma_mod_breakdown(v as int, 2, m as int);
        assert((v % pow2(w)) / 2 == (v / 2) % m);
        if p > 0 {
            lemma_bit_mod_pow2(v / 2, (w - 1) as nat, (p - 1) as nat);
        }
    }
}

proof fn lemma_word_or(a: u128, b: u128, p: u128)
    by (bit_vector)
    requires
        p < 128,
    ensures
        word_bit(a | b, p) == (word_bit(a, p) || word_bit(b, p)),
{
}

proof fn lemma_word_and(a: u128, b: u128, p: u128)
    by (bit_vector)
    requires
        p < 128,
    ensures
        word_bit(a & b, p) == (word_bit(a, p) && word_bit(b, p)),
{
}

proof fn lemma_word_shl(a: u128, k: u128, p: u128)
    by (bit_vector)
    requires
        p < 128,
        k < 128,
    ensures
        word_bit(a << k, p) == (k <= p && word_bit(a, (p - k) as u128)),
{
}

proof fn lemma_word_shr(a: u128, k: u128, p: u128)
    by (bit_vector)
    requires
        p < 128,
        k < 128,
    ensures
        word_bit(a >> k, p) == (p + k < 128 && word_bit(a, (p + k) as u128)),
{
}

proof fn lemma_word_max(p: u128)
    by (bit_vector)
    requires
        p < 128,
    ensures
        word_bit(0xffff_ffff_ffff_ffff_ffff_ffff_ffff_ffffu128, p),
{
}

proof fn lemma_word_zero(p: u128)
    by (bit_vector)
    requires
        p < 128,
    ensures
        !word_bit(0u128, p),
{
}

/// The bits of a bitwise or.
pub proof fn lemma_bit_or(a: u128, b: u128)
    ensures
        forall|p: nat| #[trigger]
            bit((a | b) as nat, p) == (bit(a as nat, p) || bit(b as nat, p)),
{
    lemma_word_high(a);
    lemma_word_high(b);
    lemma_word_high(a | b);
    assert forall|p: nat| #[trigger]
        bit((a | b) as nat, p) == (bit(a as nat, p) || bit(b as nat, p)) by {
        if p < 128 {
            lemma_word_bit(a, p);
            lemma_word_bit(b, p);
            lemma_word_bit(a | b, p);
            lemma_word_or(a, b, p as u128);
        }
    }
}

/// The bits of a bitwise and.
pub proof fn lemma_bit_and(a: u128, b: u128)
    ensures
        forall|p: nat| #[trigger]
            bit((a & b) as nat, p) == (bit(a as nat, p) && bit(b as nat, p)),
{
    lemma_word_high(a);
    lemma_word_high(b);
    lemma_word_high(a & b);
    assert forall|p: nat| #[trigger]
        bit((a & b) as nat, p) == (bit(a as nat, p) && bit(b as nat, p)) by {
        if p < 128 {
            lemma_word_bit(a, p);
            lemma_word_bit(b, p);
            lemma_word_bit(a & b, p);
            lemma_word_and(a, b, p as u128);
        }
    }
}

/// The bits of a left shift: bits move up by `k`, and those pushed past 128 are lost.
pub proof fn lemma_bit_shl(a: u128, k: u128)
    requires
        k < 128,
    ensures
        forall|p: nat| #[trigger]
            bit((a << k) as nat, p) == (k <= p < 128 && bit(a as nat, (p - k) as nat)),
{
    lemma_word_high(a << k);
    assert forall|p: nat| #[trigger]
        bit((a << k) as nat, p) == (k <= p < 128 && bit(a as nat, (p - k) as nat)) by {
        if p < 128 {
            lemma_word_bit(a << k, p);
            lemma_word_shl(a, k, p as u128);
            if k <= p {
                lemma_word_bit(a, (p - k) as nat);
            }
        }
    }
}

/// The bits of a right shift: bits move down by `k`.
pub proof fn lemma_bit_shr(a: u128, k: u128)
    requires
        k < 128,
    ensures
        forall|p: nat| #[trigger] bit((a >> k) as nat, p) == bit(a as nat, (p + k) as nat),
{
    lemma_word_high(a);
    lemma_word_high(a >> k);
    assert forall|p: nat| #[trigger] bit((a >> k) as nat, p) == bit(a as nat, (p + k) as nat) by {
        if p < 128 {
            lemma_word_bit(a >> k, p);
            lemma_word_shr(a, k, p as u128);
            if p + k < 128 {
                lemma_word_bit(a, (p + k) as nat);
            }
        }
    }
}

/// All 128 bits of `u128::MAX` are set.
pub proof fn lemma_bit_max()
    ensures
        forall|p: nat| #[trigger]
            bit(0xffff_ffff_ffff_ffff_ffff_ffff_ffff_ffffu128 as nat, p) == (p < 128),
{
    let m = 0xffff_ffff_ffff_ffff_ffff_ffff_ffff_ffffu128;
    lemma_word_high(m);
    assert forall|p: nat| #[trigger] bit(m as nat, p) == (p < 128) by {
        if p < 128 {
            lemma_word_bit(m, p);
            lemma_word_max(p as u128);
        }
    }
}

/// Zero has no bit set.
pub proof fn lemma_bit_zero()
    ensures
        forall|p: nat| !#[trigger] bit(0, p),
{
    lemma_word_high(0u128);
    assert forall|p: nat| !#[trigger] bit(0, p) by {
        if p < 128 {
            lemma_word_bit(0u128, p);
            lemma_word_zero(p as u128);
        }
    }
}

} // verus!
