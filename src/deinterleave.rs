//! Gathering every `N`-th bit of an interleaved number back into one coordinate.
use crate::bits::{bit, lemma_bit_and, lemma_bit_or, lemma_bit_shr, lemma_word_high};
use crate::mask::{interleave_mask, interleave_shift, lemma_from_u128_bits, BitCount};
use vstd::arithmetic::div_mod::{lemma_fundamental_div_mod, lemma_fundamental_div_mod_converse};
use vstd::arithmetic::power2::{lemma2_to64, lemma_pow2_adds, lemma_pow2_pos, lemma_pow2_unfold, pow2};
use vstd::prelude::*;

verus! {

/// The closed set of index types that can be deinterleaved.
pub trait Sealed {

}

impl Sealed for u16 {

}

impl Sealed for u32 {

}

impl Sealed for u64 {

}

impl Sealed for u128 {

}

/// `r` holds the bits of `v` at `lsb`, `lsb + n`, `lsb + 2 * n`, ..., in order, as far as
/// its width `w` goes: bit `p` of `r` is bit `lsb + n * p` of `v`.
pub open spec fn is_gathered(r: nat, v: nat, n: nat, lsb: nat, w: nat) -> bool {
    forall|p: nat| #[trigger] bit(r, p) == (p < w && bit(v, lsb + n * p))
}

/// Deinterleave a single number from a set of interleaved numbers. Inverse of
/// [`Interleave`](crate::interleave::Interleave).
pub trait Deinterleave<const N: usize>: Sealed + BitCount {
    /// Smallest unsigned integer type that can hold the deinterleaved bits.
    type Output: BitCount;

    /// Deinterleaves a number from a set of interleaved numbers starting from the given
    /// least significant bit (`lsb`) index.
    ///
    /// Dimension `N` determines which bits are extracted to form the output number.
    fn deinterleave(self, lsb: usize) -> (r: Self::Output)
        requires
            lsb < Self::BITS,
        ensures
            is_gathered(
                r.to_nat(),
                self.to_nat(),
                N as nat,
                lsb as nat,
                <Self::Output as BitCount>::BITS as nat,
            ),
    ;

    /// At least two axes, and `N` outputs fit in the input.
    proof fn lemma_dimension()
        ensures
            2 <= N,
            N * <Self::Output as BitCount>::BITS <= Self::BITS,
    ;
}

/// Which bit of the input sits at position `p` while the bits are gathered in groups of
/// `g`: groups of `g` bits stand `d * g` apart, and bit `j` comes from input bit `d * j`.
pub open spec fn gather_stage(y: nat, d: nat, g: nat, p: nat) -> bool {
    p % (d * g) < g && bit(y, d * ((p / (d * g)) * g + p % (d * g)))
}

/// One stage of gathering: each group of `g` bits takes in the group that stood
/// `(d - 1) * g` bits above it.
proof fn lemma_gather_step(y: nat, d: nat, g: nat, p: nat)
    requires
        d >= 2,
        g >= 1,
    ensures
        gather_stage(y, d, 2 * g, p) == (p % (d * (2 * g)) < 2 * g && (gather_stage(y, d, g, p)
            || gather_stage(y, d, g, (p + (d - 1) * g) as nat))),
{
    let q = d * g;
    let big = d * (2 * g);
    assert(big == 2 * q && q >= 2 * g && q > 0) by (nonlinear_arith)
        requires
            big == d * (2 * g),
            q == d * g,
            d >= 2,
            g >= 1,
    ;
    let k = p / big;
    let r = p % big;
    lemma_fundamental_div_mod(p as int, big as int);
    assert(p == k * big + r && p == (2 * k) * q + r) by (nonlinear_arith)
        requires
            p == big * k + r,
            big == 2 * q,
    ;
    let p2 = (p + (d - 1) * g) as nat;
    if r < g {
        lemma_fundamental_div_mod_converse(p as int, q as int, (2 * k) as int, r as int);
        let r2 = r + (d - 1) * g;
        assert(p2 == (2 * k) * q + r2 && r2 < q && r2 >= g && (2 * k) * g + r == k * (2 * g) + r)
            by (nonlinear_arith)
            requires
                p == (2 * k) * q + r,
                p2 == p + (d - 1) * g,
                r2 == r + (d - 1) * g,
                q == d * g,
                r < g,
                d >= 2,
        ;
        lemma_fundamental_div_mod_converse(p2 as int, q as int, (2 * k) as int, r2 as int);
    } else if r < 2 * g {
        lemma_fundamental_div_mod_converse(p as int, q as int, (2 * k) as int, r as int);
        let r2 = (r - g) as nat;
        assert(p2 == (2 * k + 1) * q + r2 && r2 < g && (2 * k + 1) * g + r2 == k * (2 * g) + r)
            by (nonlinear_arith)
            requires
                p == (2 * k) * q + r,
                p2 == p + (d - 1) * g,
                r2 == r - g,
                q == d * g,
                g <= r < 2 * g,
        ;
        lemma_fundamental_div_mod_converse(p2 as int, q as int, (2 * k + 1) as int, r2 as int);
    }
}

/// At every stage the bit at position `p` comes from an input position at or above `p`.
proof fn lemma_gather_stage_source(d: nat, g: nat, p: nat)
    requires
        d >= 1,
        g >= 1,
        p % (d * g) < g,
    ensures
        d * ((p / (d * g)) * g + p % (d * g)) >= p,
{
    let q = d * g;
    assert(q > 0) by (nonlinear_arith)
        requires
            q == d * g,
            d >= 1,
            g >= 1,
    ;
    lemma_fundamental_div_mod(p as int, q as int);
    let k = p / q;
    let r = p % q;
    assert(d * (k * g + r) >= p) by (nonlinear_arith)
        requires
            p == q * k + r,
            q == d * g,
            d >= 1,
            r >= 0,
    ;
}

/// Used to determine the minimum width output type which fits all dimensions `N`
/// stored in the input type.
///
/// Inverse conversion of [`InterleaveOutput`](crate::interleave::InterleaveOutput).
pub trait DeinterleaveOutput<const N: usize>: Sealed + BitCount {
    /// The largest supported type of which `N` fit in `Self`.
    type Output: BitCount;

    /// `N` copies of the output fit in the input.
    proof fn lemma_output_fits()
        ensures
            2 <= N,
            N * <Self::Output as BitCount>::BITS <= Self::BITS,
    ;
}

impl<T, const N: usize> Deinterleave<N> for T where T: DeinterleaveOutput<N> {
    type Output = <T as DeinterleaveOutput<N>>::Output;

    proof fn lemma_dimension() {
        T::lemma_output_fits();
    }

    fn deinterleave(self, lsb: usize) -> (r: Self::Output) {
        let ghost v = self.to_nat();
        let ghost w = pow2(<T as DeinterleaveOutput<N>>::Output::BITS_ILOG2 as nat);
        proof {
            T::lemma_width();
            <T as DeinterleaveOutput<N>>::Output::lemma_width();
            T::lemma_output_fits();
            <u128 as BitCount>::lemma_width();
            lemma2_to64();
            assert(N <= 16 && N * w <= 128 && w <= 64) by (nonlinear_arith)
                requires
                    N * w <= T::BITS,
                    T::BITS <= 128,
                    w >= 8,
                    N >= 2,
            ;
        }
        let dim: u32 = N as u32;
        let wide: u128 = self.to_u128();
        let shifted: u128 = wide >> (lsb as u128);
        let ghost y = shifted as nat;
        let first: u128 = interleave_mask::<u128>(dim, 1);
        let mut x: u128 = shifted & first;
        let mut i: u32 = 0;
        proof {
            lemma_bit_and(shifted, first);
            lemma_word_high(shifted);
            lemma2_to64();
            assert forall|p: nat| #[trigger] bit(x as nat, p) == gather_stage(y, dim as nat, pow2(0), p) by {
                assert(bit(first.to_nat(), p) == (p < 128 && p % ((dim as nat) * 1) < 1));
                assert((dim as nat) * 1 == dim);
                if p % (dim as nat) == 0 {
                    lemma_fundamental_div_mod(p as int, dim as int);
                    assert((dim as nat) * ((p / (dim as nat)) * 1 + p % (dim as nat)) == p);
                }
            }
        }
        // Stage `i` has gathered groups of `2^i` bits, `dim * 2^i` bits apart.
        while i < <T as DeinterleaveOutput<N>>::Output::BITS_ILOG2
            invariant
                2 <= dim <= 16,
                dim == N,
                i <= <T as DeinterleaveOutput<N>>::Output::BITS_ILOG2 <= 7,
                w == pow2(<T as DeinterleaveOutput<N>>::Output::BITS_ILOG2 as nat),
                dim * w <= 128,
                w <= 64,
                <u128 as BitCount>::BITS == 128,
                y == shifted as nat,
                shifted == wide >> (lsb as u128),
                wide == v,
                lsb < 128,
                forall|p: nat| #[trigger] bit(x as nat, p) == gather_stage(y, dim as nat, pow2(i as nat), p),
            decreases <T as DeinterleaveOutput<N>>::Output::BITS_ILOG2 - i,
        {
            let ghost g = pow2(i as nat);
            let ghost lo = <T as DeinterleaveOutput<N>>::Output::BITS_ILOG2;
            proof {
                lemma_pow2_unfold((i + 1) as nat);
                lemma_pow2_pos(i as nat);
                lemma_pow2_adds((i + 1) as nat, (lo - i - 1) as nat);
                lemma_pow2_pos((lo - i - 1) as nat);
                assert(2 * g <= w) by (nonlinear_arith)
                    requires
                        w == pow2((i + 1) as nat) * pow2((lo - i - 1) as nat),
                        pow2((i + 1) as nat) == 2 * g,
                        pow2((lo - i - 1) as nat) > 0,
                ;
                assert((dim - 1) * g < 128) by (nonlinear_arith)
                    requires
                        2 * g <= w,
                        dim * w <= 128,
                        dim >= 2,
                ;
                assert(1 * pow2((i + 1) as nat) <= 64);
                vstd::bits::lemma_u32_shl_is_mul(1, (i + 1) as u32);
            }
            let mask: u128 = interleave_mask::<u128>(dim, 1u32 << (i + 1));
            let shift = interleave_shift(dim, i);
            let gathered = x | (x >> (shift as u128));
            let next = gathered & mask;
            proof {
                lemma_bit_shr(x, shift as u128);
                lemma_bit_or(x, x >> (shift as u128));
                lemma_bit_and(gathered, mask);
                lemma_word_high(next);
                lemma_word_high(shifted);
                assert forall|p: nat| #[trigger] bit(next as nat, p) == gather_stage(y, dim as nat, 2 * g, p) by {
                    assert(bit(mask.to_nat(), p) == (p < 128 && p % ((dim as nat) * (2 * g)) < 2 * g));
                    lemma_gather_step(y, dim as nat, g, p);
                    assert(bit(x as nat, (p + shift) as nat) == gather_stage(y, dim as nat, g, (p + shift) as nat));
                    if p >= 128 && p % ((dim as nat) * (2 * g)) < 2 * g {
                        lemma_gather_stage_source(dim as nat, 2 * g, p);
                    }
                }
            }
            x = next;
            i = i + 1;
        }
        let r = <T as DeinterleaveOutput<N>>::Output::from_u128(x);
        proof {
            lemma_from_u128_bits(x, r);
            lemma_bit_shr(wide, lsb as u128);
            assert forall|p: nat| #[trigger] bit(r.to_nat(), p) == (p < w && bit(v, lsb as nat + (N as nat) * p)) by {
                if p < w {
                    assert(bit(x as nat, p) == gather_stage(y, dim as nat, w, p));
                    assert(p < (dim as nat) * w) by (nonlinear_arith)
                        requires
                            p < w,
                            dim >= 2,
                    ;
                    lemma_fundamental_div_mod_converse(p as int, ((dim as nat) * w) as int, 0, p as int);
                    assert(bit(y, (dim as nat) * p) == bit(v, ((dim as nat) * p + lsb) as nat));
                }
            }
        }
        r
    }
}

impl DeinterleaveOutput<2> for u16 {
    type Output = u8;

    proof fn lemma_output_fits() {
        <u16 as BitCount>::lemma_width();
        <u8 as BitCount>::lemma_width();
    }
}

impl DeinterleaveOutput<2> for u32 {
    type Output = u16;

    proof fn lemma_output_fits() {
        <u32 as BitCount>::lemma_width();
        <u16 as BitCount>::lemma_width();
    }
}

impl DeinterleaveOutput<3> for u32 {
    type Output = u8;

    proof fn lemma_output_fits() {
        <u32 as BitCount>::lemma_width();
        <u8 as BitCount>::lemma_width();
    }
}

impl DeinterleaveOutput<4> for u32 {
    type Output = u8;

    proof fn lemma_output_fits() {
        <u32 as BitCount>::lemma_width();
        <u8 as BitCount>::lemma_width();
    }
}

impl DeinterleaveOutput<2> for u64 {
    type Output = u32;

    proof fn lemma_output_fits() {
        <u64 as BitCount>::lemma_width();
        <u32 as BitCount>::lemma_width();
    }
}

impl DeinterleaveOutput<3> for u64 {
    type Output = u16;

    proof fn lemma_output_fits() {
        <u64 as BitCount>::lemma_width();
        <u16 as BitCount>::lemma_width();
    }
}

impl DeinterleaveOutput<4> for u64 {
    type Output = u16;

    proof fn lemma_output_fits() {
        <u64 as BitCount>::lemma_width();
        <u16 as BitCount>::lemma_width();
    }
}

impl DeinterleaveOutput<5> for u64 {
    type Output = u8;

    proof fn lemma_output_fits() {
        <u64 as BitCount>::lemma_width();
        <u8 as BitCount>::lemma_width();
    }
}

impl DeinterleaveOutput<6> for u64 {
    type Output = u8;

    proof fn lemma_output_fits() {
        <u64 as BitCount>::lemma_width();
        <u8 as BitCount>::lemma_width();
    }
}

impl DeinterleaveOutput<7> for u64 {
    type Output = u8;

    proof fn lemma_output_fits() {
        <u64 as BitCount>::lemma_width();
        <u8 as BitCount>::lemma_width();
    }
}

impl DeinterleaveOutput<8> for u64 {
    type Output = u8;

    proof fn lemma_output_fits() {
        <u64 as BitCount>::lemma_width();
        <u8 as BitCount>::lemma_width();
    }
}

impl DeinterleaveOutput<2> for u128 {
    type Output = u64;

    proof fn lemma_output_fits() {
        <u128 as BitCount>::lemma_width();
        <u64 as BitCount>::lemma_width();
    }
}

impl DeinterleaveOutput<3> for u128 {
    type Output = u32;

    proof fn lemma_output_fits() {
        <u128 as BitCount>::lemma_width();
        <u32 as BitCount>::lemma_width();
    }
}

impl DeinterleaveOutput<4> for u128 {
    type Output = u32;

    proof fn lemma_output_fits() {
        <u128 as BitCount>::lemma_width();
        <u32 as BitCount>::lemma_width();
    }
}

impl DeinterleaveOutput<5> for u128 {
    type Output = u16;

    proof fn lemma_output_fits() {
        <u128 as BitCount>::lemma_width();
        <u16 as BitCount>::lemma_width();
    }
}

impl DeinterleaveOutput<6> for u128 {
    type Output = u16;

    proof fn lemma_output_fits() {
        <u128 as BitCount>::lemma_width();
        <u16 as BitCount>::lemma_width();
    }
}

impl DeinterleaveOutput<7> for u128 {
    type Output = u16;

    proof fn lemma_output_fits() {
        <u128 as BitCount>::lemma_width();
        <u16 as BitCount>::lemma_width();
    }
}

impl DeinterleaveOutput<8> for u128 {
    type Output = u16;

    proof fn lemma_output_fits() {
        <u128 as BitCount>::lemma_width();
        <u16 as BitCount>::lemma_width();
    }
}

impl DeinterleaveOutput<9> for u128 {
    type Output = u8;

    proof fn lemma_output_fits() {
        <u128 as BitCount>::lemma_width();
        <u8 as BitCount>::lemma_width();
    }
}

impl DeinterleaveOutput<10> for u128 {
    type Output = u8;

    proof fn lemma_output_fits() {
        <u128 as BitCount>::lemma_width();
        <u8 as BitCount>::lemma_width();
    }
}

impl DeinterleaveOutput<11> for u128 {
    type Output = u8;

    proof fn lemma_output_fits() {
        <u128 as BitCount>::lemma_width();
        <u8 as BitCount>::lemma_width();
    }
}

impl DeinterleaveOutput<12> for u128 {
    type Output = u8;

    proof fn lemma_output_fits() {
        <u128 as BitCount>::lemma_width();
        <u8 as BitCount>::lemma_width();
    }
}

impl DeinterleaveOutput<13> for u128 {
    type Output = u8;

    proof fn lemma_output_fits() {
        <u128 as BitCount>::lemma_width();
        <u8 as BitCount>::lemma_width();
    }
}

impl DeinterleaveOutput<14> for u128 {
    type Output = u8;

    proof fn lemma_output_fits() {
        <u128 as BitCount>::lemma_width();
        <u8 as BitCount>::lemma_width();
    }
}

impl DeinterleaveOutput<15> for u128 {
    type Output = u8;

    proof fn lemma_output_fits() {
        <u128 as BitCount>::lemma_width();
        <u8 as BitCount>::lemma_width();
    }
}

impl DeinterleaveOutput<16> for u128 {
    type Output = u8;

    proof fn lemma_output_fits() {
        <u128 as BitCount>::lemma_width();
        <u8 as BitCount>::lemma_width();
    }
}

} // verus!
