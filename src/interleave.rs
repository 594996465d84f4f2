//! Spreading the bits of one coordinate apart, to make room for the other axes.
use crate::bits::{bit, lemma_bit_above, lemma_bit_and, lemma_bit_or, lemma_bit_shl, lemma_word_high};
use crate::mask::{interleave_mask, interleave_shift, lemma_from_u128_bits, BitCount};
use vstd::arithmetic::div_mod::{lemma_fundamental_div_mod, lemma_fundamental_div_mod_converse};
use vstd::arithmetic::power2::{lemma2_to64, lemma_pow2_adds, lemma_pow2_pos, lemma_pow2_unfold, pow2};
use vstd::prelude::*;

verus! {

/// The closed set of coordinate types that can be interleaved.
pub trait Sealed {

}

impl Sealed for u8 {

}

impl Sealed for u16 {

}

impl Sealed for u32 {

}

impl Sealed for u64 {

}

/// `r` is `x` with its bits spread `n` apart: bit `j` of `x` stands at bit `j * n` of `r`,
/// and every other bit of `r` is clear.
pub open spec fn is_spread(r: nat, x: nat, n: nat) -> bool {
    forall|p: nat| #[trigger] bit(r, p) == (p % n == 0 && bit(x, p / n))
}

/// Interleaves the bits of the given number, while taking the output dimension into
/// account.
///
/// A naive algorithm moves one bit at a time; this one moves halves, then quarters, and
/// so on, so it takes one step per halving of the width.
pub trait Interleave<const N: usize>: Sealed + BitCount {
    /// The smallest supported type that holds `N` spread copies of `Self`.
    type Output: BitCount;

    /// Interleaves the bits of the given number.
    ///
    /// Dimension `N` determines the number of unused bits between the used bits, so
    /// that all numbers can be interleaved without overlapping.
    fn interleave(self) -> (r: Self::Output)
        ensures
            is_spread(r.to_nat(), self.to_nat(), N as nat),
    ;

    /// At least two axes, and `N` spread copies of the input fit in the output.
    proof fn lemma_dimension()
        ensures
            2 <= N,
            N * Self::BITS <= <Self::Output as BitCount>::BITS,
    ;
}

/// Which bit of the input sits at position `p` while the bits are spread in groups of
/// `g`: groups of `g` bits stand `d * g` apart.
pub open spec fn spread_stage(v: nat, d: nat, g: nat, p: nat) -> bool {
    p % (d * g) < g && bit(v, (p / (d * g)) * g + p % (d * g))
}

/// One stage of spreading: groups of `2 * g` bits split into groups of `g`, the upper
/// half moving up by `(d - 1) * g`.
proof fn lemma_spread_step(v: nat, d: nat, g: nat, p: nat)
    requires
        d >= 2,
        g >= 1,
    ensures
        spread_stage(v, d, g, p) == (p % (d * g) < g && (spread_stage(v, d, 2 * g, p) || (p
            >= (d - 1) * g && spread_stage(v, d, 2 * g, (p - (d - 1) * g) as nat)))),
{
    let q = d * g;
    let big = 2 * q;
    assert(d * (2 * g) == big) by (nonlinear_arith)
        requires
            big == 2 * q,
            q == d * g,
    ;
    assert(q >= 2 * g && q > 0) by (nonlinear_arith)
        requires
            q == d * g,
            d >= 2,
            g >= 1,
    ;
    let k = p / q;
    let r = p % q;
    lemma_fundamental_div_mod(p as int, q as int);
    assert(p == k * q + r) by (nonlinear_arith)
        requires
            p == q * k + r,
    ;
    if r < g {
        let m = k / 2;
        lemma_fundamental_div_mod(k as int, 2);
        if k % 2 == 0 {
            assert(p == m * big + r && k * g == m * (2 * g)) by (nonlinear_arith)
                requires
                    p == k * q + r,
                    k == 2 * m,
                    big == 2 * q,
            ;
            lemma_fundamental_div_mod_converse(p as int, big as int, m as int, r as int);
            if p >= (d - 1) * g {
                assert(m >= 1) by (nonlinear_arith)
                    requires
                        p == m * big + r,
                        r < g,
                        p >= (d - 1) * g,
                        d >= 2,
                        m >= 0,
                ;
                let p2 = (p - (d - 1) * g) as nat;
                let r2 = (d + 1) * g + r;
                assert(p2 == (m - 1) * big + r2 && r2 < big && r2 >= 2 * g) by (nonlinear_arith)
                    requires
                        p == m * big + r,
                        p2 == p - (d - 1) * g,
                        r2 == (d + 1) * g + r,
                        big == 2 * (d * g),
                        r < g,
                        d >= 2,
                        g >= 1,
                ;
                lemma_fundamental_div_mod_converse(
                    p2 as int,
                    big as int,
                    (m - 1) as int,
                    r2 as int,
                );
            }
        } else {
            let r1 = q + r;
            assert(p == m * big + r1 && r1 < big && r1 >= 2 * g) by (nonlinear_arith)
                requires
                    p == k * q + r,
                    k == 2 * m + 1,
                    big == 2 * q,
                    r1 == q + r,
                    r < g,
                    q >= 2 * g,
            ;
            lemma_fundamental_div_mod_converse(p as int, big as int, m as int, r1 as int);
            assert(p >= (d - 1) * g) by (nonlinear_arith)
                requires
                    p == m * big + r1,
                    r1 == q + r,
                    q == d * g,
                    m >= 0,
                    big >= 0,
                    r >= 0,
            ;
            let p2 = (p - (d - 1) * g) as nat;
            let r2 = g + r;
            assert(p2 == m * big + r2 && r2 < big && m * (2 * g) + r2 == k
                * g + r) by (nonlinear_arith)
                requires
                    p == m * big + r1,
                    r1 == q + r,
                    q == d * g,
                    p2 == p - (d - 1) * g,
                    r2 == g + r,
                    k == 2 * m + 1,
                    big == 2 * q,
                    r < g,
                    q >= 2 * g,
                    m >= 0,
            ;
            lemma_fundamental_div_mod_converse(p2 as int, big as int, m as int, r2 as int);
        }
    }
}

/// Positions at or above `d * w` hold no bit of a `w`-bit input, at any stage whose group
/// size divides `w`.
proof fn lemma_spread_stage_high(v: nat, d: nat, g: nat, c: nat, p: nat)
    requires
        v < pow2(g * c),
        d >= 1,
        g >= 1,
        p >= d * (g * c),
    ensures
        !spread_stage(v, d, g, p),
{
    let q = d * g;
    assert(q > 0) by (nonlinear_arith)
        requires
            q == d * g,
            d >= 1,
            g >= 1,
    ;
    let k = p / q;
    let r = p % q;
    lemma_fundamental_div_mod(p as int, q as int);
    if r < g {
        assert(k * g + r >= g * c) by (nonlinear_arith)
            requires
                p == q * k + r,
                q == d * g,
                p >= d * (g * c),
                r < g,
                d >= 1,
                g >= 1,
                k >= 0,
                r >= 0,
        ;
        lemma_bit_above(v, g * c, k * g + r);
    }
}

/// Used to determine the minimum width output type which fits the given input type `N`
/// (dimensions) number of times.
pub trait InterleaveOutput<const N: usize>: Sealed + BitCount {
    /// The smallest supported type of at least `N * Self::BITS` bits.
    type Output: BitCount;

    /// `N` copies of the input fit in the output.
    proof fn lemma_output_fits()
        ensures
            2 <= N,
            N * Self::BITS <= <Self::Output as BitCount>::BITS,
    ;
}

impl<T, const N: usize> Interleave<N> for T where T: InterleaveOutput<N> {
    type Output = <T as InterleaveOutput<N>>::Output;

    proof fn lemma_dimension() {
        T::lemma_output_fits();
    }

    fn interleave(self) -> (r: Self::Output) {
        let ghost v = self.to_nat();
        let ghost w = pow2(T::BITS_ILOG2 as nat);
        proof {
            T::lemma_width();
            <T as InterleaveOutput<N>>::Output::lemma_width();
            T::lemma_output_fits();
            T::lemma_fits(self);
            <u128 as BitCount>::lemma_width();
            lemma2_to64();
            assert(N <= 16 && N * w <= 128) by (nonlinear_arith)
                requires
                    N * T::BITS <= <T as InterleaveOutput<N>>::Output::BITS,
                    <T as InterleaveOutput<N>>::Output::BITS <= 128,
                    T::BITS >= 8,
                    w == T::BITS,
            ;
        }
        let dim: u32 = N as u32;
        let mut x: u128 = self.to_u128();
        let mut i: u32 = T::BITS_ILOG2;
        proof {
            lemma_word_high(x);
            lemma_pow2_pos(0);
            assert forall|p: nat| #[trigger] bit(x as nat, p) == spread_stage(v, dim as nat, w, p) by {
                assert(w * 1 == w);
                if p >= w {
                    lemma_bit_above(v, w, p);
                }
                if p < dim * w {
                    lemma_fundamental_div_mod_converse(p as int, (dim * w) as int, 0, p as int);
                    assert(p % ((dim as nat) * w) == p);
                    assert(p / ((dim as nat) * w) == 0);
                    assert(spread_stage(v, dim as nat, w, p) == (p < w && bit(v, p)));
                } else {
                    assert(p >= w) by (nonlinear_arith)
                        requires
                            p >= dim * w,
                            dim >= 1,
                    ;
                    lemma_bit_above(v, w, p);
                    lemma_spread_stage_high(v, dim as nat, w, 1, p);
                }
            }
            assert(w <= 64) by (nonlinear_arith)
                requires
                    N * w <= 128,
                    N >= 2,
            ;
        }
        // Stage `i` leaves groups of `2^i` bits, `dim * 2^i` bits apart.
        while i > 0
            invariant
                2 <= dim <= 64,
                dim == N,
                i <= T::BITS_ILOG2 <= 7,
                w == pow2(T::BITS_ILOG2 as nat),
                dim * w <= 128,
                w <= 64,
                <u128 as BitCount>::BITS == 128,
                v < pow2(w),
                forall|p: nat| #[trigger] bit(x as nat, p) == spread_stage(v, dim as nat, pow2(i as nat), p),
            decreases i,
        {
            i = i - 1;
            let ghost g = pow2(i as nat);
            proof {
                lemma_pow2_unfold((i + 1) as nat);
                lemma_pow2_pos(i as nat);
                lemma_pow2_adds(i as nat, (T::BITS_ILOG2 - i) as nat);
                lemma_pow2_adds((i + 1) as nat, (T::BITS_ILOG2 - i - 1) as nat);
                lemma_pow2_pos((T::BITS_ILOG2 - i - 1) as nat);
                assert(2 * g <= w) by (nonlinear_arith)
                    requires
                        w == pow2((i + 1) as nat) * pow2((T::BITS_ILOG2 - i - 1) as nat),
                        pow2((i + 1) as nat) == 2 * g,
                        pow2((T::BITS_ILOG2 - i - 1) as nat) > 0,
                ;
                assert((dim - 1) * g < 128 && dim * g <= 128) by (nonlinear_arith)
                    requires
                        2 * g <= w,
                        dim * w <= 128,
                        dim >= 2,
                ;
                assert(1 * pow2(i as nat) <= 64);
                vstd::bits::lemma_u32_shl_is_mul(1, i);
            }
            let mask: u128 = interleave_mask::<u128>(dim, 1u32 << i);
            let shift = interleave_shift(dim, i);
            let spread = x | (x << (shift as u128));
            let next = spread & mask;
            proof {
                lemma_bit_shl(x, shift as u128);
                lemma_bit_or(x, x << (shift as u128));
                lemma_bit_and(spread, mask);
                lemma_word_high(next);
                assert forall|p: nat| #[trigger] bit(next as nat, p) == spread_stage(v, dim as nat, g, p) by {
                    assert(bit(mask.to_nat(), p) == (p < 128 && p % ((dim as nat) * g) < g));
                    if p < 128 {
                        lemma_spread_step(v, dim as nat, g, p);
                        assert(bit(x as nat, p) == spread_stage(v, dim as nat, 2 * g, p));
                    } else {
                        lemma_spread_stage_high(v, dim as nat, g, pow2((T::BITS_ILOG2 - i) as nat), p);
                    }
                }
            }
            x = next;
        }
        let r = <T as InterleaveOutput<N>>::Output::from_u128(x);
        proof {
            lemma_from_u128_bits(x, r);
            assert forall|p: nat| #[trigger] bit(r.to_nat(), p) == (p % (N as nat) == 0 && bit(v, p / (N as nat))) by {
                assert(bit(x as nat, p) == spread_stage(v, dim as nat, 1, p));
                if p % (dim as nat) == 0 {
                    assert((p / (dim as nat)) * 1 + p % (dim as nat) == p / (dim as nat));
                }
                if p >= <T as InterleaveOutput<N>>::Output::BITS {
                    assert(p / (dim as nat) >= w) by (nonlinear_arith)
                        requires
                            p >= dim * w,
                            dim >= 2,
                    ;
                    lemma_bit_above(v, w, p / (dim as nat));
                }
            }
        }
        r
    }
}

impl InterleaveOutput<2> for u8 {
    type Output = u16;

    proof fn lemma_output_fits() {
        <u8 as BitCount>::lemma_width();
        <u16 as BitCount>::lemma_width();
    }
}

impl InterleaveOutput<3> for u8 {
    type Output = u32;

    proof fn lemma_output_fits() {
        <u8 as BitCount>::lemma_width();
        <u32 as BitCount>::lemma_width();
    }
}

impl InterleaveOutput<4> for u8 {
    type Output = u32;

    proof fn lemma_output_fits() {
        <u8 as BitCount>::lemma_width();
        <u32 as BitCount>::lemma_width();
    }
}

impl InterleaveOutput<5> for u8 {
    type Output = u64;

    proof fn lemma_output_fits() {
        <u8 as BitCount>::lemma_width();
        <u64 as BitCount>::lemma_width();
    }
}

impl InterleaveOutput<6> for u8 {
    type Output = u64;

    proof fn lemma_output_fits() {
        <u8 as BitCount>::lemma_width();
        <u64 as BitCount>::lemma_width();
    }
}

impl InterleaveOutput<7> for u8 {
    type Output = u64;

    proof fn lemma_output_fits() {
        <u8 as BitCount>::lemma_width();
        <u64 as BitCount>::lemma_width();
    }
}

impl InterleaveOutput<8> for u8 {
    type Output = u64;

    proof fn lemma_output_fits() {
        <u8 as BitCount>::lemma_width();
        <u64 as BitCount>::lemma_width();
    }
}

impl InterleaveOutput<9> for u8 {
    type Output = u128;

    proof fn lemma_output_fits() {
        <u8 as BitCount>::lemma_width();
        <u128 as BitCount>::lemma_width();
    }
}

impl InterleaveOutput<10> for u8 {
    type Output = u128;

    proof fn lemma_output_fits() {
        <u8 as BitCount>::lemma_width();
        <u128 as BitCount>::lemma_width();
    }
}

impl InterleaveOutput<11> for u8 {
    type Output = u128;

    proof fn lemma_output_fits() {
        <u8 as BitCount>::lemma_width();
        <u128 as BitCount>::lemma_width();
    }
}

impl InterleaveOutput<12> for u8 {
    type Output = u128;

    proof fn lemma_output_fits() {
        <u8 as BitCount>::lemma_width();
        <u128 as BitCount>::lemma_width();
    }
}

impl InterleaveOutput<13> for u8 {
    type Output = u128;

    proof fn lemma_output_fits() {
        <u8 as BitCount>::lemma_width();
        <u128 as BitCount>::lemma_width();
    }
}

impl InterleaveOutput<14> for u8 {
    type Output = u128;

    proof fn lemma_output_fits() {
        <u8 as BitCount>::lemma_width();
        <u128 as BitCount>::lemma_width();
    }
}

impl InterleaveOutput<15> for u8 {
    type Output = u128;

    proof fn lemma_output_fits() {
        <u8 as BitCount>::lemma_width();
        <u128 as BitCount>::lemma_width();
    }
}

impl InterleaveOutput<16> for u8 {
    type Output = u128;

    proof fn lemma_output_fits() {
        <u8 as BitCount>::lemma_width();
        <u128 as BitCount>::lemma_width();
    }
}

impl InterleaveOutput<2> for u16 {
    type Output = u32;

    proof fn lemma_output_fits() {
        <u16 as BitCount>::lemma_width();
        <u32 as BitCount>::lemma_width();
    }
}

impl InterleaveOutput<3> for u16 {
    type Output = u64;

    proof fn lemma_output_fits() {
        <u16 as BitCount>::lemma_width();
        <u64 as BitCount>::lemma_width();
    }
}

impl InterleaveOutput<4> for u16 {
    type Output = u64;

    proof fn lemma_output_fits() {
        <u16 as BitCount>::lemma_width();
        <u64 as BitCount>::lemma_width();
    }
}

impl InterleaveOutput<5> for u16 {
    type Output = u128;

    proof fn lemma_output_fits() {
        <u16 as BitCount>::lemma_width();
        <u128 as BitCount>::lemma_width();
    }
}

impl InterleaveOutput<6> for u16 {
    type Output = u128;

    proof fn lemma_output_fits() {
        <u16 as BitCount>::lemma_width();
        <u128 as BitCount>::lemma_width();
    }
}

impl InterleaveOutput<7> for u16 {
    type Output = u128;

    proof fn lemma_output_fits() {
        <u16 as BitCount>::lemma_width();
        <u128 as BitCount>::lemma_width();
    }
}

impl InterleaveOutput<8> for u16 {
    type Output = u128;

    proof fn lemma_output_fits() {
        <u16 as BitCount>::lemma_width();
        <u128 as BitCount>::lemma_width();
    }
}

impl InterleaveOutput<2> for u32 {
    type Output = u64;

    proof fn lemma_output_fits() {
        <u32 as BitCount>::lemma_width();
        <u64 as BitCount>::lemma_width();
    }
}

impl InterleaveOutput<3> for u32 {
    type Output = u128;

    proof fn lemma_output_fits() {
        <u32 as BitCount>::lemma_width();
        <u128 as BitCount>::lemma_width();
    }
}

impl InterleaveOutput<4> for u32 {
    type Output = u128;

    proof fn lemma_output_fits() {
        <u32 as BitCount>::lemma_width();
        <u128 as BitCount>::lemma_width();
    }
}

impl InterleaveOutput<2> for u64 {
    type Output = u128;

    proof fn lemma_output_fits() {
        <u64 as BitCount>::lemma_width();
        <u128 as BitCount>::lemma_width();
    }
}

} // verus!
