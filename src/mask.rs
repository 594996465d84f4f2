//! Bit widths of the unsigned types and the periodic masks built from them.
use crate::bits::{
    bit,
    lemma_bit_max,
    lemma_bit_mod_pow2,
    lemma_bit_or,
    lemma_bit_shl,
    lemma_bit_shr,
    lemma_bit_zero,
    lemma_pow2_128,
};
use vstd::arithmetic::div_mod::{
    lemma_fundamental_div_mod,
    lemma_fundamental_div_mod_converse,
    lemma_small_mod,
};
use vstd::arithmetic::power2::{lemma2_to64, pow2};
use vstd::prelude::*;

verus! {

/// An unsigned integer type of one of the supported widths.
pub trait BitCount: Sized + Copy {
    /// The number of bits in the type.
    const BITS: u32;

    /// The base-2 logarithm of the number of bits in the type.
    const BITS_ILOG2: u32;

    /// The value as a natural number.
    spec fn to_nat(self) -> nat;

    /// The number of bits in the type, for specifications.
    spec fn width() -> nat;

    /// The width is a power of two from 8 to 128.
    proof fn lemma_width()
        ensures
            Self::BITS == Self::width(),
            8 <= Self::BITS <= 128,
            3 <= Self::BITS_ILOG2 <= 7,
            Self::BITS == pow2(Self::BITS_ILOG2 as nat),
    ;

    /// Every value fits in the width.
    proof fn lemma_fits(x: Self)
        ensures
            x.to_nat() < pow2(Self::BITS as nat),
    ;

    /// Two values with the same number are the same value.
    proof fn lemma_to_nat_injective(a: Self, b: Self)
        ensures
            a.to_nat() == b.to_nat() ==> a == b,
    ;

    /// Widens the value to `u128`.
    fn to_u128(self) -> (r: u128)
        ensures
            r == self.to_nat(),
    ;

    /// Keeps the low `BITS` bits of `v`.
    fn from_u128(v: u128) -> (r: Self)
        ensures
            r.to_nat() == (v as nat) % pow2(Self::BITS as nat),
    ;
}

proof fn lemma_truncate(v: u128)
    by (bit_vector)
    ensures
        v as u8 == v % 0x100,
        v as u16 == v % 0x1_0000,
        v as u32 == v % 0x1_0000_0000,
        v as u64 == v % 0x1_0000_0000_0000_0000,
{
}

impl BitCount for u8 {
    const BITS: u32 = 8;

    open spec fn width() -> nat {
        8
    }

    const BITS_ILOG2: u32 = 3;

    open spec fn to_nat(self) -> nat {
        self as nat
    }

    proof fn lemma_width() {
        lemma2_to64();
    }

    proof fn lemma_fits(x: Self) {
        lemma2_to64();
    }

    proof fn lemma_to_nat_injective(a: Self, b: Self) {
    }

    fn to_u128(self) -> (r: u128) {
        self as u128
    }

    fn from_u128(v: u128) -> (r: Self) {
        proof {
            lemma2_to64();
            lemma_truncate(v);
        }
        v as u8
    }
}

impl BitCount for u16 {
    const BITS: u32 = 16;

    open spec fn width() -> nat {
        16
    }

    const BITS_ILOG2: u32 = 4;

    open spec fn to_nat(self) -> nat {
        self as nat
    }

    proof fn lemma_width() {
        lemma2_to64();
    }

    proof fn lemma_fits(x: Self) {
        lemma2_to64();
    }

    proof fn lemma_to_nat_injective(a: Self, b: Self) {
    }

    fn to_u128(self) -> (r: u128) {
        self as u128
    }

    fn from_u128(v: u128) -> (r: Self) {
        proof {
            lemma2_to64();
            lemma_truncate(v);
        }
        v as u16
    }
}

impl BitCount for u32 {
    const BITS: u32 = 32;

    open spec fn width() -> nat {
        32
    }

    const BITS_ILOG2: u32 = 5;

    open spec fn to_nat(self) -> nat {
        self as nat
    }

    proof fn lemma_width() {
        lemma2_to64();
    }

    proof fn lemma_fits(x: Self) {
        lemma2_to64();
    }

    proof fn lemma_to_nat_injective(a: Self, b: Self) {
    }

    fn to_u128(self) -> (r: u128) {
        self as u128
    }

    fn from_u128(v: u128) -> (r: Self) {
        proof {
            lemma2_to64();
            lemma_truncate(v);
        }
        v as u32
    }
}

impl BitCount for u64 {
    const BITS: u32 = 64;

    open spec fn width() -> nat {
        64
    }

    const BITS_ILOG2: u32 = 6;

    open spec fn to_nat(self) -> nat {
        self as nat
    }

    proof fn lemma_width() {
        lemma2_to64();
    }

    proof fn lemma_fits(x: Self) {
        lemma2_to64();
    }

    proof fn lemma_to_nat_injective(a: Self, b: Self) {
    }

    fn to_u128(self) -> (r: u128) {
        self as u128
    }

    fn from_u128(v: u128) -> (r: Self) {
        proof {
            lemma2_to64();
            lemma_truncate(v);
        }
        v as u64
    }
}

impl BitCount for u128 {
    const BITS: u32 = 128;

    open spec fn width() -> nat {
        128
    }

    const BITS_ILOG2: u32 = 7;

    open spec fn to_nat(self) -> nat {
        self as nat
    }

    proof fn lemma_width() {
        lemma2_to64();
    }

    proof fn lemma_fits(x: Self) {
        lemma_pow2_128();
    }

    proof fn lemma_to_nat_injective(a: Self, b: Self) {
    }

    fn to_u128(self) -> (r: u128) {
        self
    }

    fn from_u128(v: u128) -> (r: Self) {
        proof {
            lemma_pow2_128();
            lemma_small_mod(v as nat, pow2(128));
        }
        v
    }
}

/// The bits of a value of a supported type: those below its width, as read from its `u128` form.
pub proof fn lemma_from_u128_bits<T: BitCount>(v: u128, r: T)
    requires
        r.to_nat() == (v as nat) % pow2(T::BITS as nat),
    ensures
        forall|p: nat| #[trigger] bit(r.to_nat(), p) == (p < T::BITS && bit(v as nat, p)),
{
    assert forall|p: nat| #[trigger] bit(r.to_nat(), p) == (p < T::BITS && bit(v as nat, p)) by {
        lemma_bit_mod_pow2(v as nat, T::BITS as nat, p);
    }
}

/// The mask `interleave_mask(dim, bits)` has the bit at `p` set exactly when `p` lies
/// in the type's width and in the first `bits` positions of its period of `dim * bits`.
pub open spec fn is_interleave_mask(m: nat, dim: nat, bits: nat, width: nat) -> bool {
    forall|p: nat| #[trigger] bit(m, p) == (p < width && p % (dim * bits) < bits)
}

/// The shift distance of one stage of interleaving: `(dim - 1) * 2^i`.
pub fn interleave_shift(dim: u32, i: u32) -> (r: u32)
    requires
        1 <= dim,
        i < 32,
        (dim - 1) * pow2(i as nat) <= u32::MAX,
    ensures
        r == (dim - 1) * pow2(i as nat),
{
    proof {
        vstd::bits::lemma_u32_shl_is_mul((dim - 1) as u32, i);
    }
    (dim - 1) << i
}

/// Sets the `bits` least significant bits of the given type.
pub fn bit_mask<T: BitCount>(bits: u32) -> (r: T)
    requires
        0 < bits <= T::BITS,
    ensures
        forall|p: nat| #[trigger] bit(r.to_nat(), p) == (p < bits),
{
    proof {
        T::lemma_width();
        lemma2_to64();
    }
    let shift: u128 = (128 - bits) as u128;
    let low = u128::MAX >> shift;
    let r = T::from_u128(low);
    proof {
        lemma_bit_max();
        lemma_bit_shr(u128::MAX, shift);
        lemma_from_u128_bits(low, r);
    }
    r
}

/// Position `p` lies in run `i` of a comb of period `q` and run length `b`.
proof fn lemma_in_run(p: nat, q: nat, b: nat, i: nat)
    requires
        0 < b <= q,
    ensures
        (p / q == i && p % q < b) == (i * q <= p < i * q + b),
{
    lemma_fundamental_div_mod(p as int, q as int);
    assert(q * (p / q) == (p / q) * q) by (nonlinear_arith);
    if p / q == i {
        assert(i * q == q * (p / q));
    }
    if i * q <= p < i * q + b {
        lemma_fundamental_div_mod_converse(p as int, q as int, i as int, p - i * q);
    }
}

/// Rounds `a / b` up.
fn div_ceil(a: u32, b: u32) -> (r: u32)
    requires
        0 < b,
    ensures
        r * b >= a,
        (r - 1) * b < a || r == 0,
        r <= a,
        a > 0 ==> r > 0,
{
    let q = a / b;
    proof {
        lemma_fundamental_div_mod(a as int, b as int);
        assert(q * b <= a) by (nonlinear_arith)
            requires
                a == b * q + a % b,
                0 <= a % b,
        ;
    }
    if a % b != 0 {
        proof {
            assert((q + 1) * b >= a && q * b < a && q + 1 <= a) by (nonlinear_arith)
                requires
                    a == b * q + a % b,
                    0 < a % b < b,
                    0 < b,
            ;
        }
        q + 1
    } else {
        proof {
            assert(q * b >= a && (q - 1) * b < a && q <= a && (a > 0 ==> q > 0)) by (nonlinear_arith)
                requires
                    a == b * q,
                    0 < b,
                    q >= 0,
            ;
        }
        q
    }
}

/// The mask for one stage of interleaving and deinterleaving: runs of `bits` set bits,
/// the first at bit 0, one every `dim * bits` bits, across the width of the type.
pub fn interleave_mask<T: BitCount>(dim: u32, bits: u32) -> (r: T)
    requires
        1 <= dim,
        0 < bits <= T::BITS,
    ensures
        is_interleave_mask(r.to_nat(), dim as nat, bits as nat, T::BITS as nat),
{
    proof {
        T::lemma_width();
        lemma2_to64();
    }
    let width = T::BITS;
    let low: u128 = bit_mask::<u128>(bits);
    assert forall|p: nat| #[trigger] bit(low as nat, p) == (p < bits) by {
        assert(bit(low.to_nat(), p) == (p < bits));
    }
    let ceil_div_dim = div_ceil(width, dim);
    let ceil_div_bits = div_ceil(ceil_div_dim, bits);
    let ghost q: nat = (dim * bits) as nat;
    assert(q >= bits) by (nonlinear_arith)
        requires
            q == dim * bits,
            dim >= 1,
    ;
    let mut acc: u128 = 0;
    let mut i: u32 = 0;
    proof {
        lemma_bit_zero();
    }
    while i < ceil_div_bits
        invariant
            1 <= dim,
            0 < bits <= width <= 128,
            width == T::BITS,
            q == dim * bits,
            q >= bits,
            ceil_div_dim * dim >= width,
            (ceil_div_dim - 1) * dim < width,
            ceil_div_bits * bits >= ceil_div_dim,
            (ceil_div_bits - 1) * bits < ceil_div_dim || ceil_div_bits == 0,
            i <= ceil_div_bits,
            forall|p: nat| #[trigger] bit(low as nat, p) == (p < bits),
            forall|p: nat| #[trigger]
                bit(acc as nat, p) == (p < 128 && p / q < i && p % q < bits),
        decreases ceil_div_bits - i,
    {
        assert(i * dim * bits < width && i * dim <= i * dim * bits) by (nonlinear_arith)
            requires
                i < ceil_div_bits,
                (ceil_div_bits - 1) * bits < ceil_div_dim,
                (ceil_div_dim - 1) * dim < width,
                bits >= 1,
                dim >= 1,
        ;
        let shift: u128 = (i * dim * bits) as u128;
        let run = low << shift;
        let next = acc | run;
        proof {
            assert(shift == i * q) by (nonlinear_arith)
                requires
                    shift == i * dim * bits,
                    q == dim * bits,
            ;
            lemma_bit_shl(low, shift);
            lemma_bit_or(acc, run);
            assert forall|p: nat| #[trigger]
                bit(next as nat, p) == (p < 128 && p / q < i + 1 && p % q < bits) by {
                lemma_in_run(p, q, bits as nat, i as nat);
            }
        }
        acc = next;
        i = i + 1;
    }
    let r = T::from_u128(acc);
    proof {
        lemma_from_u128_bits(acc, r);
        assert forall|p: nat| #[trigger]
            bit(r.to_nat(), p) == (p < width && p % q < bits) by {
            if p < width && p % q < bits {
                let k = p / q;
                lemma_fundamental_div_mod(p as int, q as int);
                assert(k < ceil_div_bits) by (nonlinear_arith)
                    requires
                        p == q * k + p % q,
                        p < width,
                        q == dim * bits,
                        ceil_div_dim * dim >= width,
                        ceil_div_bits * bits >= ceil_div_dim,
                        dim >= 1,
                        bits >= 1,
                        p % q >= 0,
                ;
            }
        }
    }
    r
}

/// The number of runs of an interleave mask: `ceil(width / (dim * bits))`.
pub open spec fn run_count(dim: nat, bits: nat, width: nat) -> nat {
    ((width + dim * bits - 1) as nat) / (dim * bits)
}

/// The runs of an interleave mask. When `bits` divides the width, the mask holds exactly
/// `ceil(width / (dim * bits))` runs of `bits` set bits: the bits of run `k`, from bit
/// `k * dim * bits` on, are all set when `k` is below that count and all clear beyond it,
/// and every bit between two runs is clear.
pub proof fn lemma_mask_runs(m: nat, dim: nat, bits: nat, width: nat, k: nat, j: nat)
    requires
        is_interleave_mask(m, dim, bits, width),
        1 <= dim,
        0 < bits,
        width % bits == 0,
    ensures
        j < bits ==> bit(m, k * (dim * bits) + j) == (k < run_count(dim, bits, width)),
        bits <= j < dim * bits ==> !bit(m, k * (dim * bits) + j),
{
    let q = dim * bits;
    assert(q >= bits) by (nonlinear_arith)
        requires
            q == dim * bits,
            dim >= 1,
    ;
    let p = k * q + j;
    if j < q {
        lemma_fundamental_div_mod_converse(p as int, q as int, k as int, j as int);
    }
    if j < bits {
        let t = (width + q - 1) as nat;
        let c = t / q;
        lemma_fundamental_div_mod(t as int, q as int);
        lemma_fundamental_div_mod(width as int, bits as int);
        let m_ = width / bits;
        if k < c {
            assert(k * q + q <= q * c) by (nonlinear_arith)
                requires
                    k < c,
                    q > 0,
            ;
            let a = k * dim;
            assert(k * q == bits * a) by (nonlinear_arith)
                requires
                    a == k * dim,
                    q == dim * bits,
            ;
            assert(a < m_) by (nonlinear_arith)
                requires
                    bits * a < bits * m_,
                    bits > 0,
            ;
            assert(bits * a + bits <= bits * m_) by (nonlinear_arith)
                requires
                    a < m_,
                    bits > 0,
            ;
        } else {
            assert(k * q + j >= width) by (nonlinear_arith)
                requires
                    k >= c,
                    t == width + q - 1,
                    t == q * c + t % q,
                    t % q < q,
                    q > 0,
            ;
        }
    }
}

} // verus!
