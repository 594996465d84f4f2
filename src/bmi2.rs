//! The capability gate and the selector masks of the `bmi2`-accelerated path.
//!
//! The accelerated path deposits each coordinate into, or extracts it from, the bit
//! positions of its axis with a single instruction. The instructions exist only on CPUs
//! with the `bmi2` feature, so a [`HardwareSupportToken`] records a positive answer to
//! the question whether the CPU has it.
use crate::bits::{
    bit,
    lemma_bit_above,
    lemma_bit_mod_pow2,
    lemma_bit_shl,
    lemma_bit_zero,
    lemma_bits_equal,
};
use crate::deinterleave::is_gathered;
use crate::interleave::is_spread;
use crate::mask::{interleave_mask, lemma_from_u128_bits, BitCount};
use vstd::arithmetic::power2::pow2;
use vstd::arithmetic::div_mod::{lemma_fundamental_div_mod, lemma_fundamental_div_mod_converse};
use vstd::prelude::*;

verus! {

/// A record of a positive answer to the question whether the CPU supports the `bmi2`
/// instruction set.
///
/// It can be copied and moved freely. Its field is private, so the only way to get one is
/// [`HardwareSupportToken::new`], which hands one out exactly when it is told that the
/// feature is present. The token records the answer it was given; it proves support only
/// when that answer came from the CPU feature probe.
#[derive(Debug, Clone, Copy, PartialEq, Eq)]
pub struct HardwareSupportToken {
    _private: (),
}

impl HardwareSupportToken {
    /// Returns a token exactly when `supported` says that the CPU has the `bmi2`
    /// instruction set.
    pub fn new(supported: bool) -> (r: Option<Self>)
        ensures
            r is Some <==> supported,
    {
        if supported {
            Some(HardwareSupportToken { _private: () })
        } else {
            None
        }
    }
}

/// `m` selects axis `lsb` of `n` axes across `width` bits: its bits are those at `lsb`,
/// `lsb + n`, `lsb + 2 * n`, ... below `width`.
pub open spec fn is_axis_mask(m: nat, n: nat, lsb: nat, width: nat) -> bool {
    forall|p: nat| #[trigger] bit(m, p) == (p < width && p % n == lsb)
}

/// Bit deposit, as the `pdep` instruction computes it: the low bits of `x`, in order,
/// placed at the set bits of `m`.
pub open spec fn deposit(x: nat, m: nat) -> nat
    decreases m,
{
    if m == 0 {
        0
    } else if m % 2 == 1 {
        x % 2 + 2 * deposit(x / 2, m / 2)
    } else {
        2 * deposit(x, m / 2)
    }
}

/// Bit extract, as the `pext` instruction computes it: the bits of `v` at the set bits of
/// `m`, packed in order into the low bits.
pub open spec fn extract(v: nat, m: nat) -> nat
    decreases m,
{
    if m == 0 {
        0
    } else if m % 2 == 1 {
        v % 2 + 2 * extract(v / 2, m / 2)
    } else {
        extract(v / 2, m / 2)
    }
}

/// The selector mask of axis `lsb` among `dim` axes: the comb of one set bit every `dim`
/// bits, shifted left by `lsb`, so the bits at `lsb`, `lsb + dim`, `lsb + 2 * dim`, ...
/// across the width of the type.
pub fn axis_mask<T: BitCount>(dim: u32, lsb: u32) -> (r: T)
    requires
        1 <= dim,
        lsb < T::BITS,
    ensures
        forall|p: nat| #[trigger]
            bit(r.to_nat(), p) == (p < T::BITS && lsb <= p && (p - lsb) % (dim as int) == 0),
        lsb < dim ==> is_axis_mask(r.to_nat(), dim as nat, lsb as nat, T::BITS as nat),
{
    proof {
        T::lemma_width();
    }
    let comb: T = interleave_mask::<T>(dim, 1);
    let wide = comb.to_u128();
    let shifted = wide << (lsb as u128);
    let r = T::from_u128(shifted);
    proof {
        lemma_bit_shl(wide, lsb as u128);
        lemma_from_u128_bits(shifted, r);
        let n = dim as nat;
        assert(n * 1 == n);
        assert forall|p: nat| #[trigger]
            bit(r.to_nat(), p) == (p < T::BITS && lsb <= p && (p - lsb) % (dim as int) == 0) by {
            if p >= lsb {
                let d = (p - lsb) as nat;
                assert(bit(comb.to_nat(), d) == (d < T::BITS && d % n < 1));
            }
        }
        if lsb < dim {
            assert forall|p: nat| #[trigger]
                bit(r.to_nat(), p) == (p < T::BITS && p % n == lsb) by {
                lemma_fundamental_div_mod(p as int, n as int);
                if p >= lsb {
                    let d = (p - lsb) as nat;
                    lemma_fundamental_div_mod(d as int, n as int);
                    if d % n == 0 {
                        lemma_fundamental_div_mod_converse(
                            p as int,
                            n as int,
                            (d / n) as int,
                            lsb as int,
                        );
                    }
                    if p % n == lsb {
                        assert(d == (p / n) * n) by (nonlinear_arith)
                            requires
                                p == n * (p / n) + lsb,
                                d == p - lsb,
                        ;
                        lemma_fundamental_div_mod_converse(d as int, n as int, (p / n) as int, 0);
                    }
                }
            }
        }
    }
    r
}

/// The bits of `a + 2 * b` for a single bit `a`: `a` at the bottom, `b` above it.
proof fn lemma_bit_push(a: nat, b: nat, p: nat)
    requires
        a < 2,
    ensures
        bit(a + 2 * b, p) == if p == 0 {
            a == 1
        } else {
            bit(b, (p - 1) as nat)
        },
{
    assert((a + 2 * b) % 2 == a && (a + 2 * b) / 2 == b) by (nonlinear_arith)
        requires
            a < 2,
    ;
}

/// Stepping down one position moves through the residues modulo `n` backwards.
proof fn lemma_mod_step(p: nat, n: nat)
    requires
        p >= 1,
        n >= 1,
    ensures
        p % n == 0 ==> ((p - 1) as nat) % n == n - 1 && ((p - 1) as nat) / n + 1 == p / n,
        p % n != 0 ==> ((p - 1) as nat) % n == p % n - 1 && ((p - 1) as nat) / n == p / n,
{
    lemma_fundamental_div_mod(p as int, n as int);
    let k = p / n;
    let r = p % n;
    if r == 0 {
        assert(k >= 1) by (nonlinear_arith)
            requires
                p == n * k,
                p >= 1,
                k >= 0,
        ;
        assert(p - 1 == (k - 1) * n + (n - 1)) by (nonlinear_arith)
            requires
                p == n * k + r,
                r == 0,
        ;
        lemma_fundamental_div_mod_converse((p - 1) as int, n as int, (k - 1) as int, (n - 1) as int);
    } else {
        assert(p - 1 == k * n + (r - 1)) by (nonlinear_arith)
            requires
                p == n * k + r,
        ;
        lemma_fundamental_div_mod_converse((p - 1) as int, n as int, k as int, (r - 1) as int);
    }
}

/// Halving an axis mask gives the mask of the axis below, one bit narrower.
proof fn lemma_axis_mask_half(m: nat, n: nat, lsb: nat, width: nat)
    requires
        n >= 1,
        lsb < n,
        width > 0,
        is_axis_mask(m, n, lsb, width),
    ensures
        is_axis_mask(m / 2, n, if lsb == 0 {
            (n - 1) as nat
        } else {
            (lsb - 1) as nat
        }, (width - 1) as nat),
{
    let l2: nat = if lsb == 0 {
        (n - 1) as nat
    } else {
        (lsb - 1) as nat
    };
    assert forall|p: nat| #[trigger] bit(m / 2, p) == (p < width - 1 && p % n == l2) by {
        assert(bit(m, p + 1) == bit(m / 2, p));
        lemma_mod_step(p + 1, n);
    }
}

/// Where deposit puts the bits: bit `j` of `x` goes to position `lsb + n * j` of an axis
/// mask, as far as the mask reaches.
proof fn lemma_deposit_bits(x: nat, m: nat, n: nat, lsb: nat, width: nat)
    requires
        n >= 1,
        lsb < n,
        is_axis_mask(m, n, lsb, width),
    ensures
        forall|p: nat| #[trigger]
            bit(deposit(x, m), p) == (p < width && p % n == lsb && bit(x, p / n)),
    decreases width,
{
    lemma_bit_zero();
    if m == 0 {
        assert forall|p: nat| #[trigger]
            bit(deposit(x, m), p) == (p < width && p % n == lsb && bit(x, p / n)) by {
            assert(bit(m, p) == (p < width && p % n == lsb));
        }
    } else {
        assert(width > 0) by {
            if width == 0 {
                lemma_bits_equal_zero(m, n, lsb, width);
            }
        }
        assert(bit(m, 0) == (0 < width && 0nat % n == lsb));
        let l2: nat = if lsb == 0 {
            (n - 1) as nat
        } else {
            (lsb - 1) as nat
        };
        lemma_axis_mask_half(m, n, lsb, width);
        if lsb == 0 {
            lemma_deposit_bits(x / 2, m / 2, n, l2, (width - 1) as nat);
            assert forall|p: nat| #[trigger]
                bit(deposit(x, m), p) == (p < width && p % n == lsb && bit(x, p / n)) by {
                lemma_bit_push(x % 2, deposit(x / 2, m / 2), p);
                if p >= 1 {
                    lemma_mod_step(p, n);
                    let q = (p - 1) as nat;
                    if p % n == 0 {
                        assert(bit(x / 2, q / n) == bit(x, q / n + 1));
                    }
                } else {
                    assert(0nat / n == 0);
                }
            }
        } else {
            lemma_deposit_bits(x, m / 2, n, l2, (width - 1) as nat);
            assert forall|p: nat| #[trigger]
                bit(deposit(x, m), p) == (p < width && p % n == lsb && bit(x, p / n)) by {
                lemma_bit_push(0, deposit(x, m / 2), p);
                if p >= 1 {
                    lemma_mod_step(p, n);
                } else {
                    assert(0nat % n == 0);
                }
            }
        }
    }
}

/// An axis mask across a width of zero is zero.
proof fn lemma_bits_equal_zero(m: nat, n: nat, lsb: nat, width: nat)
    requires
        width == 0,
        is_axis_mask(m, n, lsb, width),
    ensures
        m == 0,
{
    lemma_bit_zero();
    assert forall|p: nat| #[trigger] bit(m, p) == bit(0, p) by {
        assert(bit(m, p) == (p < width && p % n == lsb));
    }
    lemma_bits_equal(m, 0);
}

/// What extract takes: bit `j` of the result is bit `lsb + n * j` of `v`, as far as the
/// axis mask reaches.
proof fn lemma_extract_bits(v: nat, m: nat, n: nat, lsb: nat, width: nat)
    requires
        n >= 1,
        lsb < n,
        is_axis_mask(m, n, lsb, width),
    ensures
        forall|j: nat| #[trigger]
            bit(extract(v, m), j) == (lsb + n * j < width && bit(v, lsb + n * j)),
    decreases width,
{
    lemma_bit_zero();
    if width == 0 {
        lemma_bits_equal_zero(m, n, lsb, width);
    } else {
        assert(bit(m, 0) == (0 < width && 0nat % n == lsb));
        let l2: nat = if lsb == 0 {
            (n - 1) as nat
        } else {
            (lsb - 1) as nat
        };
        lemma_axis_mask_half(m, n, lsb, width);
        lemma_extract_bits(v / 2, m / 2, n, l2, (width - 1) as nat);
        if m == 0 {
            assert forall|j: nat| #[trigger]
                bit(extract(v, m), j) == (lsb + n * j < width && bit(v, lsb + n * j)) by {
                let p = lsb + n * j;
                lemma_fundamental_div_mod_converse(p as int, n as int, j as int, lsb as int);
                assert(bit(m, p) == (p < width && p % n == lsb));
            }
        } else if lsb == 0 {
            assert forall|j: nat| #[trigger]
                bit(extract(v, m), j) == (lsb + n * j < width && bit(v, lsb + n * j)) by {
                lemma_bit_push(v % 2, extract(v / 2, m / 2), j);
                if j >= 1 {
                    let i = (j - 1) as nat;
                    assert(l2 + n * i + 1 == n * j) by (nonlinear_arith)
                        requires
                            l2 == n - 1,
                            i == j - 1,
                    ;
                    assert(bit(v, n * j) == bit(v / 2, l2 + n * i));
                }
            }
        } else {
            assert(m % 2 == 0);
            assert(extract(v, m) == extract(v / 2, m / 2));
            assert forall|j: nat| #[trigger]
                bit(extract(v, m), j) == (lsb + n * j < width && bit(v, lsb + n * j)) by {
                assert(bit(extract(v / 2, m / 2), j) == (l2 + n * j < width - 1 && bit(
                    v / 2,
                    l2 + n * j,
                )));
                assert(bit(v, lsb + n * j) == bit(v / 2, l2 + n * j));
            }
        }
    }
}

/// Depositing a coordinate at the selector mask of axis 0 spreads it exactly as
/// interleaving does: the accelerated spread meets the contract of the software one.
pub proof fn lemma_deposit_spreads(x: nat, m: nat, n: nat, width: nat, w: nat)
    requires
        n >= 2,
        x < pow2(w),
        n * w <= width,
        is_axis_mask(m, n, 0, width),
    ensures
        is_spread(deposit(x, m), x, n),
{
    lemma_deposit_bits(x, m, n, 0, width);
    assert forall|p: nat| #[trigger] bit(deposit(x, m), p) == (p % n == 0 && bit(x, p / n)) by {
        if p >= width {
            assert(p / n >= w) by (nonlinear_arith)
                requires
                    p >= width,
                    n * w <= width,
                    n >= 2,
            ;
            lemma_bit_above(x, w, p / n);
        }
    }
}

/// Extracting at the selector mask of axis `lsb` and keeping `w` bits gathers exactly what
/// deinterleaving gathers: the accelerated gather meets the contract of the software one.
pub proof fn lemma_extract_gathers(v: nat, m: nat, n: nat, lsb: nat, width: nat, w: nat)
    requires
        n >= 2,
        lsb < n,
        n * w <= width,
        is_axis_mask(m, n, lsb, width),
    ensures
        is_gathered(extract(v, m) % pow2(w), v, n, lsb, w),
{
    lemma_extract_bits(v, m, n, lsb, width);
    assert forall|j: nat| #[trigger]
        bit(extract(v, m) % pow2(w), j) == (j < w && bit(v, lsb + n * j)) by {
        lemma_bit_mod_pow2(extract(v, m), w, j);
        if j < w {
            assert(lsb + n * j < width) by (nonlinear_arith)
                requires
                    j < w,
                    lsb < n,
                    n * w <= width,
            ;
        }
    }
}

} // verus!
