//! Conversions between N-dimensional coordinates and
//! [Z-order curve](https://en.wikipedia.org/wiki/Z-order_curve) indexes.
//!
//! The Z-order curve, also known as the Morton code, maps N-dimensional coordinates to a
//! single index by interleaving the bits of the coordinates: bit `p` of the index is bit
//! `p / N` of coordinate `p % N`. It keeps nearby points close together, which makes it a
//! cache-friendly way of storing N-dimensional data in a 1D array.
//!
//! Every supported pair of coordinate type and dimension count has an index type: the
//! smallest unsigned integer type that holds all the coordinates. Pairs without one do
//! not compile.
pub mod bits;
pub mod mask;
mod interleave;
mod deinterleave;
pub mod bmi2;

pub use deinterleave::{is_gathered, Deinterleave, DeinterleaveOutput};
pub use interleave::{is_spread, Interleave, InterleaveOutput};

use bits::{
    bit,
    lemma_bit_above,
    lemma_bit_or,
    lemma_bit_shl,
    lemma_bit_zero,
    lemma_bits_equal,
};
use mask::{lemma_from_u128_bits, BitCount};
use vstd::arithmetic::div_mod::{lemma_fundamental_div_mod, lemma_fundamental_div_mod_converse};
use vstd::arithmetic::power2::pow2;
use vstd::arithmetic::mul::lemma_mul_is_commutative;
use vstd::prelude::*;

verus! {

/// `index` is the Z-order index of `coords`: bit `p` of the index is bit `p / n` of
/// coordinate `p % n`, where `n` is the number of coordinates.
pub open spec fn is_morton_index(index: nat, coords: Seq<nat>) -> bool {
    forall|p: nat| #[trigger]
        bit(index, p) == bit(coords[(p % coords.len()) as int], p / coords.len())
}

/// The coordinates of an array, as natural numbers.
pub open spec fn coords_of<I: BitCount, const N: usize>(array: [I; N]) -> Seq<nat> {
    array@.map_values(|c: I| c.to_nat())
}

/// Bit `p` of the or of the first `k` of `values`, value `j` shifted left by `j`: some
/// value `j` below `k` and at most `p` has bit `p - j` set.
pub open spec fn shifted_or_bit(values: Seq<nat>, k: int, p: nat) -> bool {
    exists|j: int| 0 <= j < k && j <= p && #[trigger] bit(values[j], (p - j) as nat)
}

/// A sequence of values of a supported type, as natural numbers.
pub open spec fn values_of<O: BitCount>(values: Seq<O>) -> Seq<nat> {
    values.map_values(|v: O| v.to_nat())
}

/// Combines the interleaved coordinates into one index: `interleave` is called on each
/// coordinate, the result for axis `j` is shifted left by `j`, and the shifted results are
/// or-ed together in the index type.
pub fn generic_index_of<I: Interleave<N>, const N: usize, F: Fn(I) -> I::Output>(
    array: [I; N],
    interleave: F,
) -> (r: I::Output)
    requires
        forall|c: I| #[trigger] interleave.requires((c,)),
    ensures
        exists|results: Seq<I::Output>|
            {
                &&& results.len() == N
                &&& forall|j: int|
                    0 <= j < N ==> #[trigger] interleave.ensures((array[j],), results[j])
                &&& forall|p: nat| #[trigger]
                    bit(r.to_nat(), p) == (p < <I::Output as BitCount>::BITS && shifted_or_bit(
                        values_of(results),
                        N as int,
                        p,
                    ))
            },
{
    proof {
        I::lemma_dimension();
        I::lemma_width();
        <I::Output as BitCount>::lemma_width();
        assert(N <= 16) by (nonlinear_arith)
            requires
                N * I::BITS <= <I::Output as BitCount>::BITS,
                <I::Output as BitCount>::BITS <= 128,
                I::BITS >= 8,
        ;
        lemma_bit_zero();
    }
    let ghost mut results: Seq<I::Output> = Seq::empty();
    let mut acc: u128 = 0;
    let mut i: usize = 0;
    while i < N
        invariant
            N <= 16,
            i <= N,
            results.len() == i,
            forall|c: I| #[trigger] interleave.requires((c,)),
            forall|j: int| 0 <= j < i ==> #[trigger] interleave.ensures((array[j],), results[j]),
            forall|p: nat| #[trigger]
                bit(acc as nat, p) == (p < 128 && shifted_or_bit(values_of(results), i as int, p)),
        decreases N - i,
    {
        let value = interleave(array[i]);
        let wide = value.to_u128();
        let shifted = wide << (i as u128);
        let next = acc | shifted;
        proof {
            let old_results = results;
            let old_values = values_of(results);
            results = results.push(value);
            let new_values = values_of(results);
            assert(new_values[i as int] == wide);
            assert forall|j: int| 0 <= j < i implies #[trigger] new_values[j] == old_values[j] by {
                assert(results[j] == old_results[j]);
            }
            lemma_bit_shl(wide, i as u128);
            lemma_bit_or(acc, shifted);
            assert forall|p: nat| #[trigger]
                bit(next as nat, p) == (p < 128 && shifted_or_bit(new_values, i + 1, p)) by {
                if shifted_or_bit(new_values, i + 1, p) {
                    let j = choose|j: int|
                        0 <= j < i + 1 && j <= p && #[trigger] bit(new_values[j], (p - j) as nat);
                    if j < i {
                        assert(bit(old_values[j], (p - j) as nat));
                    }
                }
                if shifted_or_bit(old_values, i as int, p) {
                    let j = choose|j: int|
                        0 <= j < i && j <= p && #[trigger] bit(old_values[j], (p - j) as nat);
                    assert(bit(new_values[j], (p - j) as nat));
                }
                if i <= p && bit(wide as nat, (p - i) as nat) {
                    assert(bit(new_values[i as int], (p - i) as nat));
                }
            }
        }
        acc = next;
        i = i + 1;
    }
    let r = <I::Output as BitCount>::from_u128(acc);
    proof {
        lemma_from_u128_bits(acc, r);
    }
    r
}

/// Takes every coordinate out of an index: coordinate `i` is what `deinterleave` returns
/// for the index and `i`.
pub fn generic_coord_of<
    I: Deinterleave<N> + Copy,
    const N: usize,
    F: Fn(I, usize) -> I::Output,
>(index: I, deinterleave: F) -> (r: [I::Output; N])
    requires
        forall|lsb: usize| lsb < N ==> #[trigger] deinterleave.requires((index, lsb)),
    ensures
        forall|i: int| 0 <= i < N ==> #[trigger] deinterleave.ensures((index, i as usize), r[i]),
{
    let zero = <I::Output as BitCount>::from_u128(0);
    let mut out: [I::Output; N] = [zero; N];
    let mut i: usize = 0;
    while i < N
        invariant
            i <= N,
            forall|lsb: usize| lsb < N ==> #[trigger] deinterleave.requires((index, lsb)),
            forall|j: int| 0 <= j < i ==> #[trigger] deinterleave.ensures((index, j as usize), out[j]),
        decreases N - i,
    {
        out[i] = deinterleave(index, i);
        i = i + 1;
    }
    out
}

/// Calculates the Z-order curve index of the given coordinates.
///
/// The output type is the smallest unsigned integer type that holds all of the
/// coordinates.
pub fn index_of<I: Interleave<N>, const N: usize>(array: [I; N]) -> (r: I::Output)
    ensures
        is_morton_index(r.to_nat(), coords_of(array)),
{
    let spread = |c: I| -> (s: I::Output)
        ensures
            is_spread(s.to_nat(), c.to_nat(), N as nat),
        { c.interleave() };
    let r = generic_index_of(array, spread);
    proof {
        I::lemma_dimension();
        I::lemma_width();
        let results = choose|results: Seq<I::Output>|
            {
                &&& results.len() == N
                &&& forall|j: int|
                    0 <= j < N ==> #[trigger] spread.ensures((array[j],), results[j])
                &&& forall|p: nat| #[trigger]
                    bit(r.to_nat(), p) == (p < <I::Output as BitCount>::BITS && shifted_or_bit(
                        values_of(results),
                        N as int,
                        p,
                    ))
            };
        let values = values_of(results);
        let coords = coords_of(array);
        let n = N as nat;
        let w = I::BITS as nat;
        assert forall|p: nat| #[trigger] bit(r.to_nat(), p) == bit(coords[(p % n) as int], p / n) by {
            let k = p % n;
            let q = p / n;
            lemma_fundamental_div_mod(p as int, n as int);
            if shifted_or_bit(values, N as int, p) {
                let j = choose|j: int|
                    0 <= j < N && j <= p && #[trigger] bit(values[j], (p - j) as nat);
                assert(spread.ensures((array[j],), results[j]));
                let d = (p - j) as nat;
                lemma_fundamental_div_mod(d as int, n as int);
                assert(d % n == 0 && bit(coords[j], d / n));
                assert(p == (d / n) * n + j) by (nonlinear_arith)
                    requires
                        d == n * (d / n) + d % n,
                        d % n == 0,
                        d == p - j,
                ;
                lemma_fundamental_div_mod_converse(p as int, n as int, (d / n) as int, j);
            }
            if bit(coords[k as int], q) {
                I::lemma_fits(array[k as int]);
                if q >= w {
                    lemma_bit_above(coords[k as int], w, q);
                }
                assert(p < <I::Output as BitCount>::BITS) by (nonlinear_arith)
                    requires
                        p == n * q + k,
                        k < n,
                        q < w,
                        n * w <= <I::Output as BitCount>::BITS,
                ;
                assert(spread.ensures((array[k as int],), results[k as int]));
                let d = (p - k) as nat;
                assert(d == q * n) by (nonlinear_arith)
                    requires
                        p == n * q + k,
                        d == p - k,
                ;
                lemma_fundamental_div_mod_converse(d as int, n as int, q as int, 0);
                assert(bit(values[k as int], d));
            }
        }
    }
    r
}

/// Returns the coordinates of the given Z-order curve index.
///
/// Since several coordinate types map to the same index type, the number of dimensions
/// `N` may need to be given to pick one.
pub fn coord_of<I: Deinterleave<N> + Copy, const N: usize>(index: I) -> (r: [I::Output; N])
    ensures
        forall|i: int|
            0 <= i < N ==> is_gathered(
                #[trigger] r[i].to_nat(),
                index.to_nat(),
                N as nat,
                i as nat,
                <I::Output as BitCount>::BITS as nat,
            ),
{
    proof {
        I::lemma_dimension();
        I::lemma_width();
        <I::Output as BitCount>::lemma_width();
        assert(N < I::BITS) by (nonlinear_arith)
            requires
                N * <I::Output as BitCount>::BITS <= I::BITS,
                <I::Output as BitCount>::BITS >= 8,
                N >= 2,
        ;
    }
    let gather = |x: I, lsb: usize| -> (c: I::Output)
        requires
            lsb < N,
        ensures
            is_gathered(
                c.to_nat(),
                x.to_nat(),
                N as nat,
                lsb as nat,
                <I::Output as BitCount>::BITS as nat,
            ),
        { x.deinterleave(lsb) };
    let r = generic_coord_of(index, gather);
    assert forall|i: int| 0 <= i < N implies is_gathered(
        #[trigger] r[i].to_nat(),
        index.to_nat(),
        N as nat,
        i as nat,
        <I::Output as BitCount>::BITS as nat,
    ) by {
        assert(gather.ensures((index, i as usize), r[i]));
    }
    r
}

/// Decoding the index of some coordinates gives those coordinates back: when every
/// coordinate fits in `width` bits, the value gathered from the index at axis `i` is
/// coordinate `i`.
pub proof fn lemma_decode_of_encode(coords: Seq<nat>, width: nat, index: nat, decoded: Seq<nat>)
    requires
        coords.len() > 0,
        forall|i: int| 0 <= i < coords.len() ==> #[trigger] coords[i] < pow2(width),
        is_morton_index(index, coords),
        decoded.len() == coords.len(),
        forall|i: int|
            0 <= i < coords.len() ==> is_gathered(
                #[trigger] decoded[i],
                index,
                coords.len(),
                i as nat,
                width,
            ),
    ensures
        decoded == coords,
{
    let n = coords.len();
    assert forall|i: int| 0 <= i < n implies #[trigger] decoded[i] == coords[i] by {
        assert forall|p: nat| #[trigger] bit(decoded[i], p) == bit(coords[i], p) by {
            let q = (i + n * p) as nat;
            assert(bit(index, q) == bit(coords[(q % n) as int], q / n));
            lemma_mul_is_commutative(n as int, p as int);
            lemma_fundamental_div_mod_converse(q as int, n as int, p as int, i);
            if p >= width {
                lemma_bit_above(coords[i], width, p);
            }
        }
        lemma_bits_equal(decoded[i], coords[i]);
    }
    assert(decoded =~= coords);
}

/// Encoding the coordinates decoded from an index gives the index back, when the index
/// has no bit set above the `n * width` bits that `n` coordinates of `width` bits fill.
pub proof fn lemma_encode_of_decode(
    index: nat,
    n: nat,
    width: nat,
    decoded: Seq<nat>,
    reencoded: nat,
)
    requires
        n > 0,
        decoded.len() == n,
        index < pow2(n * width),
        forall|i: int|
            0 <= i < n ==> is_gathered(#[trigger] decoded[i], index, n, i as nat, width),
        is_morton_index(reencoded, decoded),
    ensures
        reencoded == index,
{
    assert forall|p: nat| #[trigger] bit(reencoded, p) == bit(index, p) by {
        let i = p % n;
        let k = p / n;
        lemma_fundamental_div_mod(p as int, n as int);
        assert(bit(decoded[i as int], k) == (k < width && bit(index, i + n * k)));
        assert(i + n * k == p);
        if k >= width {
            assert(p >= n * width) by (nonlinear_arith)
                requires
                    p == n * k + i,
                    k >= width,
                    i >= 0,
            ;
            lemma_bit_above(index, n * width, p);
        }
    }
    lemma_bits_equal(reencoded, index);
}

/// A Z-order index is determined by its coordinates: two numbers that are both the index
/// of the same coordinates are equal, so any two ways of building it agree.
pub proof fn lemma_morton_index_unique(a: nat, b: nat, coords: Seq<nat>)
    requires
        is_morton_index(a, coords),
        is_morton_index(b, coords),
    ensures
        a == b,
{
    assert forall|p: nat| #[trigger] bit(a, p) == bit(b, p) by {
        assert(bit(a, p) == bit(coords[(p % coords.len()) as int], p / coords.len()));
    }
    lemma_bits_equal(a, b);
}

/// A gathered value is determined by what it is gathered from: two numbers that both
/// hold the same bits of `v` are equal, so any two ways of taking out a coordinate agree.
pub proof fn lemma_gathered_unique(a: nat, b: nat, v: nat, n: nat, lsb: nat, w: nat)
    requires
        is_gathered(a, v, n, lsb, w),
        is_gathered(b, v, n, lsb, w),
    ensures
        a == b,
{
    assert forall|p: nat| #[trigger] bit(a, p) == bit(b, p) by {
        assert(bit(a, p) == (p < w && bit(v, lsb + n * p)));
    }
    lemma_bits_equal(a, b);
}

/// Round trip on values: the coordinates that `coord_of` takes out of the index that
/// `index_of` made of `array` are `array` itself.
pub proof fn lemma_coords_round_trip<I: Interleave<N>, J: Deinterleave<N, Output = I>, const N: usize>(
    array: [I; N],
    index: J,
    decoded: [I; N],
)
    requires
        is_morton_index(index.to_nat(), coords_of(array)),
        forall|i: int|
            0 <= i < N ==> is_gathered(
                #[trigger] decoded[i].to_nat(),
                index.to_nat(),
                N as nat,
                i as nat,
                I::BITS as nat,
            ),
    ensures
        decoded == array,
{
    I::lemma_dimension();
    let coords = coords_of(array);
    let values = coords_of(decoded);
    assert forall|i: int| 0 <= i < N implies #[trigger] coords[i] < pow2(I::BITS as nat) by {
        I::lemma_fits(array[i]);
    }
    assert forall|i: int| 0 <= i < N implies is_gathered(
        #[trigger] values[i],
        index.to_nat(),
        N as nat,
        i as nat,
        I::BITS as nat,
    ) by {
        assert(values[i] == decoded[i].to_nat());
    }
    lemma_decode_of_encode(coords, I::BITS as nat, index.to_nat(), values);
    assert forall|i: int| 0 <= i < N implies #[trigger] decoded[i] == array[i] by {
        assert(values[i] == coords[i]);
        I::lemma_to_nat_injective(decoded[i], array[i]);
    }
    assert(decoded =~= array);
}

/// Round trip on values: when `index` has no bit set above the `N * w` bits that `N`
/// coordinates of `w` bits fill, `index_of` of the coordinates that `coord_of` took out
/// of it is `index` itself.
pub proof fn lemma_index_round_trip<J: Deinterleave<N>, const N: usize>(
    index: J,
    decoded: [J::Output; N],
    reencoded: J,
)
    requires
        index.to_nat() < pow2(N as nat * <J::Output as BitCount>::BITS as nat),
        forall|i: int|
            0 <= i < N ==> is_gathered(
                #[trigger] decoded[i].to_nat(),
                index.to_nat(),
                N as nat,
                i as nat,
                <J::Output as BitCount>::BITS as nat,
            ),
        is_morton_index(reencoded.to_nat(), coords_of(decoded)),
    ensures
        reencoded == index,
{
    J::lemma_dimension();
    let values = coords_of(decoded);
    assert forall|i: int| 0 <= i < N implies is_gathered(
        #[trigger] values[i],
        index.to_nat(),
        N as nat,
        i as nat,
        <J::Output as BitCount>::BITS as nat,
    ) by {
        assert(values[i] == decoded[i].to_nat());
    }
    lemma_encode_of_decode(
        index.to_nat(),
        N as nat,
        <J::Output as BitCount>::BITS as nat,
        values,
        reencoded.to_nat(),
    );
    J::lemma_to_nat_injective(reencoded, index);
}

} // verus!
