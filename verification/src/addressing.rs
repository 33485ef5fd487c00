//! The geometric addressing function of the pyramid.
//!
//! When a chunk at a fine level is downsampled `delta` levels up, exactly one
//! coarse chunk receives its samples.  Per axis, for a chunk shape component
//! `s` (a power of two) and an aligned source key component `k`, the
//! destination chunk key is `floor(k / (s * 2^delta)) * s` and the offset
//! within that chunk is `(k mod (s * 2^delta)) / 2^delta`, with the
//! floor-consistent non-negative remainder, so that negative coordinates map
//! onto the grid below zero without any bias toward zero.

use vstd::prelude::*;

verus! {

use vstd::arithmetic::div_mod::lemma_div_is_ordered;
use vstd::arithmetic::div_mod::lemma_div_multiples_vanish;
use vstd::arithmetic::div_mod::lemma_fundamental_div_mod;
use vstd::arithmetic::div_mod::lemma_fundamental_div_mod_converse;
use vstd::arithmetic::div_mod::lemma_hoist_over_denominator;
use vstd::arithmetic::div_mod::lemma_mod_division_less_than_divisor;
use vstd::arithmetic::div_mod::lemma_mod_multiples_vanish;
use vstd::arithmetic::power2::is_pow2;
use vstd::arithmetic::power2::lemma2_to64;
use vstd::arithmetic::power2::lemma_pow2_pos;
use vstd::arithmetic::power2::pow2;
use crate::grid::wf_dims;
use crate::math::div_euclid_i32;
use crate::math::lemma_div_bounds;
use crate::math::pow2_i32;
use crate::math::rem_euclid_i32;
use crate::math::shl_pow2_i32;
use crate::point::Point;

/// A chunk shape: at least one axis, every component a positive power of two.
pub open spec fn wf_chunk_shape(shape: Seq<i32>) -> bool {
    &&& shape.len() >= 1
    &&& forall|a: int| 0 <= a < shape.len() ==> is_pow2(#[trigger] shape[a] as int)
}

/// `key` lies on the chunk grid: a multiple of the chunk shape on every axis.
pub open spec fn aligned_key(shape: Seq<i32>, key: Seq<i32>) -> bool {
    &&& key.len() == shape.len()
    &&& forall|a: int| 0 <= a < key.len() ==> (#[trigger] key[a] as int) % (shape[a] as int) == 0
}

/// The chunk spans one level up still fit an `i32` on every axis.
pub open spec fn shape_fits(shape: Seq<i32>, delta: nat) -> bool {
    forall|a: int| 0 <= a < shape.len() ==> (#[trigger] shape[a] as int) * pow2(delta) <= i32::MAX
}

/// Destination chunk key on one axis, for shape component `s`, level delta
/// `d` and source key component `k`.
pub open spec fn dest_key_at(s: int, d: nat, k: int) -> int {
    (k / (s * pow2(d))) * s
}

/// Offset within the destination chunk on one axis.
pub open spec fn dest_offset_at(s: int, d: nat, k: int) -> int {
    (k % (s * pow2(d))) / pow2(d) as int
}

/// Destination chunk key, all axes.
pub open spec fn dest_key(shape: Seq<i32>, key: Seq<i32>, d: nat) -> Seq<i32> {
    Seq::new(shape.len(), |a: int| dest_key_at(shape[a] as int, d, key[a] as int) as i32)
}

/// Destination offset, all axes.
pub open spec fn dest_offset(shape: Seq<i32>, key: Seq<i32>, d: nat) -> Seq<i32> {
    Seq::new(shape.len(), |a: int| dest_offset_at(shape[a] as int, d, key[a] as int) as i32)
}

/// A well-formed chunk shape has positive components.
pub proof fn lemma_chunk_shape_dims(shape: Seq<i32>)
    requires
        wf_chunk_shape(shape),
    ensures
        wf_dims(shape),
{
    reveal(is_pow2);
    assert forall|a: int| 0 <= a < shape.len() implies 1 <= #[trigger] shape[a] by {
        assert(is_pow2(shape[a] as int));
    }
}

/// For an aligned key component `k = a * s`, division and remainder by the
/// coarse span `s * 2^d` reduce to division and remainder of `a` by `2^d`.
pub proof fn lemma_aligned_decompose(s: int, d: nat, k: int)
    requires
        1 <= s,
        k % s == 0,
    ensures
        k == s * (k / s),
        k / (s * pow2(d)) == (k / s) / pow2(d) as int,
        k % (s * pow2(d)) == ((k / s) % pow2(d) as int) * s,
{
    lemma_pow2_pos(d);
    let e = pow2(d) as int;
    let a = k / s;
    lemma_fundamental_div_mod(k, s);
    assert(k == s * a);
    lemma_fundamental_div_mod(a, e);
    lemma_mod_division_less_than_divisor(a, e);
    let qq = a / e;
    let rr = a % e;
    assert(k == qq * (s * e) + rr * s) by (nonlinear_arith)
        requires
            k == s * a,
            a == e * qq + rr,
    ;
    assert(0 <= rr * s < s * e) by (nonlinear_arith)
        requires
            0 <= rr < e,
            1 <= s,
    ;
    lemma_fundamental_div_mod_converse(k, s * e, qq, rr * s);
}

/// The destination key component is aligned, and lies between the source key
/// component and zero, so it always fits an `i32`.
pub proof fn lemma_dest_key_at_range(s: int, d: nat, k: int)
    requires
        1 <= s,
        k % s == 0,
    ensures
        dest_key_at(s, d, k) % s == 0,
        k >= 0 ==> 0 <= dest_key_at(s, d, k) <= k,
        k < 0 ==> k <= dest_key_at(s, d, k) <= 0,
{
    lemma_pow2_pos(d);
    let e = pow2(d) as int;
    let a = k / s;
    lemma_aligned_decompose(s, d, k);
    let qq = a / e;
    assert(dest_key_at(s, d, k) == qq * s);
    vstd::arithmetic::div_mod::lemma_mod_multiples_basic(qq, s);
    lemma_div_bounds(k, s);
    lemma_div_bounds(a, e);
    if k >= 0 {
        assert(a >= 0);
        assert(0 <= qq * s <= k) by (nonlinear_arith)
            requires
                0 <= qq <= a,
                1 <= s,
                k == s * a,
        ;
    } else {
        assert(a < 0) by (nonlinear_arith)
            requires
                k == s * a,
                k < 0,
                1 <= s,
        ;
        assert(k <= qq * s <= 0) by (nonlinear_arith)
            requires
                a <= qq <= 0,
                1 <= s,
                k == s * a,
        ;
    }
}

/// The destination offset component addresses a sample of the destination
/// chunk: it lies in `[0, s)`.
pub proof fn lemma_dest_offset_at_range(s: int, d: nat, k: int)
    requires
        1 <= s,
    ensures
        0 <= dest_offset_at(s, d, k) < s,
{
    lemma_pow2_pos(d);
    let e = pow2(d) as int;
    let p = s * e;
    assert(p >= 1) by (nonlinear_arith)
        requires
            p == s * e,
            1 <= s,
            1 <= e,
    ;
    let r = k % p;
    lemma_mod_division_less_than_divisor(k, p);
    lemma_div_bounds(r, e);
    assert(p - 1 == (s - 1) * e + (e - 1)) by (nonlinear_arith)
        requires
            p == s * e,
    ;
    lemma_fundamental_div_mod_converse(p - 1, e, s - 1, e - 1);
    lemma_div_is_ordered(r, p - 1, e);
}

/// Sums of quotients by a common positive divisor are bounded by the
/// quotient of the sum.
pub proof fn lemma_div_superadd(x: int, y: int, c: int)
    requires
        1 <= c,
    ensures
        x / c + y / c <= (x + y) / c,
{
    lemma_hoist_over_denominator(x, y / c, c as nat);
    lemma_fundamental_div_mod(y, c);
    lemma_mod_division_less_than_divisor(y, c);
    assert((y / c) * c <= y) by (nonlinear_arith)
        requires
            y == c * (y / c) + y % c,
            y % c >= 0,
    ;
    lemma_div_is_ordered(x + (y / c) * c, x + y, c);
}

/// The written footprint stays inside the destination chunk: offset plus
/// `s / 2^d` never exceeds the chunk shape component.
pub proof fn lemma_dest_offset_footprint(s: int, d: nat, k: int)
    requires
        1 <= s,
        k % s == 0,
    ensures
        dest_offset_at(s, d, k) + s / pow2(d) as int <= s,
{
    lemma_pow2_pos(d);
    let e = pow2(d) as int;
    let r = k % (s * e);
    lemma_aligned_decompose(s, d, k);
    let rr = (k / s) % e;
    assert(r == rr * s);
    lemma_mod_division_less_than_divisor(k / s, e);
    lemma_div_superadd(r, s, e);
    assert(rr * s + s == (rr + 1) * s) by (nonlinear_arith);
    assert((rr + 1) * s <= e * s) by (nonlinear_arith)
        requires
            rr + 1 <= e,
            1 <= s,
    ;
    lemma_div_is_ordered((rr + 1) * s, e * s, e);
    lemma_div_multiples_vanish(s, e);
}

/// Identity at level delta zero: the destination is the source chunk itself,
/// at offset zero.
pub proof fn lemma_addressing_identity(s: int, k: int)
    requires
        1 <= s,
        k % s == 0,
    ensures
        dest_key_at(s, 0, k) == k,
        dest_offset_at(s, 0, k) == 0,
{
    lemma2_to64();
    assert(pow2(0) == 1);
    lemma_fundamental_div_mod(k, s);
    assert(dest_key_at(s, 0, k) == (k / s) * s);
    assert((k / s) * s == s * (k / s)) by (nonlinear_arith);
    lemma_fundamental_div_mod_converse(0, 1, 0, 0);
}

/// Periodicity of the addressing map: shifting the source key by a whole
/// number of coarse chunk spans `s * 2^d` shifts the destination key by the
/// same number of chunk shapes and leaves the destination offset unchanged.
pub proof fn lemma_addressing_periodic(s: int, d: nat, k: int, j: int)
    requires
        1 <= s,
    ensures
        dest_offset_at(s, d, k + j * (s * pow2(d))) == dest_offset_at(s, d, k),
        dest_key_at(s, d, k + j * (s * pow2(d))) == dest_key_at(s, d, k) + j * s,
{
    lemma_pow2_pos(d);
    let p = s * pow2(d) as int;
    assert(p >= 1) by (nonlinear_arith)
        requires
            p == s * pow2(d),
            1 <= s,
            1 <= pow2(d),
    ;
    assert(p * j + k == k + j * p) by (nonlinear_arith);
    lemma_mod_multiples_vanish(j, k, p);
    assert((k + j * p) % p == k % p);
    lemma_hoist_over_denominator(k, j, p as nat);
    assert((k + j * p) / p == k / p + j);
    assert((k / p + j) * s == (k / p) * s + j * s) by (nonlinear_arith);
}

/// The destination address of one source chunk: the coarse chunk key and the
/// offset of the written footprint inside that coarse chunk.
#[derive(Clone, Debug, PartialEq, Eq)]
pub struct DownsampleDestination {
    pub dst_chunk_key: Point,
    pub dst_offset: Point,
}

impl DownsampleDestination {
    /// Where the samples of the chunk at `src_chunk_key` land when they are
    /// downsampled `lod_delta` levels up the pyramid.
    pub fn for_source_chunk(chunk_shape: &Point, src_chunk_key: &Point, lod_delta: u8) -> (dst:
        DownsampleDestination)
        requires
            wf_chunk_shape(chunk_shape@),
            aligned_key(chunk_shape@, src_chunk_key@),
            shape_fits(chunk_shape@, lod_delta as nat),
        ensures
            dst.dst_chunk_key@ == dest_key(chunk_shape@, src_chunk_key@, lod_delta as nat),
            dst.dst_offset@ == dest_offset(chunk_shape@, src_chunk_key@, lod_delta as nat),
    {
        proof {
            lemma_chunk_shape_dims(chunk_shape@);
        }
        let ghost dd = lod_delta as nat;
        let n = chunk_shape.dim();
        let mut key_coords: Vec<i32> = Vec::new();
        let mut off_coords: Vec<i32> = Vec::new();
        let mut a: usize = 0;
        while a < n
            invariant
                a <= n,
                n == chunk_shape@.len(),
                wf_chunk_shape(chunk_shape@),
                wf_dims(chunk_shape@),
                aligned_key(chunk_shape@, src_chunk_key@),
                shape_fits(chunk_shape@, dd),
                dd == lod_delta as nat,
                key_coords@.len() == a,
                off_coords@.len() == a,
                forall|b: int|
                    0 <= b < a ==> key_coords@[b] == dest_key_at(
                        chunk_shape@[b] as int,
                        dd,
                        src_chunk_key@[b] as int,
                    ),
                forall|b: int|
                    0 <= b < a ==> off_coords@[b] == dest_offset_at(
                        chunk_shape@[b] as int,
                        dd,
                        src_chunk_key@[b] as int,
                    ),
            decreases n - a,
        {
            let s = chunk_shape.get(a);
            let k = src_chunk_key.get(a);
            proof {
                lemma_pow2_pos(dd);
                assert(pow2(dd) <= s * pow2(dd)) by (nonlinear_arith)
                    requires
                        1 <= s,
                        1 <= pow2(dd),
                ;
                lemma_dest_key_at_range(s as int, dd, k as int);
                lemma_dest_offset_at_range(s as int, dd, k as int);
            }
            let p = shl_pow2_i32(s, lod_delta);
            let pd = pow2_i32(lod_delta);
            let q = div_euclid_i32(k, p);
            let r = rem_euclid_i32(k, p);
            proof {
                assert(q == (k as int) / (s as int * pow2(dd)));
                assert(q * s == dest_key_at(s as int, dd, k as int));
            }
            key_coords.push(q * s);
            off_coords.push(div_euclid_i32(r, pd));
            a = a + 1;
        }
        proof {
            assert(key_coords@ =~= dest_key(chunk_shape@, src_chunk_key@, dd));
            assert(off_coords@ =~= dest_offset(chunk_shape@, src_chunk_key@, dd));
        }
        DownsampleDestination {
            dst_chunk_key: Point::new(key_coords),
            dst_offset: Point::new(off_coords),
        }
    }
}

} // verus!
