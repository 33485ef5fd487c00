//! The sampling capability: how fine samples reduce to coarse samples.
//!
//! A downsampler consumes a source chunk and writes one coarse sample for
//! every `2^delta`-per-axis block of fine samples, anchored at a given offset
//! of the destination chunk.  The aggregation rule is the implementor's
//! choice; the trait contract fixes the footprint that may be written and
//! requires every other destination sample to be preserved.

use vstd::prelude::*;

verus! {

use vstd::arithmetic::div_mod::lemma_fundamental_div_mod;
use vstd::arithmetic::div_mod::lemma_mod_division_less_than_divisor;
use vstd::arithmetic::power2::lemma_pow2_pos;
use vstd::arithmetic::power2::pow2;
use crate::addressing::shape_fits;
use crate::chunk::box_contains;
use crate::chunk::Chunk;
use crate::grid::coord_of_index;
use crate::grid::in_box;
use crate::grid::lemma_lin_bounds;
use crate::grid::lemma_lin_injective;
use crate::grid::lin;
use crate::grid::lin_of;
use crate::grid::valid_coord;
use crate::grid::vol;
use crate::grid::wf_dims;
use crate::math::div_euclid_i32;
use crate::math::lemma_div_bounds;
use crate::math::pow2_i32;
use crate::point::Point;

/// Extent of the written footprint: the chunk shape divided by `2^delta` on
/// every axis.
pub open spec fn footprint(shape: Seq<i32>, delta: nat) -> Seq<i32> {
    Seq::new(shape.len(), |a: int| (shape[a] as int / pow2(delta) as int) as i32)
}

/// The fine coordinate at the low corner of the block of source samples that
/// reduces to destination coordinate `c`: `(c - offset) * 2^delta` per axis.
pub open spec fn source_corner(offset: Seq<i32>, delta: nat, c: Seq<i32>) -> Seq<i32> {
    Seq::new(c.len(), |a: int| ((c[a] - offset[a]) * pow2(delta)) as i32)
}

/// The footprint extent is a valid sub-extent of the chunk: non-negative and,
/// together with a non-negative anchor that leaves room for it, within the
/// shape.
pub proof fn lemma_footprint_bounds(shape: Seq<i32>, delta: nat)
    requires
        wf_dims(shape),
    ensures
        forall|a: int|
            0 <= a < shape.len() ==> 0 <= #[trigger] footprint(shape, delta)[a] <= shape[a],
{
    lemma_pow2_pos(delta);
    let e = pow2(delta) as int;
    assert forall|a: int|
        0 <= a < shape.len() implies 0 <= #[trigger] footprint(shape, delta)[a] <= shape[a] by {
        lemma_div_bounds(shape[a] as int, e);
    }
}

/// For a destination coordinate in the footprint box, the source corner is a
/// valid coordinate of the (same-shape) source chunk, and the cast in
/// [`source_corner`] does not truncate.
pub proof fn lemma_source_corner_valid(shape: Seq<i32>, offset: Seq<i32>, delta: nat, c: Seq<i32>)
    requires
        wf_dims(shape),
        offset.len() == shape.len(),
        forall|a: int| 0 <= a < offset.len() ==> 0 <= #[trigger] offset[a],
        valid_coord(shape, c),
        in_box(offset, footprint(shape, delta), c),
    ensures
        valid_coord(shape, source_corner(offset, delta, c)),
        forall|a: int|
            0 <= a < c.len() ==> #[trigger] source_corner(offset, delta, c)[a] == (c[a] - offset[a])
                * pow2(delta),
{
    lemma_pow2_pos(delta);
    let e = pow2(delta) as int;
    assert forall|a: int|
        0 <= a < c.len() implies 0 <= (c[a] - offset[a]) * e < shape[a] && #[trigger] source_corner(
        offset,
        delta,
        c,
    )[a] == (c[a] - offset[a]) * e by {
        let s = shape[a] as int;
        let fp = s / e;
        assert(c[a] - offset[a] < fp);
        lemma_fundamental_div_mod(s, e);
        lemma_mod_division_less_than_divisor(s, e);
        assert(fp * e <= s) by (nonlinear_arith)
            requires
                s == e * fp + s % e,
                s % e >= 0,
        ;
        assert(0 <= (c[a] - offset[a]) * e && (c[a] - offset[a]) * e <= fp * e - e)
            by (nonlinear_arith)
            requires
                0 <= c[a] - offset[a],
                c[a] - offset[a] <= fp - 1,
                1 <= e,
        ;
    }
}

/// The sampling capability consumed by the pyramid's downsample operation.
pub trait ChunkDownsampler<T: Copy> {
    /// The value this sampler writes at destination coordinate `c`, as a
    /// function of the source samples, the common chunk shape, the
    /// destination offset and the level delta.
    spec fn sample_value(
        &self,
        src: Seq<T>,
        shape: Seq<i32>,
        offset: Seq<i32>,
        delta: nat,
        c: Seq<i32>,
    ) -> T;

    /// Write the downsampled image of `src` into `dst`, anchored at
    /// `offset`, reducing `2^lod_delta` fine samples per axis to one coarse
    /// sample.  Only the footprint of extent `shape / 2^lod_delta` starting
    /// at `offset` is written; every other destination sample is preserved.
    fn downsample<M>(&self, src: &Chunk<T, M>, dst: &mut Chunk<T, M>, offset: &Point, lod_delta: u8)
        requires
            src.wf(),
            old(dst).wf(),
            src.shape@ == old(dst).shape@,
            shape_fits(old(dst).shape@, lod_delta as nat),
            offset@.len() == old(dst).shape@.len(),
            forall|a: int| 0 <= a < offset@.len() ==> 0 <= #[trigger] offset@[a],
            forall|a: int|
                0 <= a < offset@.len() ==> #[trigger] offset@[a] + footprint(
                    old(dst).shape@,
                    lod_delta as nat,
                )[a] <= old(dst).shape@[a],
        ensures
            final(dst).wf(),
            final(dst).shape@ == old(dst).shape@,
            final(dst).meta == old(dst).meta,
            final(dst).data@.len() == old(dst).data@.len(),
            forall|c: Seq<i32>|
                valid_coord(old(dst).shape@, c) && in_box(
                    offset@,
                    footprint(old(dst).shape@, lod_delta as nat),
                    c,
                ) ==> final(dst).sample(c) == self.sample_value(
                    src.data@,
                    old(dst).shape@,
                    offset@,
                    lod_delta as nat,
                    c,
                ),
            forall|c: Seq<i32>|
                valid_coord(old(dst).shape@, c) && !in_box(
                    offset@,
                    footprint(old(dst).shape@, lod_delta as nat),
                    c,
                ) ==> final(dst).sample(c) == old(dst).sample(c),
    ;
}

/// Downsamples by keeping the sample at the low corner of each block of fine
/// samples: a nearest-neighbour reducer.
pub struct PointDownsampler;

impl<T: Copy> ChunkDownsampler<T> for PointDownsampler {
    open spec fn sample_value(
        &self,
        src: Seq<T>,
        shape: Seq<i32>,
        offset: Seq<i32>,
        delta: nat,
        c: Seq<i32>,
    ) -> T {
        src[lin(shape, source_corner(offset, delta, c))]
    }

    fn downsample<M>(
        &self,
        src: &Chunk<T, M>,
        dst: &mut Chunk<T, M>,
        offset: &Point,
        lod_delta: u8,
    ) {
        let ghost shape = dst.shape@;
        let ghost olddata = dst.data@;
        let ghost dd = lod_delta as nat;
        proof {
            lemma_pow2_pos(dd);
            lemma_footprint_bounds(shape, dd);
            if shape.len() > 0 {
                assert(pow2(dd) <= shape[0] as int * pow2(dd)) by (nonlinear_arith)
                    requires
                        1 <= shape[0],
                        1 <= pow2(dd),
                ;
                assert(shape[0] as int * pow2(dd) <= i32::MAX);
            }
        }
        let pd = if dst.shape.coords.len() > 0 {
            pow2_i32(lod_delta)
        } else {
            1
        };
        proof {
            assert(shape.len() > 0 ==> pd == pow2(dd));
        }
        let nax = dst.shape.coords.len();
        let mut ext_coords: Vec<i32> = Vec::new();
        let mut a: usize = 0;
        while a < nax
            invariant
                a <= nax,
                nax == shape.len(),
                dst.shape@ == shape,
                wf_dims(shape),
                pd >= 1,
                nax > 0 ==> pd == pow2(dd),
                ext_coords@.len() == a,
                forall|b: int| 0 <= b < a ==> ext_coords@[b] == footprint(shape, dd)[b],
            decreases nax - a,
        {
            proof {
                lemma_pow2_pos(dd);
                lemma_div_bounds(shape[a as int] as int, pow2(dd) as int);
            }
            let f = div_euclid_i32(dst.shape.get(a), pd);
            ext_coords.push(f);
            a = a + 1;
        }
        let ext = Point::new(ext_coords);
        proof {
            assert(ext@ =~= footprint(shape, dd));
        }
        let n = dst.data.len();
        let mut data: Vec<T> = Vec::new();
        let mut i: usize = 0;
        while i < n
            invariant
                i <= n,
                n == vol(shape),
                n == dst.data@.len(),
                dst.shape@ == shape,
                dst.data@ == olddata,
                src.wf(),
                src.shape@ == shape,
                wf_dims(shape),
                vol(shape) <= usize::MAX,
                dd == lod_delta as nat,
                nax == shape.len(),
                pd >= 1,
                nax > 0 ==> pd == pow2(dd),
                ext@ == footprint(shape, dd),
                offset@.len() == shape.len(),
                forall|b: int| 0 <= b < offset@.len() ==> 0 <= #[trigger] offset@[b],
                data@.len() == i,
                forall|q: Seq<i32>|
                    valid_coord(shape, q) && 0 <= lin(shape, q) < i ==> data@[lin(shape, q)] == (
                    if in_box(offset@, footprint(shape, dd), q) {
                        src.data@[lin(shape, source_corner(offset@, dd, q))]
                    } else {
                        olddata[lin(shape, q)]
                    }),
            decreases n - i,
        {
            let c = coord_of_index(dst.shape.coords.as_slice(), i);
            proof {
                lemma_footprint_bounds(shape, dd);
            }
            let inside = box_contains(offset, &ext, c.as_slice());
            if inside {
                proof {
                    lemma_source_corner_valid(shape, offset@, dd, c@);
                }
                let mut corner: Vec<i32> = Vec::new();
                let mut b: usize = 0;
                while b < nax
                    invariant
                        b <= nax,
                        nax == shape.len(),
                        pd >= 1,
                        nax > 0 ==> pd == pow2(dd),
                        c@.len() == nax,
                        offset@.len() == nax,
                        valid_coord(shape, source_corner(offset@, dd, c@)),
                        forall|x: int|
                            0 <= x < nax ==> #[trigger] source_corner(offset@, dd, c@)[x] == (c@[x]
                                - offset@[x]) * pow2(dd),
                        wf_dims(shape),
                        corner@.len() == b,
                        forall|x: int|
                            0 <= x < b ==> corner@[x] == source_corner(offset@, dd, c@)[x],
                    decreases nax - b,
                {
                    proof {
                        lemma_pow2_pos(dd);
                        let diff = c@[b as int] - offset@[b as int];
                        let e = pow2(dd) as int;
                        assert(source_corner(offset@, dd, c@)[b as int] == diff * e);
                        assert(0 <= diff * e < shape[b as int]);
                        assert(0 <= diff) by (nonlinear_arith)
                            requires
                                0 <= diff * e,
                                1 <= e,
                        ;
                        assert(diff <= diff * e) by (nonlinear_arith)
                            requires
                                0 <= diff,
                                1 <= e,
                        ;
                    }
                    let comp = (c[b] - offset.get(b)) * pd;
                    corner.push(comp);
                    b = b + 1;
                }
                proof {
                    assert(corner@ =~= source_corner(offset@, dd, c@));
                    lemma_lin_bounds(shape, corner@);
                }
                let j = lin_of(src.shape.coords.as_slice(), corner.as_slice());
                data.push(src.data[j]);
            } else {
                data.push(dst.data[i]);
            }
            proof {
                assert forall|q: Seq<i32>|
                    valid_coord(shape, q) && 0 <= lin(shape, q) < i + 1 implies data@[lin(
                    shape,
                    q,
                )] == (
                if in_box(offset@, footprint(shape, dd), q) {
                    src.data@[lin(shape, source_corner(offset@, dd, q))]
                } else {
                    olddata[lin(shape, q)]
                }) by {
                    lemma_lin_bounds(shape, q);
                    if lin(shape, q) == i {
                        lemma_lin_injective(shape, q, c@);
                    }
                }
            }
            i = i + 1;
        }
        dst.data = data;
        proof {
            assert forall|q: Seq<i32>| valid_coord(shape, q) implies final(dst).sample(q) == (
            if in_box(offset@, footprint(shape, dd), q) {
                self.sample_value(src.data@, shape, offset@, dd, q)
            } else {
                old(dst).sample(q)
            }) by {
                lemma_lin_bounds(shape, q);
            }
        }
    }
}

/// A source chunk filled uniformly with `v` reads back as `v` at every
/// footprint sample written by the low-corner reducer, whatever the offset
/// and the level delta.
pub proof fn lemma_point_downsampler_uniform<T: Copy>(
    samp: PointDownsampler,
    src: Seq<T>,
    shape: Seq<i32>,
    offset: Seq<i32>,
    delta: nat,
    c: Seq<i32>,
    v: T,
)
    requires
        wf_dims(shape),
        src.len() == vol(shape),
        offset.len() == shape.len(),
        forall|a: int| 0 <= a < offset.len() ==> 0 <= #[trigger] offset[a],
        valid_coord(shape, c),
        in_box(offset, footprint(shape, delta), c),
        forall|i: int| 0 <= i < src.len() ==> src[i] == v,
    ensures
        ChunkDownsampler::<T>::sample_value(&samp, src, shape, offset, delta, c) == v,
{
    lemma_source_corner_valid(shape, offset, delta, c);
    lemma_lin_bounds(shape, source_corner(offset, delta, c));
}

} // verus!
