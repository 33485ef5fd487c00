//! The pyramid of levels and its cross-level downsample operation.

use vstd::prelude::*;

verus! {

use vstd::arithmetic::power2::lemma_pow2_pos;
use vstd::arithmetic::power2::pow2;
use crate::addressing::aligned_key;
use crate::addressing::dest_key;
use crate::addressing::dest_offset;
use crate::addressing::lemma_dest_offset_at_range;
use crate::addressing::lemma_dest_offset_footprint;
use crate::addressing::shape_fits;
use crate::addressing::DownsampleDestination;
use crate::chunk::Chunk;
use crate::chunk_map::ChunkMap;
use crate::chunk_map::ChunkMapBuilder;
use crate::grid::in_box;
use crate::grid::lin;
use crate::grid::valid_coord;
use crate::grid::vol;
use crate::grid::wf_dims;
use crate::math::div_euclid_i32;
use crate::math::lemma_div_bounds;
use crate::math::pow2_i32;
use crate::point::Point;
use crate::sampler::footprint;
use crate::sampler::ChunkDownsampler;
use crate::sampler::PointDownsampler;

/// Why a pyramid operation was rejected.
#[derive(Clone, Copy, Debug, PartialEq, Eq, Structural)]
pub enum PyramidError {
    /// The destination level of detail does not lie above the source level.
    InvalidLevelOrder,
    /// A level-of-detail index beyond the pyramid's levels.
    LevelOutOfBounds,
}

/// A pyramid whose levels are the map-backed stores of this crate; with a
/// single storage backend the name is a plain synonym, kept for callers that
/// choose the backend by name.
pub type ChunkHashMapPyramid<T, M> = ChunkPyramid<T, M>;

/// A set of chunk stores of a common chunk shape, one per level of detail
/// (LOD).  Level 0 is the finest; every following level covers the same
/// space at half the sample density per axis.  There is no enforcement of a
/// particular occupancy: callers typically keep high detail near a point of
/// interest and let it drop with distance.
pub struct ChunkPyramid<T, M> {
    /// The per-level stores, indexed by LOD.
    pub levels: Vec<ChunkMap<T, M>>,
}

impl<T: Copy, M: Copy> ChunkPyramid<T, M> {
    /// The chunk shape shared by every level.
    pub open spec fn chunk_shape_spec(&self) -> Seq<i32> {
        self.levels@[0].chunk_shape@
    }

    /// Every level is a well-formed store and all levels share one shape.
    pub open spec fn wf(&self) -> bool {
        forall|l: int|
            0 <= l < self.levels@.len() ==> (#[trigger] self.levels@[l]).wf()
                && self.levels@[l].chunk_shape@ == self.chunk_shape_spec()
    }

    /// A pyramid of `num_levels` empty stores sharing one configuration.
    pub fn new(builder: &ChunkMapBuilder<T, M>, num_levels: u8) -> (p: ChunkPyramid<T, M>)
        requires
            builder.wf(),
        ensures
            p.wf(),
            p.levels@.len() == num_levels as int,
            forall|l: int|
                0 <= l < num_levels as int ==> (#[trigger] p.levels@[l]).chunk_shape@
                    == builder.chunk_shape@ && p.levels@[l].ambient_value == builder.ambient_value
                    && p.levels@[l].default_meta == builder.default_meta && p.levels@[l].contents()
                    == Map::<Seq<i32>, Chunk<T, M>>::empty(),
    {
        let mut levels: Vec<ChunkMap<T, M>> = Vec::new();
        let n = num_levels as usize;
        let mut l: usize = 0;
        while l < n
            invariant
                l <= n,
                builder.wf(),
                levels@.len() == l,
                forall|k: int|
                    0 <= k < l ==> (#[trigger] levels@[k]).wf() && levels@[k].chunk_shape@
                        == builder.chunk_shape@ && levels@[k].ambient_value
                        == builder.ambient_value && levels@[k].default_meta == builder.default_meta
                        && levels@[k].contents() == Map::<Seq<i32>, Chunk<T, M>>::empty(),
            decreases n - l,
        {
            levels.push(builder.build());
            l = l + 1;
        }
        ChunkPyramid { levels }
    }

    /// Number of levels of detail.
    pub fn num_levels(&self) -> (n: usize)
        ensures
            n == self.levels@.len(),
    {
        self.levels.len()
    }

    /// All per-level stores, finest first.
    pub fn levels_slice(&self) -> (r: &[ChunkMap<T, M>])
        ensures
            r@ == self.levels@,
    {
        self.levels.as_slice()
    }

    /// The store for the given LOD, if the index is in range.
    pub fn level(&self, lod: u8) -> (r: Option<&ChunkMap<T, M>>)
        ensures
            match r {
                Some(m) => (lod as int) < self.levels@.len() && *m == self.levels@[lod as int],
                None => (lod as int) >= self.levels@.len(),
            },
    {
        if (lod as usize) < self.levels.len() {
            Some(&self.levels[lod as usize])
        } else {
            None
        }
    }

    /// Mutable access to the store for the given LOD.  Callers check the
    /// index against [`Self::num_levels`] first; they may then read and
    /// write chunks directly, bypassing downsampling.
    pub fn level_mut(&mut self, lod: u8) -> (r: &mut ChunkMap<T, M>)
        requires
            (lod as int) < old(self).levels@.len(),
        ensures
            *r == old(self).levels@[lod as int],
            final(self).levels@ == old(self).levels@.update(lod as int, *final(r)),
    {
        &mut self.levels[lod as usize]
    }

    /// What a completed downsample did to the pyramid: only the destination
    /// level changed, and there only the destination chunk, whose footprint
    /// holds the downsampled image of the source chunk — or the source
    /// level's ambient value where no source chunk existed — while every
    /// sample outside the footprint kept its previous value (the ambient
    /// value of the destination store where the chunk is newly created).
    pub open spec fn downsample_effect<S: ChunkDownsampler<T>>(
        pre: ChunkPyramid<T, M>,
        post: ChunkPyramid<T, M>,
        sampler: S,
        key: Seq<i32>,
        src_lod: int,
        dst_lod: int,
    ) -> bool {
        let delta = (dst_lod - src_lod) as nat;
        let shape = pre.chunk_shape_spec();
        let src_level = pre.levels@[src_lod];
        let dst_level = pre.levels@[dst_lod];
        let dkey = dest_key(shape, key, delta);
        let doff = dest_offset(shape, key, delta);
        let fp = footprint(shape, delta);
        let old_data = if dst_level.has_chunk(dkey) {
            dst_level.contents()[dkey].data@
        } else {
            Seq::new(vol(shape) as nat, |i: int| dst_level.ambient_value)
        };
        let old_meta = if dst_level.has_chunk(dkey) {
            dst_level.contents()[dkey].meta
        } else {
            dst_level.default_meta
        };
        let new_chunk = post.levels@[dst_lod].contents()[dkey];
        &&& post.levels@.len() == pre.levels@.len()
        &&& forall|l: int|
            0 <= l < pre.levels@.len() && l != dst_lod ==> post.levels@[l] == #[trigger] pre.levels@[l]
        &&& post.levels@[dst_lod].chunk_shape@ == dst_level.chunk_shape@
        &&& post.levels@[dst_lod].ambient_value == dst_level.ambient_value
        &&& post.levels@[dst_lod].default_meta == dst_level.default_meta
        &&& post.levels@[dst_lod].contents() == dst_level.contents().insert(dkey, new_chunk)
        &&& new_chunk.wf()
        &&& new_chunk.shape@ == shape
        &&& new_chunk.meta == old_meta
        &&& new_chunk.data@.len() == old_data.len()
        &&& forall|c: Seq<i32>|
            valid_coord(shape, c) && !in_box(doff, fp, c) ==> #[trigger] new_chunk.sample(c)
                == old_data[lin(shape, c)]
        &&& if src_level.has_chunk(key) {
            forall|c: Seq<i32>|
                valid_coord(shape, c) && in_box(doff, fp, c) ==> #[trigger] new_chunk.sample(c)
                    == sampler.sample_value(src_level.contents()[key].data@, shape, doff, delta, c)
        } else {
            forall|c: Seq<i32>|
                valid_coord(shape, c) && in_box(doff, fp, c) ==> #[trigger] new_chunk.sample(c)
                    == src_level.ambient_value
        }
    }

    /// If a chunk exists at `key` in the source level filled uniformly with
    /// `v`, then after a completed downsample with the low-corner reducer
    /// the destination footprint reads back as `v` everywhere.
    pub proof fn lemma_uniform_downsample_reads_back(
        pre: ChunkPyramid<T, M>,
        post: ChunkPyramid<T, M>,
        key: Seq<i32>,
        src_lod: int,
        dst_lod: int,
        v: T,
        c: Seq<i32>,
    )
        requires
            pre.wf(),
            0 <= src_lod < dst_lod < pre.levels@.len(),
            ChunkPyramid::downsample_effect(pre, post, PointDownsampler, key, src_lod, dst_lod),
            pre.levels@[src_lod].has_chunk(key),
            forall|i: int|
                0 <= i < pre.levels@[src_lod].contents()[key].data@.len()
                    ==> pre.levels@[src_lod].contents()[key].data@[i] == v,
            valid_coord(pre.chunk_shape_spec(), c),
            in_box(
                dest_offset(pre.chunk_shape_spec(), key, (dst_lod - src_lod) as nat),
                footprint(pre.chunk_shape_spec(), (dst_lod - src_lod) as nat),
                c,
            ),
        ensures
            post.levels@[dst_lod].contents()[dest_key(
                pre.chunk_shape_spec(),
                key,
                (dst_lod - src_lod) as nat,
            )].sample(c) == v,
    {
        let delta = (dst_lod - src_lod) as nat;
        let shape = pre.chunk_shape_spec();
        let doff = dest_offset(shape, key, delta);
        let src_level = pre.levels@[src_lod];
        src_level.lemma_chunk_wf(key);
        assert forall|a: int| 0 <= a < doff.len() implies 0 <= #[trigger] doff[a] by {
            lemma_dest_offset_at_range(shape[a] as int, delta, key[a] as int);
        }
        crate::sampler::lemma_point_downsampler_uniform(
            PointDownsampler,
            src_level.contents()[key].data@,
            shape,
            doff,
            delta,
            c,
            v,
        );
    }

    /// Propagate the chunk at `src_chunk_key` from `src_lod` up to
    /// `dst_lod`.  The destination chunk is created filled with the
    /// destination store's ambient value if absent.  If the source chunk
    /// exists, the sampler writes its downsampled image into the footprint
    /// at the computed offset; otherwise the footprint — the chunk shape
    /// shrunk by `2^delta`, so it scales with the level delta — is filled
    /// with the *source* store's ambient value.  Rejected calls mutate
    /// nothing.
    pub fn downsample_chunk<S: ChunkDownsampler<T>>(
        &mut self,
        sampler: &S,
        src_chunk_key: &Point,
        src_lod: u8,
        dst_lod: u8,
    ) -> (r: Result<(), PyramidError>)
        requires
            old(self).wf(),
            src_lod < dst_lod && (dst_lod as int) < old(self).levels@.len() ==> aligned_key(
                old(self).chunk_shape_spec(),
                src_chunk_key@,
            ) && shape_fits(old(self).chunk_shape_spec(), (dst_lod - src_lod) as nat),
        ensures
            dst_lod <= src_lod ==> r == Err::<(), PyramidError>(PyramidError::InvalidLevelOrder)
                && *final(self) == *old(self),
            src_lod < dst_lod && (dst_lod as int) >= old(self).levels@.len() ==> r == Err::<
                (),
                PyramidError,
            >(PyramidError::LevelOutOfBounds) && *final(self) == *old(self),
            src_lod < dst_lod && (dst_lod as int) < old(self).levels@.len() ==> r == Ok::<
                (),
                PyramidError,
            >(()) && final(self).wf() && ChunkPyramid::downsample_effect(
                *old(self),
                *final(self),
                *sampler,
                src_chunk_key@,
                src_lod as int,
                dst_lod as int,
            ),
    {
        if dst_lod <= src_lod {
            return Err(PyramidError::InvalidLevelOrder);
        }
        if (dst_lod as usize) >= self.levels.len() {
            return Err(PyramidError::LevelOutOfBounds);
        }
        let lod_delta = dst_lod - src_lod;
        let ghost dd = lod_delta as nat;
        let ghost shape = self.chunk_shape_spec();
        let src_idx = src_lod as usize;

        // Read everything needed from the source level; the destination
        // level is borrowed mutably only afterwards, so the two levels can
        // never alias.
        let src_level = &self.levels[src_idx];
        let chunk_shape = src_level.chunk_shape().duplicate();
        let src_ambient = src_level.ambient_value();
        let src_chunk_copy: Option<Chunk<T, M>> = match src_level.get_chunk(src_chunk_key) {
            Some(c) => Some(c.duplicate()),
            None => None,
        };
        proof {
            assert(src_level.wf());
            assert(chunk_shape@ == shape);
            if src_chunk_copy is Some {
                src_level.lemma_chunk_wf(src_chunk_key@);
            }
        }

        let dst = DownsampleDestination::for_source_chunk(&chunk_shape, src_chunk_key, lod_delta);
        let ghost doff = dest_offset(shape, src_chunk_key@, dd);
        let ghost dkey = dest_key(shape, src_chunk_key@, dd);
        proof {
            lemma_pow2_pos(dd);
            assert forall|a: int| 0 <= a < shape.len() implies 0 <= #[trigger] doff[a]
                && doff[a] as int + footprint(shape, dd)[a] <= shape[a] && footprint(shape, dd)[a]
                >= 0 by {
                let s = shape[a] as int;
                let k = src_chunk_key@[a] as int;
                lemma_dest_offset_at_range(s, dd, k);
                lemma_dest_offset_footprint(s, dd, k);
                lemma_div_bounds(s, pow2(dd) as int);
            }
            assert(dkey.len() == shape.len());
        }

        let ghost lvl0 = old(self).levels@[dst_lod as int];
        proof {
            assert(lvl0.wf());
        }
        let dst_level = self.level_mut(dst_lod);
        let ghost had_dst = lvl0.has_chunk(dkey);
        let mut chunk: Chunk<T, M> = dst_level.take_chunk_or_ambient(&dst.dst_chunk_key);
        let ghost lvl1 = *dst_level;
        let ghost chunk0 = chunk;
        match src_chunk_copy {
            Some(src_chunk) => {
                sampler.downsample(&src_chunk, &mut chunk, &dst.dst_offset, lod_delta);
            },
            None => {
                let nax = chunk_shape.dim();
                proof {
                    lemma_pow2_pos(dd);
                    assert(pow2(dd) <= shape[0] as int * pow2(dd)) by (nonlinear_arith)
                        requires
                            1 <= shape[0] as int,
                            1 <= pow2(dd),
                    ;
                    assert(shape[0] as int * pow2(dd) <= i32::MAX);
                }
                let pd = pow2_i32(lod_delta);
                let mut ext_coords: Vec<i32> = Vec::new();
                let mut a: usize = 0;
                while a < nax
                    invariant
                        a <= nax,
                        nax == shape.len(),
                        chunk_shape@ == shape,
                        wf_dims(shape),
                        pd == pow2(dd),
                        pd >= 1,
                        ext_coords@.len() == a,
                        forall|b: int| 0 <= b < a ==> ext_coords@[b] == footprint(shape, dd)[b],
                    decreases nax - a,
                {
                    proof {
                        lemma_div_bounds(shape[a as int] as int, pow2(dd) as int);
                    }
                    ext_coords.push(div_euclid_i32(chunk_shape.get(a), pd));
                    a = a + 1;
                }
                let ext = Point::new(ext_coords);
                proof {
                    assert(ext@ =~= footprint(shape, dd));
                }
                chunk.fill_extent(&dst.dst_offset, &ext, src_ambient);
            },
        }
        let ghost chunk1 = chunk;
        proof {
            assert(chunk1.wf());
            assert(chunk1.shape@ == shape);
            assert(lvl1.wf());
            assert(lvl1.chunk_shape@ == shape);
        }
        dst_level.write_chunk(&dst.dst_chunk_key, chunk);
        let ghost lvl2 = *dst_level;
        proof {
            assert(self.levels@ == old(self).levels@.update(dst_lod as int, lvl2));
            assert(lvl2.contents() =~= lvl0.contents().insert(dkey, chunk1));
            assert(self.levels@[dst_lod as int] == lvl2);
            assert forall|l: int|
                0 <= l < old(self).levels@.len() && l != dst_lod as int implies self.levels@[l]
                == #[trigger] old(self).levels@[l] by {}
            assert(self.wf()) by {
                assert(self.chunk_shape_spec() == old(self).chunk_shape_spec());
            }
            if had_dst {
                assert(chunk0 == lvl0.contents()[dkey]);
            } else {
                assert(chunk0.data@ =~= Seq::new(vol(shape) as nat, |i: int| lvl0.ambient_value));
            }
            assert(ChunkPyramid::downsample_effect(
                *old(self),
                *self,
                *sampler,
                src_chunk_key@,
                src_lod as int,
                dst_lod as int,
            ));
        }
        Ok(())
    }
}

} // verus!
