//! Per-level chunk storage: a key-addressable store of chunks.
//!
//! The store's contents are modelled as a map from chunk key to chunk; the
//! backing vector keeps one entry per key.  Chunks are created lazily: a
//! lookup never allocates, and the ambient value stands in for every sample
//! that was never written.

use vstd::prelude::*;

verus! {

use vstd::arithmetic::power2::is_pow2;
use crate::addressing::wf_chunk_shape;
use crate::chunk::Chunk;
use crate::grid::valid_coord;
use crate::grid::vol;
use crate::grid::wf_dims;
use crate::point::Point;

/// Per-chunk configuration shared by every level of a pyramid: the chunk
/// shape, the ambient value denoting "no data", and the metadata given to
/// chunks that a store creates itself.
pub struct ChunkMapBuilder<T, M> {
    pub chunk_shape: Point,
    pub ambient_value: T,
    pub default_meta: M,
}

impl<T: Copy, M: Copy> ChunkMapBuilder<T, M> {
    /// The configuration describes storable chunks: a power-of-two shape
    /// whose volume fits in memory.
    pub open spec fn wf(&self) -> bool {
        &&& wf_chunk_shape(self.chunk_shape@)
        &&& wf_dims(self.chunk_shape@)
        &&& vol(self.chunk_shape@) <= usize::MAX
    }

    /// Validate a per-chunk configuration.  Rejected exactly when some shape
    /// component is not a positive power of two or the chunk volume
    /// overflows the address space.
    pub fn new(chunk_shape: Point, ambient_value: T, default_meta: M) -> (r: Option<
        ChunkMapBuilder<T, M>,
    >)
        ensures
            r matches Some(b) ==> b.wf() && b.chunk_shape@ == chunk_shape@ && b.ambient_value
                == ambient_value && b.default_meta == default_meta,
            r is None ==> !(wf_chunk_shape(chunk_shape@) && vol(chunk_shape@) <= usize::MAX),
    {
        let n = chunk_shape.dim();
        if n == 0 {
            return None;
        }
        let mut a: usize = 0;
        while a < n
            invariant
                a <= n,
                n == chunk_shape@.len(),
                forall|b: int| 0 <= b < a ==> is_pow2(#[trigger] chunk_shape@[b] as int),
            decreases n - a,
        {
            if !is_pow2_i32(chunk_shape.get(a)) {
                return None;
            }
            a = a + 1;
        }
        proof {
            crate::addressing::lemma_chunk_shape_dims(chunk_shape@);
        }
        match checked_vol(chunk_shape.coords.as_slice()) {
            Some(_) => Some(ChunkMapBuilder { chunk_shape, ambient_value, default_meta }),
            None => None,
        }
    }

    /// Build an empty store with this configuration.
    pub fn build(&self) -> (m: ChunkMap<T, M>)
        requires
            self.wf(),
        ensures
            m.wf(),
            m.chunk_shape@ == self.chunk_shape@,
            m.ambient_value == self.ambient_value,
            m.default_meta == self.default_meta,
            m.contents() == Map::<Seq<i32>, Chunk<T, M>>::empty(),
    {
        let m = ChunkMap {
            chunk_shape: self.chunk_shape.duplicate(),
            ambient_value: self.ambient_value,
            default_meta: self.default_meta,
            chunks: Vec::new(),
        };
        proof {
            assert(m.contents() =~= Map::<Seq<i32>, Chunk<T, M>>::empty());
        }
        m
    }
}

/// Whether `x` is a positive power of two.
pub fn is_pow2_i32(x: i32) -> (r: bool)
    ensures
        r <==> is_pow2(x as int),
{
    proof {
        reveal(is_pow2);
    }
    if x < 1 {
        return false;
    }
    let mut y: u32 = x as u32;
    while y > 1
        invariant
            1 <= y <= x,
            is_pow2(x as int) <==> is_pow2(y as int),
        decreases y,
    {
        proof {
            reveal(is_pow2);
        }
        if y % 2 == 1 {
            return false;
        }
        y = y / 2;
    }
    proof {
        reveal(is_pow2);
    }
    true
}

/// The volume of a shape, or nothing if it does not fit a `usize`.
pub fn checked_vol(shape: &[i32]) -> (r: Option<usize>)
    requires
        wf_dims(shape@),
    ensures
        r matches Some(v) ==> v == vol(shape@),
        r is None ==> vol(shape@) > usize::MAX,
    decreases shape@.len(),
{
    if shape.len() == 0 {
        Some(1)
    } else {
        let tail = &shape[1..shape.len()];
        proof {
            assert(tail@ =~= shape@.skip(1));
            assert(wf_dims(tail@));
            crate::grid::lemma_vol_pos(tail@);
            assert(vol(tail@) <= shape@[0] * vol(tail@)) by (nonlinear_arith)
                requires
                    shape@[0] >= 1,
                    vol(tail@) >= 1,
            ;
        }
        match checked_vol(tail) {
            None => None,
            Some(v) => {
                let r = (shape[0] as usize).checked_mul(v);
                proof {
                    assert(shape@[0] * vol(tail@) == vol(shape@));
                }
                r
            },
        }
    }
}

/// A key-addressable store of chunks for one pyramid level.
pub struct ChunkMap<T, M> {
    /// Shape shared by every chunk of the store.
    pub chunk_shape: Point,
    /// The value that stands for "no data".
    pub ambient_value: T,
    /// Metadata given to chunks the store creates itself.
    pub default_meta: M,
    /// The stored chunks, one entry per key.
    pub chunks: Vec<(Point, Chunk<T, M>)>,
}

impl<T: Copy, M: Copy> ChunkMap<T, M> {
    /// Number of axes of the store's grid.
    pub open spec fn dim(&self) -> int {
        self.chunk_shape@.len() as int
    }

    /// Well-formed store: a valid shape, every entry's chunk of that shape,
    /// and no two entries with the same key.
    pub open spec fn wf(&self) -> bool {
        &&& wf_chunk_shape(self.chunk_shape@)
        &&& wf_dims(self.chunk_shape@)
        &&& vol(self.chunk_shape@) <= usize::MAX
        &&& forall|i: int|
            0 <= i < self.chunks@.len() ==> (#[trigger] self.chunks@[i].0@).len() == self.dim()
        &&& forall|i: int|
            0 <= i < self.chunks@.len() ==> (#[trigger] self.chunks@[i].1).wf()
                && self.chunks@[i].1.shape@ == self.chunk_shape@
        &&& forall|i: int, j: int|
            0 <= i < j < self.chunks@.len() ==> (#[trigger] self.chunks@[i].0@) != (
            #[trigger] self.chunks@[j].0@)
    }

    /// Whether a chunk is stored at `key`.
    pub open spec fn has_chunk(&self, key: Seq<i32>) -> bool {
        exists|i: int| 0 <= i < self.chunks@.len() && (#[trigger] self.chunks@[i].0@) == key
    }

    /// The chunk stored at `key`.
    pub open spec fn chunk_at(&self, key: Seq<i32>) -> Chunk<T, M> {
        self.chunks@[choose|i: int|
            0 <= i < self.chunks@.len() && (#[trigger] self.chunks@[i].0@) == key].1
    }

    /// The store's contents: a map from chunk key to stored chunk.
    pub open spec fn contents(&self) -> Map<Seq<i32>, Chunk<T, M>> {
        Map::new(|k: Seq<i32>| self.has_chunk(k), |k: Seq<i32>| self.chunk_at(k))
    }

    /// The entry at vector index `i` is the one `contents` maps its key to.
    pub proof fn lemma_entry(&self, i: int)
        requires
            self.wf(),
            0 <= i < self.chunks@.len(),
        ensures
            self.has_chunk(self.chunks@[i].0@),
            self.contents()[self.chunks@[i].0@] == self.chunks@[i].1,
    {
        let key = self.chunks@[i].0@;
        assert(self.has_chunk(key));
        let j = choose|j: int|
            0 <= j < self.chunks@.len() && (#[trigger] self.chunks@[j].0@) == key;
        if i < j {
            assert(self.chunks@[i].0@ != self.chunks@[j].0@);
        }
        if j < i {
            assert(self.chunks@[j].0@ != self.chunks@[i].0@);
        }
    }

    /// A stored chunk is well-formed and of the store's shape.
    pub proof fn lemma_chunk_wf(&self, key: Seq<i32>)
        requires
            self.wf(),
            self.has_chunk(key),
        ensures
            self.contents()[key].wf(),
            self.contents()[key].shape@ == self.chunk_shape@,
    {
        let i = choose|i: int|
            0 <= i < self.chunks@.len() && (#[trigger] self.chunks@[i].0@) == key;
        assert(self.chunks@[i].1.wf());
        self.lemma_entry(i);
    }

    /// Index of the entry holding `key`, if any.
    fn find_index(&self, key: &Point) -> (r: Option<usize>)
        ensures
            r matches Some(i) ==> i < self.chunks@.len() && self.chunks@[i as int].0@ == key@,
            r is None ==> !self.has_chunk(key@),
    {
        let n = self.chunks.len();
        let mut i: usize = 0;
        while i < n
            invariant
                i <= n,
                n == self.chunks@.len(),
                forall|j: int| 0 <= j < i ==> (#[trigger] self.chunks@[j].0@) != key@,
            decreases n - i,
        {
            if self.chunks[i].0.same_as(key) {
                return Some(i);
            }
            i = i + 1;
        }
        None
    }

    /// The chunk shape shared by this store's chunks.
    pub fn chunk_shape(&self) -> (p: &Point)
        ensures
            p@ == self.chunk_shape@,
    {
        &self.chunk_shape
    }

    /// The value standing for "no data" in this store.
    pub fn ambient_value(&self) -> (v: T)
        ensures
            v == self.ambient_value,
    {
        self.ambient_value
    }

    /// A fresh chunk of the store's shape, filled with the ambient value.
    pub fn ambient_chunk(&self) -> (c: Chunk<T, M>)
        requires
            self.wf(),
        ensures
            c.wf(),
            c.shape@ == self.chunk_shape@,
            c.meta == self.default_meta,
            forall|i: int| 0 <= i < c.data@.len() ==> c.data@[i] == self.ambient_value,
            forall|q: Seq<i32>|
                valid_coord(self.chunk_shape@, q) ==> c.sample(q) == self.ambient_value,
    {
        Chunk::filled(&self.chunk_shape, self.ambient_value, self.default_meta)
    }

    /// The chunk stored at `key`, if one exists.
    pub fn get_chunk(&self, key: &Point) -> (r: Option<&Chunk<T, M>>)
        requires
            self.wf(),
        ensures
            match r {
                Some(c) => self.has_chunk(key@) && *c == self.contents()[key@],
                None => !self.has_chunk(key@),
            },
    {
        match self.find_index(key) {
            Some(i) => {
                proof {
                    self.lemma_entry(i as int);
                }
                Some(&self.chunks[i].1)
            },
            None => None,
        }
    }

    /// Remove and return the chunk stored at `key`, if one exists.
    pub fn pop_chunk(&mut self, key: &Point) -> (r: Option<Chunk<T, M>>)
        requires
            old(self).wf(),
        ensures
            final(self).wf(),
            final(self).chunk_shape@ == old(self).chunk_shape@,
            final(self).ambient_value == old(self).ambient_value,
            final(self).default_meta == old(self).default_meta,
            match r {
                Some(c) => old(self).has_chunk(key@) && c == old(self).contents()[key@]
                    && final(self).contents() == old(self).contents().remove(key@),
                None => !old(self).has_chunk(key@) && *final(self) == *old(self),
            },
    {
        match self.find_index(key) {
            None => None,
            Some(i) => {
                proof {
                    self.lemma_entry(i as int);
                }
                let ghost pre = *self;
                let entry = self.chunks.swap_remove(i);
                proof {
                    let oldseq = pre.chunks@;
                    let newseq = self.chunks@;
                    let n = oldseq.len();
                    assert(newseq =~= oldseq.update(i as int, oldseq[n - 1]).drop_last());
                    assert forall|j: int| 0 <= j < newseq.len() implies #[trigger] newseq[j]
                        == oldseq[(if j == i { n - 1 } else { j })] by {}
                    assert(self.wf()) by {
                        assert forall|x: int, y: int|
                            0 <= x < y < newseq.len() implies (#[trigger] newseq[x].0@) != (
                        #[trigger] newseq[y].0@) by {
                            let ox = if x == i { n - 1 } else { x };
                            let oy = if y == i { n - 1 } else { y };
                            assert(newseq[x] == oldseq[ox]);
                            assert(newseq[y] == oldseq[oy]);
                        }
                    }
                    assert(final(self).contents() =~= old(self).contents().remove(key@)) by {
                        assert forall|k: Seq<i32>| #[trigger]
                            self.has_chunk(k) implies pre.has_chunk(k) && k != key@ by {
                            let j = choose|j: int|
                                0 <= j < newseq.len() && (#[trigger] newseq[j].0@) == k;
                            let oj = if j == i { n - 1 } else { j };
                            assert(oldseq[oj].0@ == k);
                            assert(pre.has_chunk(k));
                            if oj != i {
                                assert(oldseq[oj].0@ != oldseq[i as int].0@);
                            }
                        }
                        assert forall|k: Seq<i32>| #[trigger]
                            pre.has_chunk(k) && k != key@ implies self.has_chunk(k)
                            && self.contents()[k] == pre.contents()[k] by {
                            let j = choose|j: int|
                                0 <= j < oldseq.len() && (#[trigger] oldseq[j].0@) == k;
                            assert(j != i);
                            let nj = if j == n - 1 { i as int } else { j };
                            if j == n - 1 {
                                assert(newseq[nj] == oldseq[j]);
                            } else {
                                assert(newseq[nj] == oldseq[j]);
                            }
                            assert(newseq[nj].0@ == k);
                            assert(self.has_chunk(k));
                            self.lemma_entry(nj);
                            pre.lemma_entry(j);
                        }
                    }
                }
                Some(entry.1)
            },
        }
    }

    /// Take the chunk stored at `key` out of the store, or a fresh chunk
    /// filled with the ambient value if none is stored.  Mutable access in
    /// ownership style: mutate the returned chunk, then put it back with
    /// [`Self::write_chunk`].
    pub fn take_chunk_or_ambient(&mut self, key: &Point) -> (c: Chunk<T, M>)
        requires
            old(self).wf(),
        ensures
            final(self).wf(),
            final(self).chunk_shape@ == old(self).chunk_shape@,
            final(self).ambient_value == old(self).ambient_value,
            final(self).default_meta == old(self).default_meta,
            final(self).contents() == old(self).contents().remove(key@),
            c.wf(),
            c.shape@ == old(self).chunk_shape@,
            old(self).has_chunk(key@) ==> c == old(self).contents()[key@],
            !old(self).has_chunk(key@) ==> c.meta == old(self).default_meta && (forall|i: int|
                0 <= i < c.data@.len() ==> c.data@[i] == old(self).ambient_value),
    {
        match self.pop_chunk(key) {
            Some(c) => {
                proof {
                    old(self).lemma_chunk_wf(key@);
                }
                c
            },
            None => {
                proof {
                    assert(self.contents() =~= old(self).contents().remove(key@));
                }
                self.ambient_chunk()
            },
        }
    }

    /// Store `chunk` at `key`, replacing any chunk already there.
    pub fn write_chunk(&mut self, key: &Point, chunk: Chunk<T, M>)
        requires
            old(self).wf(),
            chunk.wf(),
            chunk.shape@ == old(self).chunk_shape@,
            key@.len() == old(self).dim(),
        ensures
            final(self).wf(),
            final(self).chunk_shape@ == old(self).chunk_shape@,
            final(self).ambient_value == old(self).ambient_value,
            final(self).default_meta == old(self).default_meta,
            final(self).contents() == old(self).contents().insert(key@, chunk),
    {
        let found = self.find_index(key);
        match found {
            Some(i) => {
                proof {
                    self.lemma_entry(i as int);
                }
                let ghost pre = *self;
                let slot = &mut self.chunks[i];
                *slot = (key.duplicate(), chunk);
                proof {
                    let oldseq = pre.chunks@;
                    let newseq = self.chunks@;
                    assert(newseq[i as int].0@ == key@);
                    assert forall|j: int|
                        0 <= j < newseq.len() && j != i implies #[trigger] newseq[j] == oldseq[j]
                        by {}
                    assert(self.wf()) by {
                        assert forall|x: int, y: int|
                            0 <= x < y < newseq.len() implies (#[trigger] newseq[x].0@) != (
                        #[trigger] newseq[y].0@) by {
                            assert(oldseq[x].0@ != oldseq[y].0@);
                        }
                    }
                    assert(final(self).contents() =~= old(self).contents().insert(key@, chunk))
                        by {
                        assert forall|k: Seq<i32>| #[trigger]
                            self.has_chunk(k) implies pre.has_chunk(k) || k == key@ by {
                            let j = choose|j: int|
                                0 <= j < newseq.len() && (#[trigger] newseq[j].0@) == k;
                            if j != i {
                                assert(oldseq[j].0@ == k);
                            }
                        }
                        assert forall|k: Seq<i32>| #[trigger]
                            pre.has_chunk(k) && k != key@ implies self.has_chunk(k)
                            && self.contents()[k] == pre.contents()[k] by {
                            let j = choose|j: int|
                                0 <= j < oldseq.len() && (#[trigger] oldseq[j].0@) == k;
                            assert(j != i);
                            assert(newseq[j].0@ == k);
                            assert(self.has_chunk(k));
                            self.lemma_entry(j);
                            pre.lemma_entry(j);
                        }
                        assert(self.has_chunk(key@));
                        self.lemma_entry(i as int);
                    }
                }
            },
            None => {
                let ghost pre = *self;
                self.chunks.push((key.duplicate(), chunk));
                proof {
                    let oldseq = pre.chunks@;
                    let newseq = self.chunks@;
                    let n = oldseq.len();
                    assert(newseq =~= oldseq.push((newseq[n as int].0, chunk)));
                    assert forall|j: int| 0 <= j < n implies #[trigger] newseq[j] == oldseq[j] by {}
                    assert(newseq[n as int].0@ == key@);
                    assert(self.wf()) by {
                        assert forall|x: int, y: int|
                            0 <= x < y < newseq.len() implies (#[trigger] newseq[x].0@) != (
                        #[trigger] newseq[y].0@) by {
                            if y < n {
                                assert(oldseq[x].0@ != oldseq[y].0@);
                            } else {
                                assert(newseq[y].0@ == key@);
                                assert(!pre.has_chunk(key@));
                                assert(oldseq[x].0@ != key@);
                            }
                        }
                    }
                    assert(final(self).contents() =~= old(self).contents().insert(key@, chunk))
                        by {
                        assert forall|k: Seq<i32>| #[trigger]
                            self.has_chunk(k) implies pre.has_chunk(k) || k == key@ by {
                            let j = choose|j: int|
                                0 <= j < newseq.len() && (#[trigger] newseq[j].0@) == k;
                            if j < n {
                                assert(oldseq[j].0@ == k);
                            }
                        }
                        assert forall|k: Seq<i32>| #[trigger]
                            pre.has_chunk(k) && k != key@ implies self.has_chunk(k)
                            && self.contents()[k] == pre.contents()[k] by {
                            let j = choose|j: int|
                                0 <= j < oldseq.len() && (#[trigger] oldseq[j].0@) == k;
                            assert(newseq[j].0@ == k);
                            assert(self.has_chunk(k));
                            self.lemma_entry(j);
                            pre.lemma_entry(j);
                        }
                        assert(self.has_chunk(key@));
                        self.lemma_entry(n as int);
                    }
                }
            },
        }
    }
}

} // verus!
