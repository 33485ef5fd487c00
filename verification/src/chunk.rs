//! Chunks: fixed-shape arrays of samples plus caller metadata.
//!
//! A chunk stores one sample per grid cell of its shape, in row-major order.
//! Contracts speak of samples by coordinate through [`Chunk::sample`]; the
//! row-major bijection of [`crate::grid`] ties the coordinates to the backing
//! vector.

use vstd::prelude::*;

verus! {

use crate::grid::coord_of_index;
use crate::grid::in_box;
use crate::grid::lemma_lin_bounds;
use crate::grid::lemma_lin_injective;
use crate::grid::lin;
use crate::grid::lin_of;
use crate::grid::valid_coord;
use crate::grid::vol;
use crate::grid::vol_of;
use crate::grid::wf_dims;
use crate::point::Point;

/// A component-wise copy of a sample vector.
pub fn copy_samples<T: Copy>(v: &Vec<T>) -> (r: Vec<T>)
    ensures
        r@ == v@,
{
    let mut r: Vec<T> = Vec::new();
    let n = v.len();
    let mut i: usize = 0;
    while i < n
        invariant
            i <= n,
            n == v@.len(),
            r@ =~= v@.subrange(0, i as int),
        decreases n - i,
    {
        r.push(v[i]);
        i = i + 1;
    }
    proof {
        assert(r@ =~= v@);
    }
    r
}

/// Whether coordinate `c` lies in the box anchored at `lo` with extent `ext`.
pub fn box_contains(lo: &Point, ext: &Point, c: &[i32]) -> (r: bool)
    requires
        lo@.len() == ext@.len(),
        c@.len() == lo@.len(),
        forall|a: int| 0 <= a < lo@.len() ==> 0 <= #[trigger] lo@[a],
        forall|a: int| 0 <= a < ext@.len() ==> 0 <= #[trigger] ext@[a],
    ensures
        r <==> in_box(lo@, ext@, c@),
{
    let n = c.len();
    let mut a: usize = 0;
    while a < n
        invariant
            a <= n,
            n == c@.len(),
            n == lo@.len(),
            n == ext@.len(),
            forall|b: int| 0 <= b < lo@.len() ==> 0 <= #[trigger] lo@[b],
            forall|b: int| 0 <= b < ext@.len() ==> 0 <= #[trigger] ext@[b],
            forall|b: int| 0 <= b < a ==> lo@[b] <= #[trigger] c@[b] < lo@[b] + ext@[b],
        decreases n - a,
    {
        let x = c[a];
        let l = lo.get(a);
        let e = ext.get(a);
        if x < l {
            return false;
        }
        if x - l >= e {
            return false;
        }
        a = a + 1;
    }
    true
}

/// A fixed-shape array of samples plus arbitrary caller-defined metadata.
pub struct Chunk<T, M> {
    /// Axis extents of the sample array.
    pub shape: Point,
    /// The samples, in row-major order.
    pub data: Vec<T>,
    /// Caller-defined metadata; the pyramid never reads it.
    pub meta: M,
}

impl<T: Copy, M> Chunk<T, M> {
    /// The chunk's array matches its shape.
    pub open spec fn wf(&self) -> bool {
        &&& wf_dims(self.shape@)
        &&& vol(self.shape@) <= usize::MAX
        &&& self.data@.len() == vol(self.shape@)
    }

    /// The sample stored at coordinate `c`.
    pub open spec fn sample(&self, c: Seq<i32>) -> T {
        self.data@[lin(self.shape@, c)]
    }

    /// A chunk of the given shape with every sample set to `value`.
    pub fn filled(shape: &Point, value: T, meta: M) -> (c: Chunk<T, M>)
        requires
            wf_dims(shape@),
            vol(shape@) <= usize::MAX,
        ensures
            c.wf(),
            c.shape@ == shape@,
            c.meta == meta,
            forall|i: int| 0 <= i < c.data@.len() ==> c.data@[i] == value,
            forall|q: Seq<i32>| valid_coord(shape@, q) ==> c.sample(q) == value,
    {
        let n = vol_of(shape.coords.as_slice());
        let mut data: Vec<T> = Vec::new();
        let mut i: usize = 0;
        while i < n
            invariant
                i <= n,
                data@.len() == i,
                forall|j: int| 0 <= j < i ==> data@[j] == value,
            decreases n - i,
        {
            data.push(value);
            i = i + 1;
        }
        let c = Chunk { shape: shape.duplicate(), data, meta };
        proof {
            assert forall|q: Seq<i32>| valid_coord(shape@, q) implies c.sample(q) == value by {
                lemma_lin_bounds(shape@, q);
            }
        }
        c
    }

    /// Read the sample at coordinate `c`.
    pub fn get(&self, c: &Point) -> (v: T)
        requires
            self.wf(),
            valid_coord(self.shape@, c@),
        ensures
            v == self.sample(c@),
    {
        proof {
            lemma_lin_bounds(self.shape@, c@);
        }
        let i = lin_of(self.shape.coords.as_slice(), c.coords.as_slice());
        self.data[i]
    }

    /// Write `v` to the sample at coordinate `c`.
    pub fn put(&mut self, c: &Point, v: T)
        requires
            old(self).wf(),
            valid_coord(old(self).shape@, c@),
        ensures
            final(self).wf(),
            final(self).shape@ == old(self).shape@,
            final(self).meta == old(self).meta,
            final(self).data@.len() == old(self).data@.len(),
            final(self).sample(c@) == v,
            forall|q: Seq<i32>|
                valid_coord(old(self).shape@, q) && q != c@ ==> final(self).sample(q) == old(
                    self,
                ).sample(q),
    {
        proof {
            lemma_lin_bounds(self.shape@, c@);
        }
        let i = lin_of(self.shape.coords.as_slice(), c.coords.as_slice());
        let slot = &mut self.data[i];
        *slot = v;
        proof {
            assert forall|q: Seq<i32>|
                valid_coord(old(self).shape@, q) && q != c@ implies final(self).sample(q) == old(
                self,
            ).sample(q) by {
                lemma_lin_bounds(old(self).shape@, q);
                if lin(old(self).shape@, q) == lin(old(self).shape@, c@) {
                    lemma_lin_injective(old(self).shape@, q, c@);
                }
            }
        }
    }

    /// Set every sample in the box anchored at `lo` with extent `ext` to
    /// `value`, leaving all other samples as they were.
    pub fn fill_extent(&mut self, lo: &Point, ext: &Point, value: T)
        requires
            old(self).wf(),
            lo@.len() == old(self).shape@.len(),
            ext@.len() == old(self).shape@.len(),
            forall|a: int| 0 <= a < lo@.len() ==> 0 <= #[trigger] lo@[a],
            forall|a: int| 0 <= a < ext@.len() ==> 0 <= #[trigger] ext@[a],
            forall|a: int|
                0 <= a < lo@.len() ==> #[trigger] lo@[a] + ext@[a] <= old(self).shape@[a],
        ensures
            final(self).wf(),
            final(self).shape@ == old(self).shape@,
            final(self).meta == old(self).meta,
            final(self).data@.len() == old(self).data@.len(),
            forall|q: Seq<i32>|
                valid_coord(old(self).shape@, q) && in_box(lo@, ext@, q) ==> final(self).sample(q)
                    == value,
            forall|q: Seq<i32>|
                valid_coord(old(self).shape@, q) && !in_box(lo@, ext@, q) ==> final(self).sample(q)
                    == old(self).sample(q),
    {
        let ghost shape = self.shape@;
        let ghost olddata = self.data@;
        let n = self.data.len();
        proof {
            assert(n == vol(shape));
        }
        let mut data: Vec<T> = Vec::new();
        let mut i: usize = 0;
        while i < n
            invariant
                i <= n,
                n == vol(shape),
                n == self.data@.len(),
                self.shape@ == shape,
                self.data@ == olddata,
                wf_dims(shape),
                vol(shape) <= usize::MAX,
                lo@.len() == shape.len(),
                ext@.len() == shape.len(),
                forall|a: int| 0 <= a < lo@.len() ==> 0 <= #[trigger] lo@[a],
                forall|a: int| 0 <= a < ext@.len() ==> 0 <= #[trigger] ext@[a],
                forall|a: int| 0 <= a < lo@.len() ==> #[trigger] lo@[a] + ext@[a] <= shape[a],
                data@.len() == i,
                forall|q: Seq<i32>|
                    valid_coord(shape, q) && 0 <= lin(shape, q) < i ==> data@[lin(shape, q)] == (
                    if in_box(lo@, ext@, q) {
                        value
                    } else {
                        olddata[lin(shape, q)]
                    }),
            decreases n - i,
        {
            let c = coord_of_index(self.shape.coords.as_slice(), i);
            let inside = box_contains(lo, ext, c.as_slice());
            if inside {
                data.push(value);
            } else {
                data.push(self.data[i]);
            }
            proof {
                assert forall|q: Seq<i32>|
                    valid_coord(shape, q) && 0 <= lin(shape, q) < i + 1 implies data@[lin(
                    shape,
                    q,
                )] == (
                if in_box(lo@, ext@, q) {
                    value
                } else {
                    olddata[lin(shape, q)]
                }) by {
                    lemma_lin_bounds(shape, q);
                    if lin(shape, q) == i {
                        lemma_lin_injective(shape, q, c@);
                    }
                }
            }
            i = i + 1;
        }
        self.data = data;
        proof {
            assert forall|q: Seq<i32>| valid_coord(shape, q) implies final(self).sample(q) == (
            if in_box(lo@, ext@, q) {
                value
            } else {
                old(self).sample(q)
            }) by {
                lemma_lin_bounds(shape, q);
            }
        }
    }

    /// A component-wise copy of the chunk.
    pub fn duplicate(&self) -> (c: Chunk<T, M>) where M: Copy
        ensures
            c.shape@ == self.shape@,
            c.data@ == self.data@,
            c.meta == self.meta,
    {
        Chunk { shape: self.shape.duplicate(), data: copy_samples(&self.data), meta: self.meta }
    }
}

} // verus!
