//! Row-major indexing of an N-dimensional grid.
//!
//! A grid shape is a sequence of positive axis extents.  A sample coordinate
//! is mapped to a linear index into the backing storage by the usual
//! row-major rule, and the mapping is proved to be a bijection between the
//! valid coordinates and the indices below the grid's volume.

use vstd::prelude::*;

verus! {

/// Every axis extent is at least one sample wide.
pub open spec fn wf_dims(shape: Seq<i32>) -> bool {
    forall|a: int| 0 <= a < shape.len() ==> 1 <= #[trigger] shape[a]
}

/// Number of samples in a grid of the given shape.
pub open spec fn vol(shape: Seq<i32>) -> int
    decreases shape.len(),
{
    if shape.len() == 0 {
        1
    } else {
        shape[0] * vol(shape.skip(1))
    }
}

/// `c` addresses a sample of a grid with the given shape.
pub open spec fn valid_coord(shape: Seq<i32>, c: Seq<i32>) -> bool {
    &&& c.len() == shape.len()
    &&& forall|a: int| 0 <= a < c.len() ==> 0 <= #[trigger] c[a] < shape[a]
}

/// Row-major linear index of coordinate `c` in a grid of shape `shape`.
pub open spec fn lin(shape: Seq<i32>, c: Seq<i32>) -> int
    decreases shape.len(),
{
    if shape.len() == 0 {
        0
    } else {
        c[0] * vol(shape.skip(1)) + lin(shape.skip(1), c.skip(1))
    }
}

/// `c` lies in the axis-aligned box anchored at `lo` with extent `ext`.
pub open spec fn in_box(lo: Seq<i32>, ext: Seq<i32>, c: Seq<i32>) -> bool {
    &&& c.len() == lo.len()
    &&& c.len() == ext.len()
    &&& forall|a: int| 0 <= a < c.len() ==> lo[a] <= #[trigger] c[a] < lo[a] + ext[a]
}

pub proof fn lemma_vol_pos(shape: Seq<i32>)
    requires
        wf_dims(shape),
    ensures
        vol(shape) >= 1,
    decreases shape.len(),
{
    if shape.len() > 0 {
        assert(wf_dims(shape.skip(1)));
        lemma_vol_pos(shape.skip(1));
        assert(shape[0] * vol(shape.skip(1)) >= 1) by (nonlinear_arith)
            requires
                shape[0] >= 1,
                vol(shape.skip(1)) >= 1,
        ;
    }
}

/// A valid coordinate's linear index lies below the grid's volume.
pub proof fn lemma_lin_bounds(shape: Seq<i32>, c: Seq<i32>)
    requires
        wf_dims(shape),
        valid_coord(shape, c),
    ensures
        0 <= lin(shape, c) < vol(shape),
    decreases shape.len(),
{
    if shape.len() > 0 {
        assert(wf_dims(shape.skip(1)));
        assert(valid_coord(shape.skip(1), c.skip(1)));
        lemma_lin_bounds(shape.skip(1), c.skip(1));
        lemma_vol_pos(shape.skip(1));
        assert(0 <= c[0] * vol(shape.skip(1)) + lin(shape.skip(1), c.skip(1)) < shape[0] * vol(
            shape.skip(1),
        )) by (nonlinear_arith)
            requires
                0 <= c[0] < shape[0],
                vol(shape.skip(1)) >= 1,
                0 <= lin(shape.skip(1), c.skip(1)) < vol(shape.skip(1)),
        ;
    }
}

/// Distinct valid coordinates have distinct linear indices.
pub proof fn lemma_lin_injective(shape: Seq<i32>, c1: Seq<i32>, c2: Seq<i32>)
    requires
        wf_dims(shape),
        valid_coord(shape, c1),
        valid_coord(shape, c2),
        lin(shape, c1) == lin(shape, c2),
    ensures
        c1 == c2,
    decreases shape.len(),
{
    if shape.len() == 0 {
        assert(c1 =~= c2);
    } else {
        assert(wf_dims(shape.skip(1)));
        assert(valid_coord(shape.skip(1), c1.skip(1)));
        assert(valid_coord(shape.skip(1), c2.skip(1)));
        lemma_lin_bounds(shape.skip(1), c1.skip(1));
        lemma_lin_bounds(shape.skip(1), c2.skip(1));
        let v1 = vol(shape.skip(1));
        assert(c1[0] == c2[0]) by (nonlinear_arith)
            requires
                c1[0] * v1 + lin(shape.skip(1), c1.skip(1)) == c2[0] * v1 + lin(
                    shape.skip(1),
                    c2.skip(1),
                ),
                0 <= lin(shape.skip(1), c1.skip(1)) < v1,
                0 <= lin(shape.skip(1), c2.skip(1)) < v1,
        ;
        lemma_lin_injective(shape.skip(1), c1.skip(1), c2.skip(1));
        assert forall|a: int| 0 <= a < c1.len() implies c1[a] == c2[a] by {
            if a > 0 {
                assert(c1.skip(1)[a - 1] == c2.skip(1)[a - 1]);
            }
        }
        assert(c1 =~= c2);
    }
}

/// Every index below the volume is the linear index of some valid coordinate.
pub proof fn lemma_lin_surjective(shape: Seq<i32>, i: int)
    requires
        wf_dims(shape),
        0 <= i < vol(shape),
    ensures
        exists|c: Seq<i32>|
            valid_coord(shape, c) && lin(shape, c) == i,
    decreases shape.len(),
{
    if shape.len() == 0 {
        let c = Seq::<i32>::empty();
        assert(valid_coord(shape, c) && lin(shape, c) == i);
    } else {
        assert(wf_dims(shape.skip(1)));
        lemma_vol_pos(shape.skip(1));
        let v1 = vol(shape.skip(1));
        let q = i / v1;
        let r = i % v1;
        vstd::arithmetic::div_mod::lemma_fundamental_div_mod(i, v1);
        vstd::arithmetic::div_mod::lemma_mod_division_less_than_divisor(i, v1);
        crate::math::lemma_div_bounds(i, v1);
        assert(q < shape[0]) by (nonlinear_arith)
            requires
                i == v1 * q + r,
                i < shape[0] * v1,
                0 <= r < v1,
                q >= 0,
        ;
        lemma_lin_surjective(shape.skip(1), r);
        let ctail = choose|ct: Seq<i32>|
            valid_coord(shape.skip(1), ct) && lin(shape.skip(1), ct) == r;
        let c = seq![q as i32] + ctail;
        assert(c.skip(1) =~= ctail);
        assert(c[0] == q);
        assert(valid_coord(shape, c));
        assert(lin(shape, c) == q * v1 + r);
        assert(q * v1 == v1 * q) by (nonlinear_arith);
        assert(lin(shape, c) == i);
    }
}

/// Volume of a shape, computed.
pub fn vol_of(shape: &[i32]) -> (v: usize)
    requires
        wf_dims(shape@),
        vol(shape@) <= usize::MAX,
    ensures
        v == vol(shape@),
    decreases shape@.len(),
{
    if shape.len() == 0 {
        1
    } else {
        let tail = &shape[1..shape.len()];
        proof {
            assert(tail@ =~= shape@.skip(1));
            assert(wf_dims(tail@));
            lemma_vol_pos(tail@);
            assert(vol(tail@) <= shape@[0] * vol(tail@)) by (nonlinear_arith)
                requires
                    shape@[0] >= 1,
                    vol(tail@) >= 1,
            ;
        }
        let rest = vol_of(tail);
        proof {
            assert(shape@[0] * vol(tail@) == vol(shape@));
        }
        (shape[0] as usize) * rest
    }
}

/// Row-major linear index, computed.
pub fn lin_of(shape: &[i32], c: &[i32]) -> (i: usize)
    requires
        wf_dims(shape@),
        valid_coord(shape@, c@),
        vol(shape@) <= usize::MAX,
    ensures
        i == lin(shape@, c@),
    decreases shape@.len(),
{
    proof {
        lemma_lin_bounds(shape@, c@);
    }
    if shape.len() == 0 {
        0
    } else {
        let sh_tail = &shape[1..shape.len()];
        let c_tail = &c[1..c.len()];
        proof {
            assert(sh_tail@ =~= shape@.skip(1));
            assert(c_tail@ =~= c@.skip(1));
            assert(wf_dims(sh_tail@));
            assert(valid_coord(sh_tail@, c_tail@));
            lemma_vol_pos(sh_tail@);
            assert(vol(sh_tail@) <= shape@[0] * vol(sh_tail@)) by (nonlinear_arith)
                requires
                    shape@[0] >= 1,
                    vol(sh_tail@) >= 1,
            ;
            assert(shape@[0] * vol(sh_tail@) == vol(shape@));
        }
        let v1 = vol_of(sh_tail);
        let rest = lin_of(sh_tail, c_tail);
        proof {
            lemma_lin_bounds(sh_tail@, c_tail@);
        }
        (c[0] as usize) * v1 + rest
    }
}

/// The valid coordinate whose row-major linear index is `i`.
pub fn coord_of_index(shape: &[i32], i: usize) -> (c: Vec<i32>)
    requires
        wf_dims(shape@),
        vol(shape@) <= usize::MAX,
        i < vol(shape@),
    ensures
        valid_coord(shape@, c@),
        lin(shape@, c@) == i,
    decreases shape@.len(),
{
    if shape.len() == 0 {
        let c = Vec::<i32>::new();
        proof {
            assert(c@ =~= Seq::<i32>::empty());
        }
        c
    } else {
        let tail = &shape[1..shape.len()];
        proof {
            assert(tail@ =~= shape@.skip(1));
            assert(wf_dims(tail@));
            lemma_vol_pos(tail@);
            assert(vol(tail@) <= shape@[0] * vol(tail@)) by (nonlinear_arith)
                requires
                    shape@[0] >= 1,
                    vol(tail@) >= 1,
            ;
            assert(shape@[0] * vol(tail@) == vol(shape@));
        }
        let v1 = vol_of(tail);
        let q = i / v1;
        let r = i % v1;
        proof {
            assert(q < shape@[0] && r < vol(tail@)) by (nonlinear_arith)
                requires
                    v1 == vol(tail@),
                    v1 >= 1,
                    q == i as int / v1 as int,
                    r == i as int % v1 as int,
                    i < shape@[0] * v1,
                    i >= 0,
        ;
        }
        let mut rest = coord_of_index(tail, r);
        let ghost prev = rest@;
        rest.insert(0, q as i32);
        proof {
            assert(rest@ == prev.insert(0, q as i32));
            assert(rest@.skip(1) =~= prev);
            assert(rest@[0] == q as i32);
            assert(valid_coord(shape@, rest@));
            vstd::arithmetic::div_mod::lemma_fundamental_div_mod(i as int, v1 as int);
            assert(lin(shape@, rest@) == q * vol(tail@) + lin(tail@, prev));
            assert(q * vol(tail@) == (vol(tail@)) * q) by (nonlinear_arith);
        }
        rest
    }
}

} // verus!
