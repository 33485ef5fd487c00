//! N-dimensional integer coordinates.

use vstd::prelude::*;

verus! {

/// An N-dimensional integer coordinate: a chunk key, a local offset within a
/// chunk, or a chunk shape.  Components may be negative; the grid extends
/// below zero on every axis.
#[derive(Clone, Debug, PartialEq, Eq)]
pub struct Point {
    pub coords: Vec<i32>,
}

impl View for Point {
    type V = Seq<i32>;

    open spec fn view(&self) -> Seq<i32> {
        self.coords@
    }
}

impl Point {
    pub fn new(coords: Vec<i32>) -> (p: Point)
        ensures
            p@ == coords@,
    {
        Point { coords }
    }

    /// Number of axes.
    pub fn dim(&self) -> (n: usize)
        ensures
            n == self@.len(),
    {
        self.coords.len()
    }

    /// Component on axis `a`.
    pub fn get(&self, a: usize) -> (x: i32)
        requires
            a < self@.len(),
        ensures
            x == self@[a as int],
    {
        self.coords[a]
    }

    /// A component-wise copy of the point.
    pub fn duplicate(&self) -> (p: Point)
        ensures
            p@ == self@,
    {
        let mut coords: Vec<i32> = Vec::new();
        let n = self.coords.len();
        let mut a: usize = 0;
        while a < n
            invariant
                a <= n,
                n == self@.len(),
                coords@ =~= self@.subrange(0, a as int),
            decreases n - a,
        {
            coords.push(self.coords[a]);
            a = a + 1;
        }
        proof {
            assert(coords@ =~= self@);
        }
        Point { coords }
    }

    /// Whether the two points have the same components.
    pub fn same_as(&self, other: &Point) -> (r: bool)
        ensures
            r <==> self@ == other@,
    {
        let n = self.coords.len();
        if n != other.coords.len() {
            proof {
                assert(self@.len() != other@.len());
            }
            return false;
        }
        let mut a: usize = 0;
        while a < n
            invariant
                a <= n,
                n == self@.len(),
                n == other@.len(),
                forall|b: int| 0 <= b < a ==> self@[b] == other@[b],
            decreases n - a,
        {
            if self.coords[a] != other.coords[a] {
                proof {
                    assert(self@[a as int] != other@[a as int]);
                }
                return false;
            }
            a = a + 1;
        }
        proof {
            assert(self@ =~= other@);
        }
        true
    }
}

/// A 2-dimensional point.
pub fn point2(x: i32, y: i32) -> (p: Point)
    ensures
        p@ =~= seq![x, y],
{
    let mut coords: Vec<i32> = Vec::new();
    coords.push(x);
    coords.push(y);
    Point { coords }
}

/// A 3-dimensional point.
pub fn point3(x: i32, y: i32, z: i32) -> (p: Point)
    ensures
        p@ =~= seq![x, y, z],
{
    let mut coords: Vec<i32> = Vec::new();
    coords.push(x);
    coords.push(y);
    coords.push(z);
    Point { coords }
}

} // verus!
