//! The Moore neighbourhood of a pixel on a bounded or toroidal surface.

use crate::image::Point;
use vstd::prelude::*;

verus! {

/// Horizontal step to the `k`-th of the eight Moore neighbours, row by row
/// from the upper left.
pub open spec fn offset_x(k: int) -> int {
    if k == 0 || k == 3 || k == 5 {
        -1
    } else if k == 1 || k == 6 {
        0
    } else {
        1
    }
}

/// Vertical step to the `k`-th of the eight Moore neighbours.
pub open spec fn offset_y(k: int) -> int {
    if k <= 2 {
        -1
    } else if k <= 4 {
        0
    } else {
        1
    }
}

/// A coordinate folded back onto `[0, n)`: the dimension is added before the
/// remainder is taken, so the dividend is never negative.
pub open spec fn wrap_coordinate(v: int, n: int) -> int {
    (v + n) % n
}

/// The shape of a surface and whether its opposite edges are glued together.
pub struct Topology {
    pub width: int,
    pub height: int,
    pub wrap: bool,
}

impl Topology {
    /// `p` lies on the surface.
    pub open spec fn contains(self, p: Point) -> bool {
        0 <= p.x < self.width && 0 <= p.y < self.height
    }

    /// The `k`-th Moore neighbour of `p`: folded back onto the surface when it
    /// wraps, absent when it does not wrap and the step leaves it.
    pub open spec fn neighbor(self, p: Point, k: int) -> Option<Point> {
        let x = p.x + offset_x(k);
        let y = p.y + offset_y(k);
        if self.wrap {
            Some(
                Point {
                    x: wrap_coordinate(x, self.width) as i32,
                    y: wrap_coordinate(y, self.height) as i32,
                },
            )
        } else if 0 <= x < self.width && 0 <= y < self.height {
            Some(Point { x: x as i32, y: y as i32 })
        } else {
            None
        }
    }

    /// `q` is one of the Moore neighbours of `p`.
    pub open spec fn adjacent(self, p: Point, q: Point) -> bool {
        exists|k: int| 0 <= k < 8 && #[trigger] self.neighbor(p, k) == Some(q)
    }

    /// Sizes for which every coordinate of the surface fits a `Point`.
    pub open spec fn wf(self) -> bool {
        1 <= self.width <= i32::MAX && 1 <= self.height <= i32::MAX
    }
}

/// Folding a coordinate that is at most one step off `[0, n)`.
pub proof fn lemma_wrap_coordinate(v: int, n: int)
    requires
        1 <= n,
        -1 <= v <= n,
    ensures
        wrap_coordinate(v, n) == if v == -1 {
            n - 1
        } else if v == n {
            0
        } else {
            v
        },
{
    if v == -1 {
        assert((n - 1) % n == n - 1) by {
            vstd::arithmetic::div_mod::lemma_small_mod((n - 1) as nat, n as nat);
        }
    } else if v == n {
        assert((n + n) % n == 0) by (nonlinear_arith)
            requires
                1 <= n,
        ;
    } else {
        assert((v + n) % n == v) by (nonlinear_arith)
            requires
                0 <= v < n,
        ;
    }
}

/// Neighbours of a point of the surface lie on the surface.
pub proof fn lemma_neighbor_contained(t: Topology, p: Point, k: int)
    requires
        t.wf(),
        t.contains(p),
        0 <= k < 8,
    ensures
        t.neighbor(p, k) matches Some(q) ==> t.contains(q),
{
    lemma_wrap_coordinate(p.x + offset_x(k), t.width);
    lemma_wrap_coordinate(p.y + offset_y(k), t.height);
}

/// The neighbourhood is symmetric: the step that undoes the `k`-th is the
/// `(7 - k)`-th.
pub proof fn lemma_neighbor_symmetric(t: Topology, p: Point, k: int)
    requires
        t.wf(),
        t.contains(p),
        0 <= k < 8,
    ensures
        t.neighbor(p, k) matches Some(q) ==> t.neighbor(q, 7 - k) == Some(p),
{
    lemma_wrap_coordinate(p.x + offset_x(k), t.width);
    lemma_wrap_coordinate(p.y + offset_y(k), t.height);
    if let Some(q) = t.neighbor(p, k) {
        lemma_wrap_coordinate(q.x + offset_x(7 - k), t.width);
        lemma_wrap_coordinate(q.y + offset_y(7 - k), t.height);
    }
}

impl Point {
    /// The eight points around this one, row by row from the upper left.
    /// Nothing is folded or clipped here.
    pub fn neighbors(self) -> (around: [Point; 8])
        requires
            i32::MIN < self.x < i32::MAX,
            i32::MIN < self.y < i32::MAX,
        ensures
            forall|k: int|
                0 <= k < 8 ==> (#[trigger] around[k]).x == self.x + offset_x(k) && around[k].y
                    == self.y + offset_y(k),
    {
        [
            Point { x: self.x - 1, y: self.y - 1 },
            Point { x: self.x, y: self.y - 1 },
            Point { x: self.x + 1, y: self.y - 1 },
            Point { x: self.x - 1, y: self.y },
            Point { x: self.x + 1, y: self.y },
            Point { x: self.x - 1, y: self.y + 1 },
            Point { x: self.x, y: self.y + 1 },
            Point { x: self.x + 1, y: self.y + 1 },
        ]
    }
}

} // verus!
