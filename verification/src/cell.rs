use vstd::prelude::*;

verus! {

/// One grid square, addressed by integer coordinates.  The grid uses a
/// 1-based convention: a cell is inside a `width x height` grid when
/// `1 <= x <= width` and `1 <= y <= height`.  Solver output uses the same
/// 1-based coordinates, so parsed cells need no normalization.
#[derive(Clone, Copy, Debug, Hash, PartialEq, Eq, Structural)]
pub struct Cell {
    pub x: usize,
    pub y: usize,
}

impl Cell {
    pub fn new(x: usize, y: usize) -> (c: Cell)
        ensures
            c == (Cell { x, y }),
    {
        Cell { x, y }
    }
}

/// Total order on cells by `(x, then y)`, used to canonicalize unordered
/// pairs for deterministic enumeration.
pub open spec fn cell_le(a: Cell, b: Cell) -> bool {
    a.x < b.x || (a.x == b.x && a.y <= b.y)
}

/// The Chebyshev distance between two cells: the number of 8-connected
/// steps needed to move from one to the other.
pub open spec fn cheb_dist(a: Cell, b: Cell) -> int {
    vstd::math::max(
        vstd::math::abs(a.x - b.x) as int,
        vstd::math::abs(a.y - b.y) as int,
    )
}

/// `c` lies within the axis-aligned bounding box spanned by `a` and `b`.
pub open spec fn in_box(c: Cell, a: Cell, b: Cell) -> bool {
    &&& vstd::math::min(a.x as int, b.x as int) <= c.x <= vstd::math::max(a.x as int, b.x as int)
    &&& vstd::math::min(a.y as int, b.y as int) <= c.y <= vstd::math::max(a.y as int, b.y as int)
}

/// Two cells are 8-connected neighbors: one step apart in the Chebyshev
/// metric, the adjacency produced by the rasterizer.
pub open spec fn adjacent8(a: Cell, b: Cell) -> bool {
    cheb_dist(a, b) == 1
}

/// The category of an occupied cell.  `Green` is the plain obstacle
/// category that freehand drawing produces; `Pink` marks one half of a
/// diagonal pair constraint; the remaining variants are alternate display
/// categories for plain obstacles.
#[derive(Clone, Copy, Debug, Hash, PartialEq, Eq, Structural)]
pub enum CellType {
    Green,
    Pink,
    Yellow,
    Orange,
}

impl CellType {
    pub fn variants() -> (r: Vec<CellType>)
        ensures
            r@ == seq![CellType::Green, CellType::Pink, CellType::Yellow, CellType::Orange],
    {
        let mut v: Vec<CellType> = Vec::new();
        v.push(CellType::Green);
        v.push(CellType::Pink);
        v.push(CellType::Yellow);
        v.push(CellType::Orange);
        proof {
            assert(v@ =~= seq![CellType::Green, CellType::Pink, CellType::Yellow, CellType::Orange]);
        }
        v
    }
}

} // verus!
