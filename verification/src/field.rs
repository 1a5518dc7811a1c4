use vstd::prelude::*;
use vstd::string::StringSliceAdditionalSpecFns;
use crate::cell::{Cell, CellType, cell_le, cheb_dist, in_box, adjacent8};
use crate::error::AppError;
use crate::path::Path;
use crate::store::CellMap;

verus! {

/// Upper bound on grid dimensions, so that neighbor arithmetic and the
/// rasterizer's error accumulator stay far from machine limits.
pub const GRID_DIM_LIMIT: usize = 1000000;

/// A cell constructed from mathematical coordinates; used by
/// specifications that speak about neighbors of a cell.
pub open spec fn cell_at(x: int, y: int) -> Cell {
    Cell { x: x as usize, y: y as usize }
}

/// The canonical form of an unordered pair: the two cells ordered by
/// `cell_le`.
pub open spec fn canon_pair(a: Cell, b: Cell) -> (Cell, Cell) {
    if cell_le(a, b) {
        (a, b)
    } else {
        (b, a)
    }
}

/// The grid: its bounds, the classification of occupied cells, the
/// symmetric diagonal-pair links, the optional start/end markers, the most
/// recently reconstructed paths, and the previous pointer sample of the
/// freehand gesture.
pub struct Field {
    pub width: usize,
    pub height: usize,
    pub filled_cells: CellMap<CellType>,
    pub pink_pair_map: CellMap<Cell>,
    pub start_cell: Option<Cell>,
    pub end_cell: Option<Cell>,
    pub paths: Option<Vec<Path>>,
    pub line_segment_start: Option<Cell>,
}

impl Field {
    pub open spec fn in_bounds(self, c: Cell) -> bool {
        1 <= c.x <= self.width && 1 <= c.y <= self.height
    }

    pub open spec fn occupied(self, c: Cell) -> bool {
        self.filled_cells@.contains_key(c)
    }

    pub open spec fn green(self, c: Cell) -> bool {
        self.filled_cells@.contains_key(c) && self.filled_cells@[c] == CellType::Green
    }

    pub open spec fn pink(self, c: Cell) -> bool {
        self.filled_cells@.contains_key(c) && self.filled_cells@[c] == CellType::Pink
    }

    /// A reconstructed walk is admissible for this grid: every cell in
    /// bounds, consecutive cells 8-connected.
    pub open spec fn path_ok(self, p: Seq<Cell>) -> bool {
        &&& forall|i: int| 0 <= i < p.len() ==> self.in_bounds(#[trigger] p[i])
        &&& forall|i: int| 0 <= i < p.len() - 1 ==> adjacent8(#[trigger] p[i], p[i + 1])
    }

    /// Well-formedness of the grid:
    /// positive bounded dimensions; distinct-keyed stores; occupied cells
    /// in bounds; the pair map symmetric, irreflexive, and every linked
    /// cell marked `Pink`; markers and the gesture sample in bounds; every
    /// stored path admissible.
    pub open spec fn wf(self) -> bool {
        &&& 1 <= self.width <= GRID_DIM_LIMIT
        &&& 1 <= self.height <= GRID_DIM_LIMIT
        &&& self.filled_cells.wf()
        &&& self.pink_pair_map.wf()
        &&& forall|c: Cell| #[trigger] self.filled_cells@.contains_key(c) ==> self.in_bounds(c)
        &&& forall|c: Cell| #[trigger] self.pink_pair_map@.contains_key(c) ==> {
                &&& self.pink_pair_map@[c] != c
                &&& self.pink_pair_map@.contains_key(self.pink_pair_map@[c])
                &&& self.pink_pair_map@[self.pink_pair_map@[c]] == c
                &&& self.pink(c)
            }
        &&& self.start_cell matches Some(c) ==> self.in_bounds(c)
        &&& self.end_cell matches Some(c) ==> self.in_bounds(c)
        &&& self.line_segment_start matches Some(c) ==> self.in_bounds(c)
        &&& self.paths matches Some(ps) ==> forall|i: int|
                0 <= i < ps.len() ==> self.path_ok(#[trigger] ps[i]@)
    }

    /// A fresh 40 x 20 grid with nothing drawn and no markers.
    pub fn new() -> (r: Field)
        ensures
            r.wf(),
            r.width == 40,
            r.height == 20,
            r.filled_cells@ == Map::<Cell, CellType>::empty(),
            r.pink_pair_map@ == Map::<Cell, Cell>::empty(),
            r.start_cell is None,
            r.end_cell is None,
            r.paths is None,
            r.line_segment_start is None,
    {
        Field {
            width: 40,
            height: 20,
            filled_cells: CellMap::new(),
            pink_pair_map: CellMap::new(),
            start_cell: None,
            end_cell: None,
            paths: None,
            line_segment_start: None,
        }
    }

    /// Whether `cell` lies inside the grid.
    pub fn contains(&self, cell: &Cell) -> (r: bool)
        ensures
            r == self.in_bounds(*cell),
    {
        1 <= cell.x && cell.x <= self.width && 1 <= cell.y && cell.y <= self.height
    }

    pub fn is_cell_occupied(&self, cell: &Cell) -> (r: bool)
        requires
            self.wf(),
        ensures
            r == self.occupied(*cell),
    {
        self.filled_cells.contains_key(*cell)
    }

    pub fn is_green_cell(&self, cell: &Cell) -> (r: bool)
        requires
            self.wf(),
        ensures
            r == self.green(*cell),
    {
        match self.filled_cells.get(*cell) {
            Some(t) => matches!(t, CellType::Green),
            None => false,
        }
    }

    pub fn is_pink_cell(&self, cell: &Cell) -> (r: bool)
        requires
            self.wf(),
        ensures
            r == self.pink(*cell),
    {
        match self.filled_cells.get(*cell) {
            Some(t) => matches!(t, CellType::Pink),
            None => false,
        }
    }

    /// Sets the start marker to the clicked cell, provided one was clicked
    /// and it is not occupied; otherwise leaves the grid unchanged.
    pub fn handle_start_cell_selection(&mut self, clicked: Option<Cell>)
        requires
            old(self).wf(),
            clicked matches Some(c) ==> old(self).in_bounds(c),
        ensures
            final(self).wf(),
            match clicked {
                Some(c) => if old(self).occupied(c) {
                    *final(self) == *old(self)
                } else {
                    *final(self) == (Field { start_cell: Some(c), ..*old(self) })
                },
                None => *final(self) == *old(self),
            },
    {
        if let Some(c) = clicked {
            if !self.is_cell_occupied(&c) {
                self.start_cell = Some(c);
            }
        }
    }

    /// Sets the end marker under the same rule as the start marker.
    pub fn handle_end_cell_selection(&mut self, clicked: Option<Cell>)
        requires
            old(self).wf(),
            clicked matches Some(c) ==> old(self).in_bounds(c),
        ensures
            final(self).wf(),
            match clicked {
                Some(c) => if old(self).occupied(c) {
                    *final(self) == *old(self)
                } else {
                    *final(self) == (Field { end_cell: Some(c), ..*old(self) })
                },
                None => *final(self) == *old(self),
            },
    {
        if let Some(c) = clicked {
            if !self.is_cell_occupied(&c) {
                self.end_cell = Some(c);
            }
        }
    }

    /// Discards the reconstructed paths.
    pub fn clear_paths(&mut self)
        requires
            old(self).wf(),
        ensures
            final(self).wf(),
            *final(self) == (Field { paths: None, ..*old(self) }),
    {
        self.paths = None;
    }

    /// Whether `cell` is the grid's designated start marker, which
    /// freehand drawing and erasing never touch.
    fn is_endpoint(&self, cell: &Cell) -> (r: bool)
        ensures
            r == (self.start_cell == Some(*cell)),
    {
        match self.start_cell {
            Some(e) => e.x == cell.x && e.y == cell.y,
            None => false,
        }
    }

    /// The set of distinct cells touched by the straight segment from
    /// `start_cell` to `end_cell`, by integer error-accumulator stepping:
    /// at each step the doubled error is compared against each axis's
    /// span independently, so a step may advance both axes at once,
    /// giving 8-connected diagonal continuity.  The grid's designated
    /// start marker is never included.
    #[verifier::rlimit(100)]
    pub fn bresenham_cells(&self, start_cell: Cell, end_cell: Cell) -> (r: Vec<Cell>)
        requires
            self.wf(),
            self.in_bounds(start_cell),
            self.in_bounds(end_cell),
        ensures
            raster_post(*self, start_cell, end_cell, r@),
    {
        let ax: usize = if start_cell.x >= end_cell.x {
            start_cell.x - end_cell.x
        } else {
            end_cell.x - start_cell.x
        };
        let ay: usize = if start_cell.y >= end_cell.y {
            start_cell.y - end_cell.y
        } else {
            end_cell.y - start_cell.y
        };
        let x_inc = start_cell.x < end_cell.x;
        let y_inc = start_cell.y < end_cell.y;
        let mut err: i64 = ax as i64 - ay as i64;
        let mut x = start_cell.x;
        let mut y = start_cell.y;
        let mut cells: Vec<Cell> = Vec::new();
        let ghost a = ax as int;
        let ghost b = ay as int;
        let ghost c0 = cheb_dist(start_cell, end_cell);
        let ghost mut skipped: int = 0;

        proof {
            assert(c0 == if a >= b { a } else { b });
        }

        let first = Cell::new(x, y);
        if !self.is_endpoint(&first) {
            cells.push(first);
            proof {
                assert(first == start_cell);
                assert(cells@[0] == start_cell);
            }
        } else {
            proof {
                skipped = 1;
            }
        }
        proof {
            assert(rem_toward(x, end_cell.x, x_inc) == a);
            assert(rem_toward(y, end_cell.y, y_inc) == b);
            assert(b * a - a * b == 0) by (nonlinear_arith);
        }

        while x != end_cell.x || y != end_cell.y
            invariant
                self.in_bounds(start_cell),
                self.in_bounds(end_cell),
                self.width <= GRID_DIM_LIMIT,
                self.height <= GRID_DIM_LIMIT,
                a == ax && b == ay,
                x_inc == (start_cell.x < end_cell.x),
                y_inc == (start_cell.y < end_cell.y),
                a == rem_toward(start_cell.x, end_cell.x, x_inc),
                b == rem_toward(start_cell.y, end_cell.y, y_inc),
                c0 == cheb_dist(start_cell, end_cell),
                c0 == (if a >= b { a } else { b }),
                if x_inc { start_cell.x <= x <= end_cell.x } else { end_cell.x <= x <= start_cell.x },
                if y_inc { start_cell.y <= y <= end_cell.y } else { end_cell.y <= y <= start_cell.y },
                err as int == a - b + b * rem_toward(x, end_cell.x, x_inc)
                    - a * rem_toward(y, end_cell.y, y_inc),
                -(if a >= b { a } else { b }) <= 2 * (b * rem_toward(x, end_cell.x, x_inc)
                    - a * rem_toward(y, end_cell.y, y_inc)),
                2 * (b * rem_toward(x, end_cell.x, x_inc)
                    - a * rem_toward(y, end_cell.y, y_inc)) <= (if a >= b { a } else { b }),
                cheb_dist(Cell { x, y }, end_cell) == ({
                    let rx = rem_toward(x, end_cell.x, x_inc);
                    let ry = rem_toward(y, end_cell.y, y_inc);
                    if rx >= ry { rx } else { ry }
                }),
                forall|k: int| 0 <= k < cells@.len() ==> {
                    &&& in_box(#[trigger] cells@[k], start_cell, end_cell)
                    &&& self.start_cell != Some(cells@[k])
                    &&& cheb_dist(cells@[k], end_cell) >= cheb_dist(Cell { x, y }, end_cell)
                },
                forall|k1: int, k2: int| 0 <= k1 < k2 < cells@.len()
                    ==> cheb_dist(#[trigger] cells@[k1], end_cell)
                        > cheb_dist(#[trigger] cells@[k2], end_cell),
                cells@.len() + skipped == c0 - cheb_dist(Cell { x, y }, end_cell) + 1,
                skipped == 0 || skipped == 1,
                skipped == 1 ==> (self.start_cell matches Some(e) && in_box(e, start_cell, end_cell)
                    && cheb_dist(e, end_cell) >= cheb_dist(Cell { x, y }, end_cell)),
                self.start_cell != Some(start_cell) ==> cells@.contains(start_cell),
                self.start_cell == Some(start_cell) ==> skipped == 1,
                cheb_dist(Cell { x, y }, end_cell) == 0
                    ==> (self.start_cell != Some(end_cell) ==> cells@.contains(end_cell)),
                cheb_dist(Cell { x, y }, end_cell) == 0
                    ==> (self.start_cell == Some(end_cell) ==> skipped == 1),
            decreases cheb_dist(Cell { x, y }, end_cell),
        {
            let ghost rx = rem_toward(x, end_cell.x, x_inc);
            let ghost ry = rem_toward(y, end_cell.y, y_inc);
            let ghost old_rem = cheb_dist(Cell { x, y }, end_cell);
            proof {
                assert(0 <= rx <= a && 0 <= ry <= b);
                assert(rx + ry > 0);
                lemma_raster_step(a, b, rx, ry);
            }
            let e2: i64 = 2 * err;
            let ghost xf = e2 as int >= -b;
            let ghost yf = e2 as int <= a;
            proof {
                assert(e2 as int == 2 * (a - b + (b * rx - a * ry)));
                assert(xf == (2 * (a - b + (b * rx - a * ry)) >= -b));
                assert(yf == (2 * (a - b + (b * rx - a * ry)) <= a));
                assert(xf ==> rx >= 1);
                assert(yf ==> ry >= 1);
            }
            if e2 >= -(ay as i64) {
                err = err - ay as i64;
                x = if x_inc { x + 1 } else { x - 1 };
            }
            if e2 <= ax as i64 {
                err = err + ax as i64;
                y = if y_inc { y + 1 } else { y - 1 };
            }
            let ghost rx2 = rem_toward(x, end_cell.x, x_inc);
            let ghost ry2 = rem_toward(y, end_cell.y, y_inc);
            proof {
                assert(rx2 == if xf { rx - 1 } else { rx });
                assert(ry2 == if yf { ry - 1 } else { ry });
                assert(b * (rx - 1) == b * rx - b) by (nonlinear_arith);
                assert(a * (ry - 1) == a * ry - a) by (nonlinear_arith);
                assert(err as int == a - b + b * rx2 - a * ry2);
                assert(cheb_dist(Cell { x, y }, end_cell) == old_rem - 1);
            }
            let cur = Cell::new(x, y);
            let ghost prev = cells@;
            if !self.is_endpoint(&cur) {
                cells.push(cur);
                proof {
                    assert(forall|k: int| 0 <= k < prev.len() ==> cells@[k] == prev[k]);
                    assert(cells@[prev.len() as int] == cur);
                    assert(in_box(cur, start_cell, end_cell));
                    assert(cheb_dist(cur, end_cell) == old_rem - 1);
                }
            } else {
                proof {
                    assert(self.start_cell == Some(cur));
                    if skipped == 1 {
                        // The marker was already skipped at a strictly
                        // greater remaining distance, so it cannot be the
                        // current cell again.
                        assert(cheb_dist(cur, end_cell) >= old_rem);
                        assert(false);
                    }
                    skipped = 1;
                }
            }
            proof {
                if cheb_dist(Cell { x, y }, end_cell) == 0 {
                    assert(cur == end_cell);
                }
                if self.start_cell != Some(start_cell) {
                    assert(prev.contains(start_cell));
                    let k = choose|k: int| 0 <= k < prev.len() && prev[k] == start_cell;
                    assert(cells@[k] == start_cell);
                }
            }
        }
        proof {
            let rem = cheb_dist(Cell { x, y }, end_cell);
            assert(rem == 0);
            assert(cells@.len() + skipped == c0 + 1);
            assert(cells@.no_duplicates()) by {
                assert forall|k1: int, k2: int|
                    0 <= k1 < cells@.len() && 0 <= k2 < cells@.len() && k1 != k2
                    implies cells@[k1] != cells@[k2] by {
                    if k1 < k2 {
                        assert(cheb_dist(cells@[k1], end_cell) > cheb_dist(cells@[k2], end_cell));
                    } else {
                        assert(cheb_dist(cells@[k2], end_cell) > cheb_dist(cells@[k1], end_cell));
                    }
                }
            }
            assert forall|c: Cell| #[trigger] cells@.contains(c)
                implies in_box(c, start_cell, end_cell) && self.start_cell != Some(c)
                    && self.in_bounds(c) by {
                let k = choose|k: int| 0 <= k < cells@.len() && cells@[k] == c;
                assert(in_box(cells@[k], start_cell, end_cell));
            }
            if self.start_cell == Some(start_cell) || self.start_cell == Some(end_cell) {
                assert(skipped == 1);
            }
        }
        cells
    }

    /// One of the four L-shape patterns around `c`: its horizontal
    /// neighbor on side `sx` and vertical neighbor on side `sy` are both
    /// in-bounds plain (`Green`) obstacles, and the diagonal cell
    /// completing that 2 x 2 block is in bounds and free.
    pub open spec fn pink_pattern(self, c: Cell, sx: int, sy: int) -> bool {
        let h = cell_at(c.x + sx, c.y as int);
        let v = cell_at(c.x as int, c.y + sy);
        let o = cell_at(c.x + sx, c.y + sy);
        &&& self.in_bounds(h) && self.green(h)
        &&& self.in_bounds(v) && self.green(v)
        &&& self.in_bounds(o) && !self.occupied(o)
    }

    /// The matcher's answer: `None` for an occupied cell; otherwise the
    /// first of the four corner patterns that matches, tested in the fixed
    /// order bottom-right, top-left, bottom-left, top-right opposite.
    pub open spec fn spec_pink_match(self, c: Cell) -> Option<(Cell, Cell)> {
        if self.occupied(c) {
            None
        } else if self.pink_pattern(c, 1, 1) {
            Some((c, cell_at(c.x + 1, c.y + 1)))
        } else if self.pink_pattern(c, -1, -1) {
            Some((c, cell_at(c.x - 1, c.y - 1)))
        } else if self.pink_pattern(c, -1, 1) {
            Some((c, cell_at(c.x - 1, c.y + 1)))
        } else if self.pink_pattern(c, 1, -1) {
            Some((c, cell_at(c.x + 1, c.y - 1)))
        } else {
            None
        }
    }

    /// If the clicked cell and a diagonal opposite form a valid pink
    /// pattern, returns the pair `(clicked, opposite)`; otherwise `None`.
    pub fn find_pink_diagonal_match(&self, cell: &Cell) -> (r: Option<(Cell, Cell)>)
        requires
            self.wf(),
            self.in_bounds(*cell),
        ensures
            r == self.spec_pink_match(*cell),
    {
        if self.is_cell_occupied(cell) {
            return None;
        }

        let right = Cell::new(cell.x + 1, cell.y);
        let down = Cell::new(cell.x, cell.y + 1);
        let opposite = Cell::new(cell.x + 1, cell.y + 1);
        if self.contains(&right) && self.is_green_cell(&right)
            && self.contains(&down) && self.is_green_cell(&down)
            && self.contains(&opposite) && !self.is_cell_occupied(&opposite) {
            return Some((*cell, opposite));
        }

        let left = Cell::new(cell.x - 1, cell.y);
        let up = Cell::new(cell.x, cell.y - 1);
        let opposite = Cell::new(cell.x - 1, cell.y - 1);
        if self.contains(&left) && self.is_green_cell(&left)
            && self.contains(&up) && self.is_green_cell(&up)
            && self.contains(&opposite) && !self.is_cell_occupied(&opposite) {
            return Some((*cell, opposite));
        }

        let left = Cell::new(cell.x - 1, cell.y);
        let down = Cell::new(cell.x, cell.y + 1);
        let opposite = Cell::new(cell.x - 1, cell.y + 1);
        if self.contains(&left) && self.is_green_cell(&left)
            && self.contains(&down) && self.is_green_cell(&down)
            && self.contains(&opposite) && !self.is_cell_occupied(&opposite) {
            return Some((*cell, opposite));
        }

        let up = Cell::new(cell.x, cell.y - 1);
        let right = Cell::new(cell.x + 1, cell.y);
        let opposite = Cell::new(cell.x + 1, cell.y - 1);
        if self.contains(&up) && self.is_green_cell(&up)
            && self.contains(&right) && self.is_green_cell(&right)
            && self.contains(&opposite) && !self.is_cell_occupied(&opposite) {
            return Some((*cell, opposite));
        }

        None
    }

    /// On a matching click, marks both the clicked cell and its diagonal
    /// opposite `Pink` and records the link in both directions; otherwise
    /// leaves the grid unchanged.
    pub fn handle_add_pink_pair_constraint(&mut self, clicked: Option<Cell>)
        requires
            old(self).wf(),
            clicked matches Some(c) ==> old(self).in_bounds(c),
        ensures
            final(self).wf(),
            match clicked {
                None => *final(self) == *old(self),
                Some(c) => match old(self).spec_pink_match(c) {
                    None => *final(self) == *old(self),
                    Some((c1, c2)) => {
                        &&& final(self).filled_cells@ == old(self).filled_cells@
                            .insert(c1, CellType::Pink).insert(c2, CellType::Pink)
                        &&& final(self).pink_pair_map@ == old(self).pink_pair_map@
                            .insert(c1, c2).insert(c2, c1)
                        &&& final(self).filled_cells.wf()
                        &&& final(self).pink_pair_map.wf()
                        &&& final(self).width == old(self).width
                        &&& final(self).height == old(self).height
                        &&& final(self).start_cell == old(self).start_cell
                        &&& final(self).end_cell == old(self).end_cell
                        &&& final(self).paths == old(self).paths
                        &&& final(self).line_segment_start == old(self).line_segment_start
                    },
                },
            },
    {
        if let Some(c) = clicked {
            match self.find_pink_diagonal_match(&c) {
                Some((c1, c2)) => {
                    proof {
                        // The matched cells are free, hence unlinked.
                        assert(!old(self).pink_pair_map@.contains_key(c1));
                        assert(!old(self).pink_pair_map@.contains_key(c2));
                        assert(c1 != c2);
                    }
                    self.filled_cells.insert(c1, CellType::Pink);
                    self.filled_cells.insert(c2, CellType::Pink);
                    self.pink_pair_map.insert(c1, c2);
                    self.pink_pair_map.insert(c2, c1);
                }
                None => {}
            }
        }
    }

    /// On a click on a linked `Pink` cell, removes both directions of the
    /// link and frees both cells; any other click leaves the grid
    /// unchanged (in particular a `Pink` cell without a recorded partner).
    pub fn handle_remove_pink_pair_constraint(&mut self, clicked: Option<Cell>)
        requires
            old(self).wf(),
            clicked matches Some(c) ==> old(self).in_bounds(c),
        ensures
            final(self).wf(),
            match clicked {
                None => *final(self) == *old(self),
                Some(c) => {
                    if old(self).pink(c) && old(self).pink_pair_map@.contains_key(c) {
                        let p = old(self).pink_pair_map@[c];
                        &&& final(self).filled_cells@ == old(self).filled_cells@.remove(c).remove(p)
                        &&& final(self).pink_pair_map@ == old(self).pink_pair_map@.remove(c).remove(p)
                        &&& final(self).filled_cells.wf()
                        &&& final(self).pink_pair_map.wf()
                        &&& final(self).width == old(self).width
                        &&& final(self).height == old(self).height
                        &&& final(self).start_cell == old(self).start_cell
                        &&& final(self).end_cell == old(self).end_cell
                        &&& final(self).paths == old(self).paths
                        &&& final(self).line_segment_start == old(self).line_segment_start
                    } else {
                        *final(self) == *old(self)
                    }
                },
            },
    {
        if let Some(c) = clicked {
            if self.is_pink_cell(&c) {
                if let Some(p) = self.pink_pair_map.remove(c) {
                    self.pink_pair_map.remove(p);
                    self.filled_cells.remove(c);
                    self.filled_cells.remove(p);
                }
            }
        }
    }

    /// What stitching one section's edge list yields on this grid: the
    /// successor map is the edge list folded left-to-right (a later
    /// duplicate `from` overrides an earlier one), the walk from the
    /// start marker is bounded by the number of edges, and the resulting
    /// path must be admissible for the grid.
    pub open spec fn spec_stitch(self, links: Seq<(Cell, Cell)>) -> Result<Seq<Cell>, AppError> {
        if self.start_cell is None {
            Err(AppError::StartNotSet)
        } else if self.end_cell is None {
            Err(AppError::EndNotSet)
        } else {
            match walk_spec(crate::store::map_of(links), self.start_cell->0, self.end_cell->0,
                links.len()) {
                None => Err(AppError::InvalidPath),
                Some(p) => if self.path_ok(p) {
                    Ok(p)
                } else {
                    Err(AppError::InvalidPath)
                },
            }
        }
    }

    /// Reconstructs the unique ordered walk from the grid's start marker
    /// to its end marker out of one section's unordered directed edge
    /// list, tagging it with the section index `id`.  Fails with the
    /// missing-endpoint errors when a marker is unset, and with the
    /// invalid-path error when the edges do not connect the markers
    /// (including by running in a cycle), or when the walk would leave
    /// the grid or make a non-adjacent hop.
    pub fn path_from_links(&self, links: &Vec<(Cell, Cell)>, id: usize) -> (r: Result<Path, AppError>)
        requires
            self.wf(),
        ensures
            match r {
                Ok(p) => self.spec_stitch(links@) == Ok::<Seq<Cell>, AppError>(p@) && p.id == id
                    && self.path_ok(p@),
                Err(e) => self.spec_stitch(links@) == Err::<Seq<Cell>, AppError>(e),
            },
    {
        let start = match self.start_cell {
            Some(c) => c,
            None => {
                return Err(AppError::StartNotSet);
            }
        };
        let end = match self.end_cell {
            Some(c) => c,
            None => {
                return Err(AppError::EndNotSet);
            }
        };

        let mut succ: CellMap<Cell> = CellMap::new();
        let mut i: usize = 0;
        while i < links.len()
            invariant
                succ.wf(),
                succ@ == crate::store::map_of(links@.take(i as int)),
                i <= links@.len(),
            decreases links@.len() - i,
        {
            let l = links[i];
            succ.insert(l.0, l.1);
            proof {
                assert(links@.take(i + 1).drop_last() =~= links@.take(i as int));
                assert(links@.take(i + 1).last() == l);
                assert(links@.take(i + 1).len() == i + 1);
            }
            i = i + 1;
        }
        proof {
            assert(links@.take(links@.len() as int) =~= links@);
        }

        let ghost total = walk_spec(succ@, start, end, links@.len() as nat);
        let mut cells: Vec<Cell> = Vec::new();
        let mut cur = start;
        let mut fuel: usize = links.len();
        while !(cur.x == end.x && cur.y == end.y)
            invariant
                self.wf(),
                self.start_cell == Some(start),
                self.end_cell == Some(end),
                succ.wf(),
                succ@ == crate::store::map_of(links@),
                total == walk_spec(succ@, start, end, links@.len() as nat),
                fuel <= links@.len(),
                total == match walk_spec(succ@, cur, end, fuel as nat) {
                    None => None::<Seq<Cell>>,
                    Some(t) => Some(cells@ + t),
                },
            decreases fuel,
        {
            proof {
                assert(cur != end);
            }
            if fuel == 0 {
                proof {
                    assert(total is None);
                }
                return Err(AppError::InvalidPath);
            }
            match succ.get(cur) {
                None => {
                    proof {
                        assert(total is None);
                    }
                    return Err(AppError::InvalidPath);
                }
                Some(next) => {
                    let ghost prev_cells = cells@;
                    cells.push(cur);
                    proof {
                        assert(walk_spec(succ@, cur, end, fuel as nat)
                            == match walk_spec(succ@, next, end, (fuel - 1) as nat) {
                                None => None::<Seq<Cell>>,
                                Some(t) => Some(seq![cur] + t),
                            });
                        assert forall|t: Seq<Cell>| true
                            implies prev_cells + (seq![cur] + t) =~= cells@ + t by {
                            assert(cells@ == prev_cells.push(cur));
                        }
                    }
                    cur = next;
                    fuel = fuel - 1;
                }
            }
        }
        proof {
            assert(cur == end);
            assert(walk_spec(succ@, cur, end, fuel as nat) == Some(seq![end]));
        }
        let ghost prev_cells = cells@;
        cells.push(end);
        proof {
            assert(cells@ =~= prev_cells + seq![end]);
            assert(total == Some(cells@));
        }

        // Hold the walk to the grid's path invariants: in bounds, and
        // 8-connected between consecutive cells.
        let mut j: usize = 0;
        while j < cells.len()
            invariant
                self.start_cell == Some(start),
                self.end_cell == Some(end),
                total == walk_spec(crate::store::map_of(links@), start, end, links@.len() as nat),
                total == Some(cells@),
                j <= cells@.len(),
                forall|k: int| 0 <= k < j ==> self.in_bounds(#[trigger] cells@[k]),
                forall|k: int| 0 <= k < j && k < cells@.len() - 1
                    ==> adjacent8(#[trigger] cells@[k], cells@[k + 1]),
                self.wf(),
            decreases cells@.len() - j,
        {
            let c = cells[j];
            if !self.contains(&c) {
                proof {
                    assert(!self.path_ok(cells@));
                }
                return Err(AppError::InvalidPath);
            }
            if j + 1 < cells.len() {
                let d = cells[j + 1];
                let dx: usize = if c.x >= d.x { c.x - d.x } else { d.x - c.x };
                let dy: usize = if c.y >= d.y { c.y - d.y } else { d.y - c.y };
                let adj = (dx == 1 && dy <= 1) || (dy == 1 && dx <= 1);
                proof {
                    assert(adj == adjacent8(cells@[j as int], cells@[j as int + 1]));
                }
                if !adj {
                    proof {
                        assert(!self.path_ok(cells@));
                    }
                    return Err(AppError::InvalidPath);
                }
            }
            j = j + 1;
        }
        proof {
            assert(self.path_ok(cells@));
        }
        Ok(Path::new(cells, id))
    }

    /// Stitching every section in order, first error wins: either every
    /// section's edge list yields an admissible walk, or the whole
    /// reconstruction fails with the first section's error.
    pub open spec fn spec_stitch_all(self, secs: Seq<Seq<(Cell, Cell)>>) -> Result<
        Seq<Seq<Cell>>,
        AppError,
    >
        decreases secs.len(),
    {
        if secs.len() == 0 {
            Ok(seq![])
        } else {
            match self.spec_stitch(secs[0]) {
                Err(e) => Err(e),
                Ok(p) => match self.spec_stitch_all(secs.subrange(1, secs.len() as int)) {
                    Err(e) => Err(e),
                    Ok(rest) => Ok(seq![p] + rest),
                },
            }
        }
    }

    /// Parses a whole solver response and replaces the grid's paths with
    /// the reconstruction of every section found in it, tagged with
    /// their section indices.  All-or-nothing: a scan failure or any
    /// failing section leaves the stored paths untouched and reports the
    /// first error.  A response without sections yields an empty path
    /// list.  Parsed coordinates are used as they stand: the grid and
    /// the solver share the same 1-based convention.
    pub fn parse_all_paths(&mut self, output: &str) -> (r: Result<(), AppError>)
        requires
            old(self).wf(),
        ensures
            final(self).wf(),
            final(self).width == old(self).width,
            final(self).height == old(self).height,
            final(self).filled_cells == old(self).filled_cells,
            final(self).pink_pair_map == old(self).pink_pair_map,
            final(self).start_cell == old(self).start_cell,
            final(self).end_cell == old(self).end_cell,
            final(self).line_segment_start == old(self).line_segment_start,
            match crate::parser::spec_output(output.spec_bytes(), 0) {
                None => r == Err::<(), AppError>(AppError::InvalidPath)
                    && final(self).paths == old(self).paths,
                Some((_, secs)) => match old(self).spec_stitch_all(secs) {
                    Err(e) => r == Err::<(), AppError>(e) && final(self).paths == old(self).paths,
                    Ok(ps) => {
                        &&& r == Ok::<(), AppError>(())
                        &&& final(self).paths matches Some(v) && v@.len() == ps.len()
                            && (forall|k: int| 0 <= k < v@.len()
                                ==> (#[trigger] v@[k])@ == ps[k] && v@[k].id == k)
                    },
                },
            },
    {
        let sections = match crate::parser::parse_neos_output(output) {
            None => {
                return Err(AppError::InvalidPath);
            }
            Some(v) => v,
        };
        let ghost secs = crate::parser::spec_output(output.spec_bytes(), 0)->Some_0.1;
        proof {
            assert(crate::parser::sections_of(sections@) == secs);
        }
        let mut paths: Vec<Path> = Vec::new();
        let mut i: usize = 0;
        proof {
            assert(secs.subrange(0, secs.len() as int) =~= secs);
            match old(self).spec_stitch_all(secs) {
                Err(_) => {}
                Ok(rest) => {
                    assert(paths_views(paths@) + rest =~= rest);
                }
            }
        }
        while i < sections.len()
            invariant
                *self == *old(self),
                old(self).wf(),
                i <= sections@.len(),
                crate::parser::spec_output(output.spec_bytes(), 0) is Some,
                crate::parser::spec_output(output.spec_bytes(), 0)->Some_0.1 == secs,
                crate::parser::sections_of(sections@) == secs,
                secs.len() == sections@.len(),
                paths@.len() == i,
                old(self).spec_stitch_all(secs) == match old(self).spec_stitch_all(
                    secs.subrange(i as int, secs.len() as int),
                ) {
                    Err(e) => Err::<Seq<Seq<Cell>>, AppError>(e),
                    Ok(rest) => Ok(paths_views(paths@) + rest),
                },
                forall|k: int| 0 <= k < i ==> (#[trigger] paths@[k]).id == k,
                forall|k: int| 0 <= k < i ==> old(self).path_ok((#[trigger] paths@[k])@),
            decreases sections@.len() - i,
        {
            let ghost suffix = secs.subrange(i as int, secs.len() as int);
            proof {
                assert(suffix[0] == secs[i as int]);
                assert(sections@[i as int]@ == secs[i as int]);
                assert(suffix.subrange(1, suffix.len() as int)
                    =~= secs.subrange(i + 1, secs.len() as int));
            }
            match self.path_from_links(&sections[i], i) {
                Err(e) => {
                    proof {
                        assert(old(self).spec_stitch(suffix[0]) == Err::<Seq<Cell>, AppError>(e));
                        assert(old(self).spec_stitch_all(suffix)
                            == Err::<Seq<Seq<Cell>>, AppError>(e));
                    }
                    return Err(e);
                }
                Ok(p) => {
                    let ghost prev = paths@;
                    paths.push(p);
                    proof {
                        assert(paths_views(paths@) =~= paths_views(prev).push(p@));
                        match old(self).spec_stitch_all(secs.subrange(i + 1, secs.len() as int)) {
                            Err(_) => {}
                            Ok(rest) => {
                                assert(paths_views(prev) + (seq![p@] + rest)
                                    =~= paths_views(paths@) + rest);
                            }
                        }
                    }
                }
            }
            i = i + 1;
        }
        proof {
            assert(secs.subrange(secs.len() as int, secs.len() as int)
                =~= Seq::<Seq<(Cell, Cell)>>::empty());
            assert(old(self).spec_stitch_all(Seq::<Seq<(Cell, Cell)>>::empty())
                == Ok::<Seq<Seq<Cell>>, AppError>(seq![]));
            match old(self).spec_stitch_all(secs) {
                Err(_) => {}
                Ok(ps) => {
                    assert(paths_views(paths@) + seq![] =~= paths_views(paths@));
                    assert(ps == paths_views(paths@));
                }
            }
        }
        self.paths = Some(paths);
        Ok(())
    }

    /// Consumes one gesture frame in draw mode: rasterizes the segment
    /// from the previous pointer sample to the current one (when both
    /// resolve to cells) and draws each touched cell as a `Green`
    /// obstacle, never overwriting a `Pink` cell's category.  The
    /// previous sample is replaced by `pointer` regardless.
    pub fn handle_adding_cells(&mut self, pointer: Option<Cell>)
        requires
            old(self).wf(),
            pointer matches Some(c) ==> old(self).in_bounds(c),
        ensures
            final(self).wf(),
            final(self).line_segment_start == pointer,
            final(self).width == old(self).width,
            final(self).height == old(self).height,
            final(self).start_cell == old(self).start_cell,
            final(self).end_cell == old(self).end_cell,
            final(self).paths == old(self).paths,
            final(self).pink_pair_map == old(self).pink_pair_map,
            match (old(self).line_segment_start, pointer) {
                (Some(sc), Some(ec)) => exists|cs: Seq<Cell>|
                    #[trigger] raster_post(*old(self), sc, ec, cs)
                    && final(self).filled_cells@ == add_green(old(self).filled_cells@, cs),
                _ => final(self).filled_cells == old(self).filled_cells,
            },
            forall|c: Cell| old(self).pink(c) ==> final(self).pink(c),
            forall|c: Cell| old(self).occupied(c) ==> final(self).occupied(c),
    {
        let prev_sample = self.line_segment_start;
        if let (Some(sc), Some(ec)) = (prev_sample, pointer) {
            let cs = self.bresenham_cells(sc, ec);
            let ghost m = self.filled_cells@;
            let mut i: usize = 0;
            while i < cs.len()
                invariant
                    old(self).wf(),
                    raster_post(*old(self), sc, ec, cs@),
                    m == old(self).filled_cells@,
                    i <= cs@.len(),
                    self.filled_cells.wf(),
                    self.filled_cells@ == add_green(m, cs@.take(i as int)),
                    self.width == old(self).width,
                    self.height == old(self).height,
                    self.start_cell == old(self).start_cell,
                    self.end_cell == old(self).end_cell,
                    self.paths == old(self).paths,
                    self.pink_pair_map == old(self).pink_pair_map,
                    self.line_segment_start == old(self).line_segment_start,
                decreases cs@.len() - i,
            {
                let c = cs[i];
                proof {
                    assert(!cs@.take(i as int).contains(c)) by {
                        if cs@.take(i as int).contains(c) {
                            let k = choose|k: int|
                                0 <= k < i && cs@.take(i as int)[k] == c;
                            assert(cs@[k] == cs@[i as int]);
                        }
                    }
                    lemma_add_green_at(m, cs@.take(i as int), c);
                }
                let t = self.filled_cells.get(c);
                let is_p = match t {
                    Some(tt) => matches!(tt, CellType::Pink),
                    None => false,
                };
                if !is_p {
                    self.filled_cells.insert(c, CellType::Green);
                }
                proof {
                    assert(cs@.take(i + 1).drop_last() =~= cs@.take(i as int));
                    assert(cs@.take(i + 1).last() == c);
                    assert(cs@.take(i + 1).len() == i + 1);
                    assert(add_green(m, cs@.take(i + 1)) == if m.contains_key(c)
                        && m[c] == CellType::Pink {
                        add_green(m, cs@.take(i as int))
                    } else {
                        add_green(m, cs@.take(i as int)).insert(c, CellType::Green)
                    });
                }
                i = i + 1;
            }
            proof {
                assert(cs@.take(cs@.len() as int) =~= cs@);
            }
        }
        self.line_segment_start = pointer;
        proof {
            if old(self).line_segment_start is Some && pointer is Some {
                let sc = old(self).line_segment_start->0;
                let ec = pointer->0;
                let cs = choose|cs: Seq<Cell>| #[trigger] raster_post(*old(self), sc, ec, cs)
                    && final(self).filled_cells@ == add_green(old(self).filled_cells@, cs);
                assert forall|c: Cell| #[trigger] final(self).filled_cells@.contains_key(c)
                    implies final(self).in_bounds(c) by {
                    lemma_add_green_at(old(self).filled_cells@, cs, c);
                }
                assert forall|c: Cell| old(self).pink(c) implies final(self).pink(c) by {
                    lemma_add_green_at(old(self).filled_cells@, cs, c);
                }
                assert forall|c: Cell| old(self).occupied(c) implies final(self).occupied(c) by {
                    lemma_add_green_at(old(self).filled_cells@, cs, c);
                }
            }
        }
    }

    /// Consumes one gesture frame in erase mode: rasterizes the segment
    /// between the two pointer samples and frees each touched cell —
    /// except `Pink` cells, which survive freehand erasing and can only
    /// be removed through the explicit pair removal.  The previous
    /// sample is replaced by `pointer` regardless.
    pub fn handle_removing_cells(&mut self, pointer: Option<Cell>)
        requires
            old(self).wf(),
            pointer matches Some(c) ==> old(self).in_bounds(c),
        ensures
            final(self).wf(),
            final(self).line_segment_start == pointer,
            final(self).width == old(self).width,
            final(self).height == old(self).height,
            final(self).start_cell == old(self).start_cell,
            final(self).end_cell == old(self).end_cell,
            final(self).paths == old(self).paths,
            final(self).pink_pair_map == old(self).pink_pair_map,
            match (old(self).line_segment_start, pointer) {
                (Some(sc), Some(ec)) => exists|cs: Seq<Cell>|
                    #[trigger] raster_post(*old(self), sc, ec, cs)
                    && final(self).filled_cells@ == erase_soft(old(self).filled_cells@, cs),
                _ => final(self).filled_cells == old(self).filled_cells,
            },
            forall|c: Cell| old(self).pink(c) ==> final(self).pink(c),
            forall|c: Cell| final(self).occupied(c) ==> old(self).occupied(c),
    {
        let prev_sample = self.line_segment_start;
        if let (Some(sc), Some(ec)) = (prev_sample, pointer) {
            let cs = self.bresenham_cells(sc, ec);
            let ghost m = self.filled_cells@;
            let mut i: usize = 0;
            while i < cs.len()
                invariant
                    old(self).wf(),
                    raster_post(*old(self), sc, ec, cs@),
                    m == old(self).filled_cells@,
                    i <= cs@.len(),
                    self.filled_cells.wf(),
                    self.filled_cells@ == erase_soft(m, cs@.take(i as int)),
                    self.width == old(self).width,
                    self.height == old(self).height,
                    self.start_cell == old(self).start_cell,
                    self.end_cell == old(self).end_cell,
                    self.paths == old(self).paths,
                    self.pink_pair_map == old(self).pink_pair_map,
                    self.line_segment_start == old(self).line_segment_start,
                decreases cs@.len() - i,
            {
                let c = cs[i];
                proof {
                    assert(!cs@.take(i as int).contains(c)) by {
                        if cs@.take(i as int).contains(c) {
                            let k = choose|k: int|
                                0 <= k < i && cs@.take(i as int)[k] == c;
                            assert(cs@[k] == cs@[i as int]);
                        }
                    }
                    lemma_erase_soft_at(m, cs@.take(i as int), c);
                }
                let t = self.filled_cells.get(c);
                let erase_here = match t {
                    Some(tt) => !matches!(tt, CellType::Pink),
                    None => false,
                };
                if erase_here {
                    self.filled_cells.remove(c);
                }
                proof {
                    assert(cs@.take(i + 1).drop_last() =~= cs@.take(i as int));
                    assert(cs@.take(i + 1).last() == c);
                    assert(cs@.take(i + 1).len() == i + 1);
                    assert(erase_soft(m, cs@.take(i + 1)) == if m.contains_key(c)
                        && m[c] != CellType::Pink {
                        erase_soft(m, cs@.take(i as int)).remove(c)
                    } else {
                        erase_soft(m, cs@.take(i as int))
                    });
                }
                i = i + 1;
            }
            proof {
                assert(cs@.take(cs@.len() as int) =~= cs@);
            }
        }
        self.line_segment_start = pointer;
        proof {
            if old(self).line_segment_start is Some && pointer is Some {
                let sc = old(self).line_segment_start->0;
                let ec = pointer->0;
                let cs = choose|cs: Seq<Cell>| #[trigger] raster_post(*old(self), sc, ec, cs)
                    && final(self).filled_cells@ == erase_soft(old(self).filled_cells@, cs);
                assert forall|c: Cell| #[trigger] final(self).filled_cells@.contains_key(c)
                    implies final(self).in_bounds(c) by {
                    lemma_erase_soft_at(old(self).filled_cells@, cs, c);
                }
                assert forall|c: Cell| old(self).pink(c) implies final(self).pink(c) by {
                    lemma_erase_soft_at(old(self).filled_cells@, cs, c);
                }
                assert forall|c: Cell| final(self).occupied(c) implies old(self).occupied(c) by {
                    lemma_erase_soft_at(old(self).filled_cells@, cs, c);
                }
            }
        }
    }

    /// The set of unique unordered pairs recorded in the pair map: each
    /// physical pair appears exactly once, canonicalized by `cell_le`, in
    /// first-insertion order.
    pub fn unique_pink_pairs(&self) -> (r: Vec<(Cell, Cell)>)
        requires
            self.wf(),
        ensures
            r@.no_duplicates(),
            forall|p: (Cell, Cell)| #[trigger] r@.contains(p) ==> {
                &&& cell_le(p.0, p.1)
                &&& self.pink_pair_map@.contains_key(p.0)
                &&& self.pink_pair_map@[p.0] == p.1
            },
            forall|c: Cell| #[trigger] self.pink_pair_map@.contains_key(c)
                ==> r@.contains(canon_pair(c, self.pink_pair_map@[c])),
    {
        let es = self.pink_pair_map.entries();
        let mut r: Vec<(Cell, Cell)> = Vec::new();
        let mut i: usize = 0;
        while i < es.len()
            invariant
                self.wf(),
                es@ == self.pink_pair_map.kv_seq(),
                i <= es@.len(),
                r@.no_duplicates(),
                forall|p: (Cell, Cell)| #[trigger] r@.contains(p) ==> {
                    &&& cell_le(p.0, p.1)
                    &&& self.pink_pair_map@.contains_key(p.0)
                    &&& self.pink_pair_map@[p.0] == p.1
                },
                forall|j: int| 0 <= j < i
                    ==> r@.contains(canon_pair((#[trigger] es@[j]).0, es@[j].1)),
            decreases es@.len() - i,
        {
            let (a, b) = es[i];
            proof {
                crate::store::lemma_map_of_get(self.pink_pair_map.kv_seq(), es@[i as int].0, i as int);
                self.pink_pair_map.lemma_view();
            }
            let p = if a.x < b.x || (a.x == b.x && a.y <= b.y) { (a, b) } else { (b, a) };
            proof {
                // Both orientations of the entry are in the map, so the
                // canonical pair is map-linked in its first component.
                assert(self.pink_pair_map@.contains_key(a) && self.pink_pair_map@[a] == b);
                assert(self.pink_pair_map@.contains_key(b) && self.pink_pair_map@[b] == a);
                assert(p == canon_pair(a, b));
            }
            let mut found = false;
            let mut j: usize = 0;
            while j < r.len()
                invariant
                    j <= r@.len(),
                    found == exists|k: int| 0 <= k < j && r@[k] == p,
                decreases r@.len() - j,
            {
                if r[j].0 == p.0 && r[j].1 == p.1 {
                    proof {
                        assert(r@[j as int] == p);
                    }
                    found = true;
                }
                j = j + 1;
            }
            let ghost prev = r@;
            if !found {
                proof {
                    assert(!r@.contains(p));
                }
                r.push(p);
                proof {
                    assert(forall|k: int| 0 <= k < prev.len() ==> r@[k] == prev[k]);
                    assert(r@[prev.len() as int] == p);
                    assert(r@.no_duplicates());
                    assert forall|q: (Cell, Cell)| #[trigger] r@.contains(q) implies {
                        &&& cell_le(q.0, q.1)
                        &&& self.pink_pair_map@.contains_key(q.0)
                        &&& self.pink_pair_map@[q.0] == q.1
                    } by {
                        let k = choose|k: int| 0 <= k < r@.len() && r@[k] == q;
                        if k < prev.len() {
                            assert(prev.contains(q));
                        } else {
                            assert(q == p);
                        }
                    }
                }
            }
            proof {
                assert(r@.contains(p)) by {
                    if found {
                        let k = choose|k: int| 0 <= k < prev.len() && prev[k] == p;
                        assert(r@[k] == p);
                    }
                }
                assert forall|j: int| 0 <= j < i + 1
                    implies r@.contains(canon_pair((#[trigger] es@[j]).0, es@[j].1)) by {
                    if j < i {
                        let q = canon_pair(es@[j].0, es@[j].1);
                        assert(prev.contains(q));
                        let k = choose|k: int| 0 <= k < prev.len() && prev[k] == q;
                        assert(r@[k] == q);
                    } else {
                        assert(canon_pair(es@[j].0, es@[j].1) == p);
                    }
                }
            }
            i = i + 1;
        }
        proof {
            assert forall|c: Cell| #[trigger] self.pink_pair_map@.contains_key(c)
                implies r@.contains(canon_pair(c, self.pink_pair_map@[c])) by {
                self.pink_pair_map.lemma_view();
                crate::store::lemma_map_of_contains(self.pink_pair_map.kv_seq(), c);
                let j = choose|j: int| 0 <= j < self.pink_pair_map.kv_seq().len()
                    && (#[trigger] self.pink_pair_map.kv_seq()[j]).0 == c;
                crate::store::lemma_map_of_get(self.pink_pair_map.kv_seq(), c, j);
            }
        }
        r
    }

    /// The occupied cells that are not half of a pink pair, in insertion
    /// order: the plain obstacles a problem description disables.
    pub fn ordinary_cells(&self) -> (r: Vec<Cell>)
        requires
            self.wf(),
        ensures
            forall|c: Cell| #[trigger] r@.contains(c)
                <==> (self.occupied(c) && self.filled_cells@[c] != CellType::Pink),
    {
        let es = self.filled_cells.entries();
        let mut r: Vec<Cell> = Vec::new();
        let mut i: usize = 0;
        while i < es.len()
            invariant
                self.wf(),
                es@ == self.filled_cells.kv_seq(),
                i <= es@.len(),
                forall|c: Cell| #[trigger] r@.contains(c) ==> (self.occupied(c)
                    && self.filled_cells@[c] != CellType::Pink),
                forall|j: int| 0 <= j < i ==> ((#[trigger] es@[j]).1 != CellType::Pink
                    ==> r@.contains(es@[j].0)),
            decreases es@.len() - i,
        {
            let (c, t) = es[i];
            proof {
                crate::store::lemma_map_of_get(self.filled_cells.kv_seq(), es@[i as int].0, i as int);
                self.filled_cells.lemma_view();
            }
            let ghost prev = r@;
            if !matches!(t, CellType::Pink) {
                r.push(c);
                proof {
                    assert(forall|k: int| 0 <= k < prev.len() ==> r@[k] == prev[k]);
                    assert(r@[prev.len() as int] == c);
                    assert forall|q: Cell| #[trigger] r@.contains(q) implies (self.occupied(q)
                        && self.filled_cells@[q] != CellType::Pink) by {
                        let k = choose|k: int| 0 <= k < r@.len() && r@[k] == q;
                        if k < prev.len() {
                            assert(prev.contains(q));
                        } else {
                            assert(q == c);
                        }
                    }
                }
            }
            proof {
                assert forall|j: int| 0 <= j < i + 1 && (#[trigger] es@[j]).1 != CellType::Pink
                    implies r@.contains(es@[j].0) by {
                    if j < i {
                        assert(prev.contains(es@[j].0));
                        let k = choose|k: int| 0 <= k < prev.len() && prev[k] == es@[j].0;
                        assert(r@[k] == es@[j].0);
                    } else {
                        assert(r@[prev.len() as int] == c);
                    }
                }
            }
            i = i + 1;
        }
        proof {
            assert forall|c: Cell| (self.occupied(c) && self.filled_cells@[c] != CellType::Pink)
                implies r@.contains(c) by {
                self.filled_cells.lemma_view();
                crate::store::lemma_map_of_contains(self.filled_cells.kv_seq(), c);
                let j = choose|j: int| 0 <= j < self.filled_cells.kv_seq().len()
                    && (#[trigger] self.filled_cells.kv_seq()[j]).0 == c;
                crate::store::lemma_map_of_get(self.filled_cells.kv_seq(), c, j);
            }
        }
        r
    }
}

/// The remaining span toward coordinate `e` from `x`, walking in the
/// direction selected by `inc`.
pub open spec fn rem_toward(x: usize, e: usize, inc: bool) -> int {
    if inc {
        e - x
    } else {
        x - e
    }
}

/// What the rasterizer promises about its output `r` for a drag from `a`
/// to `b` on grid `f`: a duplicate-free set of cells confined to the
/// bounding box of `a` and `b` (hence in bounds), containing `a` and `b`
/// and having exactly `cheb_dist(a, b) + 1` cells — except that the
/// grid's designated start marker is never included, and its exclusion,
/// which can only happen when the marker lies in the bounding box, lowers
/// the count by exactly one.
pub open spec fn raster_post(f: Field, a: Cell, b: Cell, r: Seq<Cell>) -> bool {
    &&& r.no_duplicates()
    &&& forall|c: Cell| #[trigger] r.contains(c)
            ==> in_box(c, a, b) && f.start_cell != Some(c) && f.in_bounds(c)
    &&& (f.start_cell != Some(a) <==> r.contains(a))
    &&& (f.start_cell != Some(b) <==> r.contains(b))
    &&& (r.len() == cheb_dist(a, b) + 1
            || (r.len() == cheb_dist(a, b)
                && (f.start_cell matches Some(e) && in_box(e, a, b))))
    &&& (f.start_cell is None ==> r.len() == cheb_dist(a, b) + 1)
    &&& ((f.start_cell == Some(a) || f.start_cell == Some(b)) ==> r.len() == cheb_dist(a, b))
}

/// One step of the integer line-drawing loop, stated arithmetically.
/// `a` and `b` are the total coordinate spans, `rx` and `ry` the remaining
/// spans.  The branch tests are those of the loop, over the error value
/// `a - b + d` with deviation `d = b*rx - a*ry`.  Whenever the deviation
/// stays within half a step of the true line, the step advances every
/// axis that still lags, never overshoots, brings the Chebyshev distance
/// down by exactly one, and keeps the deviation bounded.
pub proof fn lemma_raster_step(a: int, b: int, rx: int, ry: int)
    requires
        0 <= rx <= a,
        0 <= ry <= b,
        rx + ry > 0,
        -(if a >= b { a } else { b }) <= 2 * (b * rx - a * ry),
        2 * (b * rx - a * ry) <= (if a >= b { a } else { b }),
    ensures
        ({
            let d = b * rx - a * ry;
            let xf = 2 * (a - b + d) >= -b;
            let yf = 2 * (a - b + d) <= a;
            let rx2 = if xf { rx - 1 } else { rx };
            let ry2 = if yf { ry - 1 } else { ry };
            &&& (xf ==> rx >= 1)
            &&& (yf ==> ry >= 1)
            &&& (xf || yf)
            &&& (if rx2 >= ry2 { rx2 } else { ry2 }) == (if rx >= ry { rx } else { ry }) - 1
            &&& -(if a >= b { a } else { b }) <= 2 * (b * rx2 - a * ry2)
            &&& 2 * (b * rx2 - a * ry2) <= (if a >= b { a } else { b })
        }),
{
    let d = b * rx - a * ry;
    let xf = 2 * (a - b + d) >= -b;
    let yf = 2 * (a - b + d) <= a;
    if a >= b {
        assert(rx >= ry) by (nonlinear_arith)
            requires
                0 <= rx <= a,
                0 <= ry <= b,
                rx + ry > 0,
                a >= b,
                -a <= 2 * (b * rx - a * ry),
        ;
        assert(rx >= 1);
        assert(2 * (a - b + (b * rx - a * ry)) >= -b) by (nonlinear_arith)
            requires
                a >= b,
                -a <= 2 * (b * rx - a * ry),
        ;
        assert(xf);
        if ry == rx {
            assert(2 * (a - b + (b * rx - a * ry)) <= a) by (nonlinear_arith)
                requires
                    ry == rx,
                    1 <= rx <= a,
                    a >= b,
                    b >= 0,
            ;
            assert(yf);
        }
        if ry == 0 {
            assert(2 * (a - b + (b * rx - a * 0)) > a) by (nonlinear_arith)
                requires
                    1 <= rx <= a,
                    b >= 0,
            ;
            assert(!yf);
        }
        if yf {
            assert(ry >= 1);
            assert(-a <= 2 * (b * (rx - 1) - a * (ry - 1)) <= a) by (nonlinear_arith)
                requires
                    a >= b,
                    b >= 0,
                    2 * (a - b + (b * rx - a * ry)) <= a,
                    -a <= 2 * (b * rx - a * ry),
            ;
        } else {
            assert(ry < rx);
            assert(-a <= 2 * (b * (rx - 1) - a * ry) <= a) by (nonlinear_arith)
                requires
                    a >= b,
                    b >= 0,
                    2 * (a - b + (b * rx - a * ry)) > a,
                    2 * (b * rx - a * ry) <= a,
            ;
        }
    } else {
        assert(ry >= rx) by (nonlinear_arith)
            requires
                0 <= rx <= a,
                0 <= ry <= b,
                rx + ry > 0,
                b > a,
                2 * (b * rx - a * ry) <= b,
        ;
        assert(ry >= 1);
        assert(2 * (a - b + (b * rx - a * ry)) <= a) by (nonlinear_arith)
            requires
                b > a,
                a >= 0,
                2 * (b * rx - a * ry) <= b,
        ;
        assert(yf);
        if rx == ry {
            assert(2 * (a - b + (b * rx - a * ry)) >= -b) by (nonlinear_arith)
                requires
                    rx == ry,
                    1 <= ry <= b,
                    b > a,
                    a >= 0,
            ;
            assert(xf);
        }
        if rx == 0 {
            assert(2 * (a - b + (b * 0 - a * ry)) < -b) by (nonlinear_arith)
                requires
                    1 <= ry <= b,
                    b > a,
                    a >= 0,
            ;
            assert(!xf);
        }
        if xf {
            assert(rx >= 1);
            assert(-b <= 2 * (b * (rx - 1) - a * (ry - 1)) <= b) by (nonlinear_arith)
                requires
                    b > a,
                    a >= 0,
                    2 * (a - b + (b * rx - a * ry)) >= -b,
                    2 * (b * rx - a * ry) <= b,
            ;
        } else {
            assert(rx < ry);
            assert(-b <= 2 * (b * rx - a * (ry - 1)) <= b) by (nonlinear_arith)
                requires
                    b > a,
                    a >= 0,
                    2 * (a - b + (b * rx - a * ry)) < -b,
                    -b <= 2 * (b * rx - a * ry),
            ;
        }
    }
}

/// The cell sequences denoted by a vector of reconstructed paths.
pub open spec fn paths_views(v: Seq<Path>) -> Seq<Seq<Cell>> {
    Seq::new(v.len(), |i: int| v[i]@)
}

/// The bounded walk through a successor map: starting at `cur`, follow
/// successors until `end` is reached, spending one unit of fuel per
/// lookup.  `None` when a cell other than `end` has no successor or the
/// fuel runs out — which is how a cyclic edge set that never reaches
/// `end` is rejected instead of looping forever.
pub open spec fn walk_spec(succ: Map<Cell, Cell>, cur: Cell, end: Cell, fuel: nat) -> Option<Seq<Cell>>
    decreases fuel,
{
    if cur == end {
        Some(seq![end])
    } else if fuel == 0 {
        None
    } else if !succ.contains_key(cur) {
        None
    } else {
        match walk_spec(succ, succ[cur], end, (fuel - 1) as nat) {
            None => None,
            Some(t) => Some(seq![cur] + t),
        }
    }
}

/// Stitcher soundness: a successful bounded walk is a non-empty cell
/// sequence that starts at the walk's origin, ends at the end cell,
/// follows the successor map at every step, and visits the end cell
/// only as its last element.
pub proof fn lemma_walk_spec_sound(succ: Map<Cell, Cell>, cur: Cell, end: Cell, fuel: nat)
    requires
        walk_spec(succ, cur, end, fuel) is Some,
    ensures
        ({
            let p = walk_spec(succ, cur, end, fuel)->Some_0;
            &&& p.len() >= 1
            &&& p[0] == cur
            &&& p[p.len() - 1] == end
            &&& forall|i: int| 0 <= i < p.len() - 1
                    ==> succ.contains_key(#[trigger] p[i]) && succ[p[i]] == p[i + 1]
            &&& forall|i: int| 0 <= i < p.len() - 1 ==> #[trigger] p[i] != end
        }),
    decreases fuel,
{
    if cur != end {
        lemma_walk_spec_sound(succ, succ[cur], end, (fuel - 1) as nat);
        let t = walk_spec(succ, succ[cur], end, (fuel - 1) as nat)->Some_0;
        let p = walk_spec(succ, cur, end, fuel)->Some_0;
        assert(p == seq![cur] + t);
        assert(forall|i: int| 0 <= i < t.len() ==> p[i + 1] == t[i]);
        assert(p[1] == t[0] && t[0] == succ[cur]);
        assert forall|i: int| 0 <= i < p.len() - 1
            implies succ.contains_key(#[trigger] p[i]) && succ[p[i]] == p[i + 1] by {
            if i > 0 {
                assert(p[i] == t[i - 1] && p[i + 1] == t[i]);
            }
        }
        assert forall|i: int| 0 <= i < p.len() - 1 implies #[trigger] p[i] != end by {
            if i > 0 {
                assert(p[i] == t[i - 1]);
            }
        }
    }
}

/// The classification store after drawing over the cells of `cs`, in
/// order: each touched cell becomes a `Green` obstacle, except that a
/// cell already categorized `Pink` keeps its category — pairing is only
/// created or destroyed by the matcher.
pub open spec fn add_green(m: Map<Cell, CellType>, cs: Seq<Cell>) -> Map<Cell, CellType>
    decreases cs.len(),
{
    if cs.len() == 0 {
        m
    } else {
        let m2 = add_green(m, cs.drop_last());
        let c = cs.last();
        if m.contains_key(c) && m[c] == CellType::Pink {
            m2
        } else {
            m2.insert(c, CellType::Green)
        }
    }
}

/// The classification store after erasing over the cells of `cs`: each
/// touched cell is freed, except that `Pink` cells survive freehand
/// erasing and can only be removed through the explicit pair removal.
pub open spec fn erase_soft(m: Map<Cell, CellType>, cs: Seq<Cell>) -> Map<Cell, CellType>
    decreases cs.len(),
{
    if cs.len() == 0 {
        m
    } else {
        let m2 = erase_soft(m, cs.drop_last());
        let c = cs.last();
        if m.contains_key(c) && m[c] != CellType::Pink {
            m2.remove(c)
        } else {
            m2
        }
    }
}

/// Pointwise description of `add_green` at one cell.
pub proof fn lemma_add_green_at(m: Map<Cell, CellType>, cs: Seq<Cell>, c: Cell)
    ensures
        add_green(m, cs).contains_key(c) <==> (m.contains_key(c) || cs.contains(c)),
        !cs.contains(c) ==> (add_green(m, cs).contains_key(c) == m.contains_key(c)
            && (m.contains_key(c) ==> add_green(m, cs)[c] == m[c])),
        (m.contains_key(c) && m[c] == CellType::Pink)
            ==> (add_green(m, cs).contains_key(c) && add_green(m, cs)[c] == CellType::Pink),
        (cs.contains(c) && !(m.contains_key(c) && m[c] == CellType::Pink))
            ==> (add_green(m, cs).contains_key(c) && add_green(m, cs)[c] == CellType::Green),
        (m.contains_key(c) && !cs.contains(c)) ==> add_green(m, cs)[c] == m[c],
    decreases cs.len(),
{
    if cs.len() > 0 {
        lemma_add_green_at(m, cs.drop_last(), c);
        if cs.contains(c) {
            let k = choose|k: int| 0 <= k < cs.len() && cs[k] == c;
            if k < cs.len() - 1 {
                assert(cs.drop_last()[k] == c);
                assert(cs.drop_last().contains(c));
            }
        }
        if cs.drop_last().contains(c) {
            let k = choose|k: int| 0 <= k < cs.drop_last().len() && cs.drop_last()[k] == c;
            assert(cs[k] == c);
            assert(cs.contains(c));
        }
        if cs.last() == c {
            assert(cs[cs.len() - 1] == c);
            assert(cs.contains(c));
        }
    }
}

/// Pointwise description of `erase_soft` at one cell.
pub proof fn lemma_erase_soft_at(m: Map<Cell, CellType>, cs: Seq<Cell>, c: Cell)
    ensures
        erase_soft(m, cs).contains_key(c)
            <==> (m.contains_key(c) && !(cs.contains(c) && m[c] != CellType::Pink)),
        erase_soft(m, cs).contains_key(c) ==> erase_soft(m, cs)[c] == m[c],
        (m.contains_key(c) && m[c] == CellType::Pink)
            ==> (erase_soft(m, cs).contains_key(c) && erase_soft(m, cs)[c] == CellType::Pink),
        !cs.contains(c) ==> (erase_soft(m, cs).contains_key(c) == m.contains_key(c)
            && (m.contains_key(c) ==> erase_soft(m, cs)[c] == m[c])),
    decreases cs.len(),
{
    if cs.len() > 0 {
        lemma_erase_soft_at(m, cs.drop_last(), c);
        if cs.contains(c) {
            let k = choose|k: int| 0 <= k < cs.len() && cs[k] == c;
            if k < cs.len() - 1 {
                assert(cs.drop_last()[k] == c);
                assert(cs.drop_last().contains(c));
            }
        }
        if cs.drop_last().contains(c) {
            let k = choose|k: int| 0 <= k < cs.drop_last().len() && cs.drop_last()[k] == c;
            assert(cs[k] == c);
            assert(cs.contains(c));
        }
        if cs.last() == c {
            assert(cs[cs.len() - 1] == c);
            assert(cs.contains(c));
        }
    }
}

/// The pairing round-trip law: inserting a fresh pair
/// into the stores and then removing it by its first cell restores both
/// the classification map and the link map exactly, freeing both cells
/// and dropping both directions of the link.
pub proof fn lemma_pair_round_trip(
    filled: Map<Cell, CellType>,
    pairs: Map<Cell, Cell>,
    c1: Cell,
    c2: Cell,
)
    requires
        !filled.contains_key(c1),
        !filled.contains_key(c2),
        !pairs.contains_key(c1),
        !pairs.contains_key(c2),
        c1 != c2,
    ensures
        filled.insert(c1, CellType::Pink).insert(c2, CellType::Pink).remove(c1).remove(c2)
            == filled,
        pairs.insert(c1, c2).insert(c2, c1)[c1] == c2,
        pairs.insert(c1, c2).insert(c2, c1).remove(c1).remove(c2) == pairs,
{
    assert(filled.insert(c1, CellType::Pink).insert(c2, CellType::Pink).remove(c1).remove(c2)
        =~= filled);
    assert(pairs.insert(c1, c2).insert(c2, c1).remove(c1).remove(c2) =~= pairs);
}

/// The matcher's completeness and soundness law:
/// a free clicked cell is matched exactly when one of the four L-shape
/// patterns around it holds, and an occupied cell is never matched.
pub proof fn lemma_matcher_match(f: Field, c: Cell)
    ensures
        f.spec_pink_match(c) is Some <==> (!f.occupied(c) && (f.pink_pattern(c, 1, 1)
            || f.pink_pattern(c, -1, -1) || f.pink_pattern(c, -1, 1) || f.pink_pattern(c, 1, -1))),
        f.occupied(c) ==> f.spec_pink_match(c) is None,
{
}

} // verus!

