use vstd::prelude::*;
use crate::cell::Cell;

verus! {

/// One reconstructed walk: the ordered cells from the start cell to the
/// end cell, tagged with the index of the solver-output section it came
/// from (used downstream only to pick a distinct display color).
#[derive(Debug)]
pub struct Path {
    pub cells: Vec<Cell>,
    pub id: usize,
}

impl View for Path {
    type V = Seq<Cell>;

    open spec fn view(&self) -> Seq<Cell> {
        self.cells@
    }
}

impl Path {
    pub fn new(path: Vec<Cell>, id: usize) -> (p: Path)
        ensures
            p@ == path@,
            p.id == id,
    {
        Path { cells: path, id }
    }

    pub fn cells(&self) -> (r: &Vec<Cell>)
        ensures
            r@ == self@,
    {
        &self.cells
    }
}

} // verus!
