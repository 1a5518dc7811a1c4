use vstd::prelude::*;

verus! {

/// The interaction mode of the canvas: what a pointer gesture currently
/// means to the grid.
#[derive(Debug, PartialEq, Eq, Structural)]
#[non_exhaustive]
pub enum Mode {
    Draw,
    Erase,
    AddPinkConstraint,
    RemovePinkConstraint,
    StartSelection,
    EndSelection,
}

} // verus!
