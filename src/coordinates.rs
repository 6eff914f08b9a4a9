use vstd::prelude::*;

verus! {

/// A cell of the lattice. Coordinates order lexicographically by `(x, y)`.
#[derive(Clone, Copy, Debug, PartialEq, Eq, Structural, Hash, PartialOrd, Ord)]
pub struct Coordinates {
    pub x: i32,
    pub y: i32,
}

} // verus!
