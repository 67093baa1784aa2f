use vstd::prelude::*;

verus! {

/// The geometric pattern that the givens of a generated puzzle keep.
#[derive(Debug, PartialEq, Eq, Clone, Copy, Structural)]
pub enum Symmetry {
    NONE,
    ROTATE90,
    ROTATE180,
    MIRROR,
    FLIP,
    RANDOM,
}

} // verus!
