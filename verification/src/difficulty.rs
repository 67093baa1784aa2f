use vstd::prelude::*;

verus! {

/// How hard a puzzle is, judged by the hardest technique its solution needed.
#[derive(Debug, PartialEq, Eq, Clone, Copy, Structural)]
pub enum Difficulty {
    UNKNOWN,
    SIMPLE,
    EASY,
    MEDIUM,
    EXPERT,
}

} // verus!
