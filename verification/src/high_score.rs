//! Scores as the server keeps and reports them.
use vstd::prelude::*;

verus! {

/// A finished game: who played it and the score reached.
pub struct HighScore {
    pub name: String,
    pub score: u32,
}

/// A stored score, as the first form of the score table holds it.
pub struct Score {
    pub name: String,
    pub score: u32,
}

} // verus!
