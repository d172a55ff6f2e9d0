use vstd::prelude::*;

pub mod first;
pub mod network;
pub mod seqs;
pub mod third;

verus! {

/// The direction in which `third::sort` arranges the elements.
#[derive(Clone, Copy, Debug, PartialEq, Eq, Structural)]
pub enum SortOrder {
    Ascending,
    Descending,
}

} // verus!
