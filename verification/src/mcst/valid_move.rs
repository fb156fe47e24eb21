//! What a node knows of one column.

use vstd::prelude::*;

verus! {

/// A column of a node: legal, with what belongs to the move, or illegal.
#[derive(Copy, PartialEq, Debug, Hash)]
pub enum ValidMove<T> {
    Valid(T),
    Invalid,
}

impl<T: Clone> Clone for ValidMove<T> {
    fn clone(&self) -> (copy: Self) {
        match self {
            ValidMove::Valid(held) => ValidMove::Valid(held.clone()),
            ValidMove::Invalid => ValidMove::Invalid,
        }
    }
}

impl<T> ValidMove<T> {
    /// Whether the column is legal.
    pub fn is_valid(&self) -> (valid: bool)
        ensures
            valid == (self is Valid),
    {
        match self {
            ValidMove::Valid(_) => true,
            ValidMove::Invalid => false,
        }
    }
}

} // verus!
