use vstd::prelude::*;

verus! {

/// Why a set of patterns cannot be turned into a parser.
#[derive(Debug, Clone, Copy, PartialEq, Eq)]
pub enum PatternError {
    /// The pattern at `index` is the empty string: it has no first character
    /// at which it could begin, so nothing can be said to diverge from it.
    Empty { index: usize },
}

} // verus!
