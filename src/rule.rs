//! Length bounds of an accepted word.
use vstd::prelude::*;

verus! {

/// Shortest accepted word, in characters.
pub const MIN_LEN: usize = 3;

/// Longest accepted word, in characters.
pub const MAX_LEN: usize = 25;

/// The length rules of a word.
pub struct Word {}

impl Word {
    /// Shortest accepted word, in characters.
    pub fn min() -> (r: usize)
        ensures
            r == MIN_LEN,
    {
        MIN_LEN
    }

    /// Longest accepted word, in characters.
    pub fn max() -> (r: usize)
        ensures
            r == MAX_LEN,
    {
        MAX_LEN
    }
}

/// A word may have `n` characters.
pub open spec fn len_ok(n: int) -> bool {
    MIN_LEN <= n <= MAX_LEN
}

/// True when `word` has fewer characters than the minimum.
pub fn is_min(word: &str) -> (r: bool)
    ensures
        r == (word@.len() < MIN_LEN),
{
    word.unicode_len() < Word::min()
}

/// True when `word` has more characters than the maximum.
pub fn is_max(word: &str) -> (r: bool)
    ensures
        r == (word@.len() > MAX_LEN),
{
    word.unicode_len() > Word::max()
}

} // verus!
