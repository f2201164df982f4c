//! The vocabulary in which the parsers of this crate are specified: patterns
//! as sequences of characters, and what it means for a text to begin with one,
//! to be the beginning of one, or to contain one.

use crate::error::PatternError;
use vstd::prelude::*;

verus! {

/// The character sequences held by a list of owned patterns.
pub open spec fn views(patterns: Seq<Vec<char>>) -> Seq<Seq<char>> {
    patterns.map_values(|pattern: Vec<char>| pattern@)
}

/// The character sequences of a list of string patterns.
pub open spec fn str_views(patterns: Seq<&str>) -> Seq<Seq<char>> {
    patterns.map_values(|pattern: &str| pattern@)
}

/// No pattern is the empty string.
pub open spec fn all_non_empty(patterns: Seq<Seq<char>>) -> bool {
    forall|i: int| 0 <= i < patterns.len() ==> (#[trigger] patterns[i]).len() > 0
}

/// `text` is the beginning (possibly the whole) of at least one pattern.
pub open spec fn is_pattern_prefix(patterns: Seq<Seq<char>>, text: Seq<char>) -> bool {
    exists|i: int| 0 <= i < patterns.len() && text.is_prefix_of(#[trigger] patterns[i])
}

/// `text` begins with at least one whole pattern.
pub open spec fn starts_with_pattern(patterns: Seq<Seq<char>>, text: Seq<char>) -> bool {
    exists|i: int| 0 <= i < patterns.len() && (#[trigger] patterns[i]).is_prefix_of(text)
}

/// A pattern occurs in `text` at offset `at`.
pub open spec fn pattern_at(patterns: Seq<Seq<char>>, text: Seq<char>, at: int) -> bool {
    0 <= at <= text.len() && starts_with_pattern(patterns, text.skip(at))
}

/// Some pattern occurs somewhere in `text`.
pub open spec fn contains_pattern(patterns: Seq<Seq<char>>, text: Seq<char>) -> bool {
    exists|at: int| pattern_at(patterns, text, at)
}

/// The characters of a string, in order.
pub fn chars_of(text: &str) -> (chars: Vec<char>)
    ensures
        chars@ == text@,
{
    let mut chars: Vec<char> = Vec::new();
    for ch in it: text.chars()
        invariant
            chars@ == it.seq().take(it.index() as int),
            it.seq() == text@,
    {
        chars.push(ch);
    }
    chars
}

/// Whether `literal` stands in `input` at position `start`.
pub fn literal_at(input: &[char], start: usize, literal: &[char]) -> (found: bool)
    ensures
        found == (start <= input@.len() && literal@.is_prefix_of(input@.skip(start as int))),
{
    if start > input.len() || literal.len() > input.len() - start {
        return false;
    }
    let size: usize = input.len();
    let mut i: usize = 0;
    while i < literal.len()
        invariant
            size == input@.len(),
            start <= input@.len(),
            literal@.len() <= input@.len() - start,
            i <= literal@.len(),
            forall|j: int| 0 <= j < i ==> literal@[j] == input@[start + j],
        decreases literal@.len() - i,
    {
        if literal[i] != input[start + i] {
            proof {
                let rest = input@.skip(start as int);
                assert(rest.subrange(0, literal@.len() as int)[i as int] == input@[start + i]);
            }
            return false;
        }
        i += 1;
    }
    proof {
        let rest = input@.skip(start as int);
        assert(literal@ =~= rest.subrange(0, literal@.len() as int));
    }
    true
}

/// The patterns as owned character lists, or the first pattern that is empty.
pub fn owned_patterns(patterns: &[&str]) -> (made: Result<Vec<Vec<char>>, PatternError>)
    ensures
        match made {
            Ok(owned) => all_non_empty(str_views(patterns@)) && views(owned@) == str_views(
                patterns@,
            ),
            Err(PatternError::Empty { index }) => {
                &&& index < patterns@.len()
                &&& patterns@[index as int]@.len() == 0
                &&& forall|j: int| 0 <= j < index ==> (#[trigger] patterns@[j])@.len() > 0
            },
        },
{
    let mut owned: Vec<Vec<char>> = Vec::new();
    let mut i: usize = 0;
    while i < patterns.len()
        invariant
            i <= patterns@.len(),
            owned@.len() == i,
            forall|j: int| 0 <= j < i ==> (#[trigger] patterns@[j])@.len() > 0,
            forall|j: int| 0 <= j < i ==> (#[trigger] owned@[j])@ == patterns@[j]@,
        decreases patterns@.len() - i,
    {
        let chars = chars_of(patterns[i]);
        if chars.len() == 0 {
            return Err(PatternError::Empty { index: i });
        }
        owned.push(chars);
        i += 1;
    }
    proof {
        assert(views(owned@) =~= str_views(patterns@));
    }
    Ok(owned)
}

} // verus!
