//! One level of the pattern trie: the patterns grouped by their first
//! character, each group holding what may follow that character.

use crate::patterns::{all_non_empty, views};
use vstd::prelude::*;
use vstd::slice::{slice_subrange, slice_to_vec};

verus! {

/// What follows one first character among the patterns that begin with it.
pub enum Subpatterns {
    /// The character alone already completes a pattern.
    Last,
    /// The rests of the patterns that begin with the character, each with at
    /// least one character left.
    Subpatterns(Vec<Vec<char>>),
}

/// `pattern` begins with the character `first`.
pub open spec fn begins_with(pattern: Seq<char>, first: char) -> bool {
    pattern.len() > 0 && pattern[0] == first
}

/// The patterns that begin with `first`, each without that first character,
/// in the order of `patterns`.
pub open spec fn suffixes(patterns: Seq<Seq<char>>, first: char) -> Seq<Seq<char>> {
    patterns.filter(|pattern: Seq<char>| begins_with(pattern, first)).map_values(
        |pattern: Seq<char>| pattern.skip(1),
    )
}

/// The single character `first` is one of the patterns.
pub open spec fn completes(patterns: Seq<Seq<char>>, first: char) -> bool {
    patterns.contains(seq![first])
}

/// What the group of `first` holds: nothing where `first` alone completes a
/// pattern, else the rests of all patterns that begin with it.
pub open spec fn continuations(patterns: Seq<Seq<char>>, first: char) -> Option<Seq<Seq<char>>> {
    if completes(patterns, first) {
        None
    } else {
        Some(suffixes(patterns, first))
    }
}

/// The distinct first characters of `patterns`, in the order in which each
/// first appears.
pub open spec fn first_chars(patterns: Seq<Seq<char>>) -> Seq<char>
    decreases patterns.len(),
{
    if patterns.len() == 0 {
        Seq::empty()
    } else {
        let earlier = first_chars(patterns.drop_last());
        let last = patterns.last();
        if last.len() == 0 || earlier.contains(last[0]) {
            earlier
        } else {
            earlier.push(last[0])
        }
    }
}

impl Subpatterns {
    /// The rests held by the group, in order; `None` for [`Subpatterns::Last`].
    pub open spec fn rests(&self) -> Option<Seq<Seq<char>>> {
        match self {
            Subpatterns::Last => None,
            Subpatterns::Subpatterns(list) => Some(views(list@)),
        }
    }

    /// The group made by the first pattern seen for a character, of which
    /// `subpat` is the rest.
    pub fn new(subpat: Vec<char>) -> (made: Self)
        ensures
            made.rests() == (if subpat@.len() == 0 {
                None
            } else {
                Some(seq![subpat@])
            }),
    {
        if subpat.len() == 0 {
            Subpatterns::Last
        } else {
            let mut list: Vec<Vec<char>> = Vec::new();
            list.push(subpat);
            proof {
                assert(views(list@) =~= seq![subpat@]);
            }
            Subpatterns::Subpatterns(list)
        }
    }

    /// Adds the rest of one more pattern. A group that is complete stays so,
    /// and an empty rest completes it.
    pub fn push(&mut self, subpat: Vec<char>)
        ensures
            final(self).rests() == (match old(self).rests() {
                None => None,
                Some(list) => if subpat@.len() == 0 {
                    None
                } else {
                    Some(list.push(subpat@))
                },
            }),
    {
        if subpat.len() == 0 {
            *self = Subpatterns::Last;
        } else {
            match self {
                Subpatterns::Last => {},
                Subpatterns::Subpatterns(list) => {
                    let ghost before = list@;
                    list.push(subpat);
                    proof {
                        assert(views(list@) =~= views(before).push(subpat@));
                    }
                },
            }
        }
    }
}

/// Whether a rest still has a character.
pub fn is_not_empty(rest: &Vec<char>) -> (b: bool)
    ensures
        b == (rest@.len() > 0),
{
    rest.len() > 0
}

/// The rests that still have a character, in order.
pub fn retain_non_empty(rests: &Vec<Vec<char>>) -> (kept: Vec<Vec<char>>)
    ensures
        views(kept@) == views(rests@).filter(|rest: Seq<char>| rest.len() > 0),
{
    let ghost keep = |rest: Seq<char>| rest.len() > 0;
    let mut kept: Vec<Vec<char>> = Vec::new();
    let mut i: usize = 0;
    proof {
        assert(views(rests@).take(0).filter(keep) =~= Seq::<Seq<char>>::empty()) by {
            reveal(Seq::filter);
        }
        assert(views(kept@) =~= Seq::<Seq<char>>::empty());
    }
    while i < rests.len()
        invariant
            i <= rests@.len(),
            keep == |rest: Seq<char>| rest.len() > 0,
            views(kept@) == views(rests@).take(i as int).filter(keep),
        decreases rests@.len() - i,
    {
        let ghost before = kept@;
        let ghost seen = views(rests@).take(i as int);
        proof {
            assert(views(rests@).take(i + 1) =~= seen.push(rests@[i as int]@));
            seen.lemma_filter_push(rests@[i as int]@, keep);
        }
        if is_not_empty(&rests[i]) {
            let rest = slice_to_vec(rests[i].as_slice());
            kept.push(rest);
            proof {
                assert(views(kept@) =~= views(before).push(rests@[i as int]@));
            }
        }
        i += 1;
    }
    proof {
        assert(views(rests@).take(rests@.len() as int) =~= views(rests@));
    }
    kept
}

/// Adding a pattern at the end adds its first character to the first
/// characters, unless it is already among them.
pub proof fn lemma_first_chars_push(patterns: Seq<Seq<char>>, pattern: Seq<char>)
    ensures
        first_chars(patterns.push(pattern)) == (if pattern.len() == 0 || first_chars(
            patterns,
        ).contains(pattern[0]) {
            first_chars(patterns)
        } else {
            first_chars(patterns).push(pattern[0])
        }),
{
    assert(patterns.push(pattern).drop_last() =~= patterns);
}

/// A character is among the first characters exactly if some pattern begins
/// with it, and no character stands there twice.
pub proof fn lemma_first_chars(patterns: Seq<Seq<char>>)
    ensures
        forall|first: char|
            first_chars(patterns).contains(first) <==> exists|i: int|
                0 <= i < patterns.len() && begins_with(#[trigger] patterns[i], first),
        first_chars(patterns).no_duplicates(),
    decreases patterns.len(),
{
    if patterns.len() > 0 {
        let earlier = patterns.drop_last();
        let last = patterns.last();
        lemma_first_chars(earlier);
        assert forall|first: char|
            first_chars(patterns).contains(first) <==> exists|i: int|
                0 <= i < patterns.len() && begins_with(#[trigger] patterns[i], first) by {
            if first_chars(patterns).contains(first) {
                if first_chars(earlier).contains(first) {
                    let i = choose|i: int|
                        0 <= i < earlier.len() && begins_with(#[trigger] earlier[i], first);
                    assert(begins_with(patterns[i], first));
                } else {
                    assert(begins_with(patterns[patterns.len() - 1], first));
                }
            }
            if exists|i: int|
                0 <= i < patterns.len() && begins_with(#[trigger] patterns[i], first) {
                let i = choose|i: int|
                    0 <= i < patterns.len() && begins_with(#[trigger] patterns[i], first);
                if i < earlier.len() {
                    assert(begins_with(earlier[i], first));
                    assert(first_chars(earlier).contains(first));
                    let at = choose|at: int|
                        0 <= at < first_chars(earlier).len() && first_chars(earlier)[at] == first;
                    assert(first_chars(patterns)[at] == first);
                } else {
                    if !first_chars(earlier).contains(first) {
                        assert(first_chars(patterns)[first_chars(earlier).len() as int] == first);
                    } else {
                        let at = choose|at: int|
                            0 <= at < first_chars(earlier).len() && first_chars(earlier)[at]
                                == first;
                        assert(first_chars(patterns)[at] == first);
                    }
                }
            }
        }
    }
}

/// Adding a pattern at the end adds its rest to the group of its first
/// character and leaves the other groups as they were.
pub proof fn lemma_suffixes_push(patterns: Seq<Seq<char>>, pattern: Seq<char>, first: char)
    ensures
        suffixes(patterns.push(pattern), first) == (if begins_with(pattern, first) {
            suffixes(patterns, first).push(pattern.skip(1))
        } else {
            suffixes(patterns, first)
        }),
{
    let chosen = |pattern: Seq<char>| begins_with(pattern, first);
    patterns.lemma_filter_push(pattern, chosen);
    if begins_with(pattern, first) {
        assert(suffixes(patterns.push(pattern), first) =~= suffixes(patterns, first).push(
            pattern.skip(1),
        ));
    }
}

/// `rest` is what is left of some pattern that begins with `first` once that
/// character is taken off.
pub open spec fn is_rest_of(patterns: Seq<Seq<char>>, first: char, rest: Seq<char>) -> bool {
    exists|i: int|
        0 <= i < patterns.len() && begins_with(#[trigger] patterns[i], first) && patterns[i].skip(
            1,
        ) == rest
}

/// The group of `first` holds exactly the rests of the patterns that begin
/// with `first`.
pub proof fn lemma_suffixes(patterns: Seq<Seq<char>>, first: char)
    ensures
        forall|rest: Seq<char>| #[trigger]
            suffixes(patterns, first).contains(rest) <==> is_rest_of(patterns, first, rest),
    decreases patterns.len(),
{
    if patterns.len() == 0 {
        assert(suffixes(patterns, first).len() == 0) by {
            reveal(Seq::filter);
        }
    } else {
        let earlier = patterns.drop_last();
        let last = patterns.last();
        assert(patterns =~= earlier.push(last));
        lemma_suffixes(earlier, first);
        lemma_suffixes_push(earlier, last, first);
        let here = suffixes(patterns, first);
        let before = suffixes(earlier, first);
        assert forall|rest: Seq<char>| #[trigger]
            here.contains(rest) <==> is_rest_of(patterns, first, rest) by {
            if here.contains(rest) {
                let j = choose|j: int| 0 <= j < here.len() && here[j] == rest;
                if j < before.len() {
                    assert(before[j] == rest);
                    assert(before.contains(rest));
                    let i = choose|i: int|
                        0 <= i < earlier.len() && begins_with(#[trigger] earlier[i], first)
                            && earlier[i].skip(1) == rest;
                    assert(begins_with(patterns[i], first) && patterns[i].skip(1) == rest);
                } else {
                    let i = patterns.len() - 1;
                    assert(begins_with(patterns[i], first) && patterns[i].skip(1) == rest);
                }
            }
            if is_rest_of(patterns, first, rest) {
                let i = choose|i: int|
                    0 <= i < patterns.len() && begins_with(#[trigger] patterns[i], first)
                        && patterns[i].skip(1) == rest;
                if i < earlier.len() {
                    assert(begins_with(earlier[i], first) && earlier[i].skip(1) == rest);
                    assert(before.contains(rest));
                    let j = choose|j: int| 0 <= j < before.len() && before[j] == rest;
                    assert(here[j] == rest);
                } else {
                    assert(here[before.len() as int] == rest);
                }
            }
        }
    }
}

/// Where `first` alone completes no pattern, every rest in its group still
/// has a character.
pub proof fn lemma_suffixes_non_empty(patterns: Seq<Seq<char>>, first: char)
    requires
        !completes(patterns, first),
    ensures
        all_non_empty(suffixes(patterns, first)),
{
    lemma_suffixes(patterns, first);
    let group = suffixes(patterns, first);
    assert forall|j: int| 0 <= j < group.len() implies (#[trigger] group[j]).len() > 0 by {
        assert(group.contains(group[j]));
        let i = choose|i: int|
            0 <= i < patterns.len() && begins_with(#[trigger] patterns[i], first)
                && patterns[i].skip(1) == group[j];
        if patterns[i].len() == 1 {
            assert(patterns[i] =~= seq![first]);
        }
    }
}

/// The position of `first` among the keys of `entries`, if it is one of them.
fn find_entry(entries: &Vec<(char, Subpatterns)>, first: char) -> (found: Option<usize>)
    ensures
        match found {
            Some(at) => at < entries@.len() && entries@[at as int].0 == first,
            None => forall|i: int| 0 <= i < entries@.len() ==> (#[trigger] entries@[i]).0 != first,
        },
{
    let mut i: usize = 0;
    while i < entries.len()
        invariant
            i <= entries@.len(),
            forall|j: int| 0 <= j < i ==> (#[trigger] entries@[j]).0 != first,
        decreases entries@.len() - i,
    {
        if entries[i].0 == first {
            return Some(i);
        }
        i += 1;
    }
    None
}

/// `entries` is the grouping of `patterns` by first character: one entry for
/// each first character, in the order of first appearance, holding what
/// follows that character.
pub open spec fn is_partition(entries: Seq<(char, Subpatterns)>, patterns: Seq<Seq<char>>) -> bool {
    &&& entries.len() == first_chars(patterns).len()
    &&& forall|i: int|
        0 <= i < entries.len() ==> (#[trigger] entries[i]).0 == first_chars(patterns)[i]
            && entries[i].1.rests() == continuations(patterns, entries[i].0)
}

/// Groups the patterns by their first character.
pub fn partition(patterns: &Vec<Vec<char>>) -> (entries: Vec<(char, Subpatterns)>)
    requires
        all_non_empty(views(patterns@)),
    ensures
        is_partition(entries@, views(patterns@)),
{
    let mut entries: Vec<(char, Subpatterns)> = Vec::new();
    let mut k: usize = 0;
    proof {
        assert(views(patterns@).take(0) =~= Seq::<Seq<char>>::empty());
    }
    while k < patterns.len()
        invariant
            k <= patterns@.len(),
            all_non_empty(views(patterns@)),
            is_partition(entries@, views(patterns@).take(k as int)),
        decreases patterns@.len() - k,
    {
        let pat = &patterns[k];
        let ghost seen = views(patterns@).take(k as int);
        let ghost before = entries@;
        proof {
            assert(views(patterns@)[k as int] == pat@);
            assert(views(patterns@).take(k + 1) =~= seen.push(pat@));
            lemma_first_chars_push(seen, pat@);
            lemma_first_chars(seen);
            assert forall|first: char| #![auto]
                completes(seen.push(pat@), first) <==> completes(seen, first) || pat@ == seq![
                    first,
                ] by {
                if completes(seen, first) {
                    let i = choose|i: int| 0 <= i < seen.len() && seen[i] == seq![first];
                    assert(seen.push(pat@)[i] == seq![first]);
                }
                if pat@ == seq![first] {
                    assert(seen.push(pat@)[seen.len() as int] == seq![first]);
                }
            }
            assert forall|first: char| #![auto]
                suffixes(seen.push(pat@), first) == (if begins_with(pat@, first) {
                    suffixes(seen, first).push(pat@.skip(1))
                } else {
                    suffixes(seen, first)
                }) by {
                lemma_suffixes_push(seen, pat@, first);
            }
        }
        let first = pat[0];
        let subpattern = slice_to_vec(slice_subrange(pat.as_slice(), 1, pat.len()));
        proof {
            assert(subpattern@ =~= pat@.skip(1));
            if subpattern@.len() == 0 {
                assert(pat@ =~= seq![first]);
            }
        }
        match find_entry(&entries, first) {
            Some(at) => {
                entries[at].1.push(subpattern);
                proof {
                    assert(first_chars(seen).contains(first));
                    assert(forall|i: int|
                        0 <= i < before.len() && i != at ==> entries@[i] == #[trigger] before[i]);
                    assert(entries@[at as int].0 == first);
                    assert forall|i: int| 0 <= i < entries@.len() implies (
                    #[trigger] entries@[i]).0 == first_chars(seen.push(pat@))[i]
                        && entries@[i].1.rests() == continuations(
                        seen.push(pat@),
                        entries@[i].0,
                    ) by {
                        if i != at {
                            assert(entries@[i] == before[i]);
                            assert(before[i].0 != first) by {
                                assert(first_chars(seen).no_duplicates());
                            }
                        }
                    }
                }
            },
            None => {
                entries.push((first, Subpatterns::new(subpattern)));
                proof {
                    assert(!first_chars(seen).contains(first)) by {
                        if first_chars(seen).contains(first) {
                            let i = choose|i: int|
                                0 <= i < first_chars(seen).len() && first_chars(seen)[i] == first;
                            assert(before[i].0 == first);
                        }
                    }
                    lemma_suffixes(seen, first);
                    assert(suffixes(seen, first) =~= Seq::<Seq<char>>::empty()) by {
                        if suffixes(seen, first).len() > 0 {
                            let rest = suffixes(seen, first)[0];
                            assert(suffixes(seen, first).contains(rest));
                            assert(is_rest_of(seen, first, rest));
                        }
                    }
                    assert(!completes(seen, first)) by {
                        if completes(seen, first) {
                            let i = choose|i: int| 0 <= i < seen.len() && seen[i] == seq![first];
                            assert(begins_with(seen[i], first));
                        }
                    }
                    assert(Seq::<Seq<char>>::empty().push(pat@.skip(1)) =~= seq![pat@.skip(1)]);
                    assert forall|i: int| 0 <= i < entries@.len() implies (
                    #[trigger] entries@[i]).0 == first_chars(seen.push(pat@))[i]
                        && entries@[i].1.rests() == continuations(
                        seen.push(pat@),
                        entries@[i].0,
                    ) by {
                        if i < before.len() {
                            assert(entries@[i] == before[i]);
                            assert(first_chars(seen).contains(before[i].0));
                        }
                    }
                }
            },
        }
        k += 1;
    }
    proof {
        assert(views(patterns@).take(patterns@.len() as int) =~= views(patterns@));
    }
    entries
}

} // verus!
