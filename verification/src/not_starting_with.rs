//! The divergence parser: it takes the shortest piece of input that is no
//! longer the beginning of any pattern.

use crate::error::PatternError;
use crate::patterns::{
    all_non_empty, is_pattern_prefix, owned_patterns, starts_with_pattern, str_views, views,
};
use crate::subpatterns::{
    begins_with, completes, first_chars, is_rest_of, lemma_first_chars, lemma_suffixes,
    lemma_suffixes_non_empty, partition, retain_non_empty, suffixes, Subpatterns,
};
use vstd::prelude::*;
use vstd::slice::{slice_subrange, slice_to_vec};

verus! {

/// Counting up from `from`: the first length at which the beginning of `text`
/// is no longer the beginning of any pattern, or the length of `text` where
/// every beginning of it is.
pub open spec fn diverging_len(patterns: Seq<Seq<char>>, text: Seq<char>, from: nat) -> nat
    decreases text.len() - from,
{
    if from < text.len() && is_pattern_prefix(patterns, text.take(from as int)) {
        diverging_len(patterns, text, from + 1)
    } else {
        from
    }
}

/// How many characters of `text` the divergence parser for `patterns` takes,
/// or `None` where it fails.
///
/// With no patterns there is nothing to diverge from, and nothing is taken.
/// Otherwise it fails on empty text and on text that begins with a pattern,
/// and else takes the shortest non-empty beginning of `text` that is not the
/// beginning of a pattern, or all of `text` if it ends before that.
pub open spec fn divergence(patterns: Seq<Seq<char>>, text: Seq<char>) -> Option<nat> {
    if patterns.len() == 0 {
        Some(0)
    } else if text.len() == 0 || starts_with_pattern(patterns, text) {
        None
    } else {
        Some(diverging_len(patterns, text, 1))
    }
}

/// `diverging_len` stops between `from` and the end of the text, every
/// beginning that it passes is the beginning of a pattern, and where it stops
/// before the end, the beginning of that length is not.
pub proof fn lemma_diverging_len(patterns: Seq<Seq<char>>, text: Seq<char>, from: nat)
    requires
        from <= text.len(),
    ensures
        from <= diverging_len(patterns, text, from) <= text.len(),
        forall|k: int|
            from <= k < diverging_len(patterns, text, from) ==> is_pattern_prefix(
                patterns,
                #[trigger] text.take(k),
            ),
        diverging_len(patterns, text, from) == text.len() || !is_pattern_prefix(
            patterns,
            text.take(diverging_len(patterns, text, from) as int),
        ),
    decreases text.len() - from,
{
    if from < text.len() && is_pattern_prefix(patterns, text.take(from as int)) {
        lemma_diverging_len(patterns, text, from + 1);
    }
}

/// The divergence parser for a non-empty set of patterns fails exactly on
/// empty text and on text that begins with a pattern. Where it succeeds, it
/// takes at least one character, every shorter non-empty beginning of the
/// text is still the beginning of a pattern, and what it takes either is no
/// such beginning or is the whole text.
pub proof fn lemma_divergence(patterns: Seq<Seq<char>>, text: Seq<char>)
    requires
        patterns.len() > 0,
    ensures
        divergence(patterns, text) is None <==> text.len() == 0 || starts_with_pattern(
            patterns,
            text,
        ),
        divergence(patterns, text) matches Some(taken) ==> {
            &&& 1 <= taken <= text.len()
            &&& forall|k: int|
                1 <= k < taken ==> is_pattern_prefix(patterns, #[trigger] text.take(k))
            &&& (taken == text.len() || !is_pattern_prefix(patterns, text.take(taken as int)))
        },
{
    if text.len() > 0 {
        lemma_diverging_len(patterns, text, 1);
    }
}

/// Two sequences with the same first element: one is the beginning of the
/// other exactly if the same holds of what follows that element.
proof fn lemma_prefix_shift(a: Seq<char>, b: Seq<char>)
    requires
        a.len() > 0,
        b.len() > 0,
        a[0] == b[0],
    ensures
        a.is_prefix_of(b) <==> a.skip(1).is_prefix_of(b.skip(1)),
{
    if a.is_prefix_of(b) {
        assert(a.skip(1) =~= b.skip(1).subrange(0, a.len() - 1));
    }
    if a.skip(1).is_prefix_of(b.skip(1)) {
        assert(a =~= b.subrange(0, a.len() as int)) by {
            assert forall|at: int| 0 <= at < a.len() implies a[at] == b[at] by {
                if at > 0 {
                    assert(a.skip(1)[at - 1] == b.skip(1).subrange(0, a.len() - 1)[at - 1]);
                }
            }
        }
    }
}

/// A text begins with a pattern exactly if what follows its first character
/// begins with a rest from the group of that character, and a beginning of it
/// is the beginning of a pattern exactly if what follows the first character
/// in it is the beginning of such a rest.
proof fn lemma_rests_mirror(patterns: Seq<Seq<char>>, text: Seq<char>)
    requires
        all_non_empty(patterns),
        text.len() > 0,
    ensures
        starts_with_pattern(patterns, text) <==> starts_with_pattern(
            suffixes(patterns, text[0]),
            text.skip(1),
        ),
        forall|k: int|
            0 <= k < text.len() ==> (is_pattern_prefix(patterns, text.take(k + 1))
                <==> is_pattern_prefix(
                suffixes(patterns, text[0]),
                #[trigger] text.skip(1).take(k),
            )),
{
    let first = text[0];
    let rests = suffixes(patterns, first);
    let tail = text.skip(1);
    lemma_suffixes(patterns, first);
    if starts_with_pattern(patterns, text) {
        let i = choose|i: int|
            0 <= i < patterns.len() && (#[trigger] patterns[i]).is_prefix_of(text);
        assert(patterns[i][0] == text.subrange(0, patterns[i].len() as int)[0]);
        lemma_prefix_shift(patterns[i], text);
        assert(is_rest_of(patterns, first, patterns[i].skip(1)));
        assert(rests.contains(patterns[i].skip(1)));
        let j = choose|j: int| 0 <= j < rests.len() && rests[j] == patterns[i].skip(1);
        assert(rests[j].is_prefix_of(tail));
    }
    if starts_with_pattern(rests, tail) {
        let j = choose|j: int| 0 <= j < rests.len() && (#[trigger] rests[j]).is_prefix_of(tail);
        assert(rests.contains(rests[j]));
        let i = choose|i: int|
            0 <= i < patterns.len() && begins_with(#[trigger] patterns[i], first)
                && patterns[i].skip(1) == rests[j];
        lemma_prefix_shift(patterns[i], text);
        assert(patterns[i].is_prefix_of(text));
    }
    assert forall|k: int| 0 <= k < text.len() implies (is_pattern_prefix(
        patterns,
        text.take(k + 1),
    ) <==> is_pattern_prefix(rests, #[trigger] tail.take(k))) by {
        let head = text.take(k + 1);
        assert(head.skip(1) =~= tail.take(k));
        if is_pattern_prefix(patterns, head) {
            let i = choose|i: int|
                0 <= i < patterns.len() && head.is_prefix_of(#[trigger] patterns[i]);
            assert(head[0] == patterns[i].subrange(0, head.len() as int)[0]);
            lemma_prefix_shift(head, patterns[i]);
            assert(is_rest_of(patterns, first, patterns[i].skip(1)));
            assert(rests.contains(patterns[i].skip(1)));
            let j = choose|j: int| 0 <= j < rests.len() && rests[j] == patterns[i].skip(1);
            assert(tail.take(k).is_prefix_of(rests[j]));
        }
        if is_pattern_prefix(rests, tail.take(k)) {
            let j = choose|j: int|
                0 <= j < rests.len() && tail.take(k).is_prefix_of(#[trigger] rests[j]);
            assert(rests.contains(rests[j]));
            let i = choose|i: int|
                0 <= i < patterns.len() && begins_with(#[trigger] patterns[i], first)
                    && patterns[i].skip(1) == rests[j];
            lemma_prefix_shift(head, patterns[i]);
            assert(head.is_prefix_of(patterns[i]));
        }
    }
}

/// Past the first character, counting in the text runs in step with counting
/// in what follows that character, over the group of that character.
proof fn lemma_diverging_len_shift(patterns: Seq<Seq<char>>, text: Seq<char>, from: nat)
    requires
        all_non_empty(patterns),
        text.len() > 0,
        from < text.len(),
    ensures
        diverging_len(patterns, text, from + 1) == diverging_len(
            suffixes(patterns, text[0]),
            text.skip(1),
            from,
        ) + 1,
    decreases text.len() - from,
{
    lemma_rests_mirror(patterns, text);
    let tail = text.skip(1);
    if from + 1 < text.len() {
        assert(is_pattern_prefix(patterns, text.take(from as int + 1)) <==> is_pattern_prefix(
            suffixes(patterns, text[0]),
            tail.take(from as int),
        ));
        lemma_diverging_len_shift(patterns, text, from + 1);
    }
}

/// A first character that begins no pattern diverges at once.
proof fn lemma_divergence_other(patterns: Seq<Seq<char>>, text: Seq<char>)
    requires
        patterns.len() > 0,
        all_non_empty(patterns),
        text.len() > 0,
        !first_chars(patterns).contains(text[0]),
    ensures
        divergence(patterns, text) == Some(1nat),
{
    lemma_first_chars(patterns);
    if starts_with_pattern(patterns, text) {
        let i = choose|i: int|
            0 <= i < patterns.len() && (#[trigger] patterns[i]).is_prefix_of(text);
        assert(patterns[i][0] == text.subrange(0, patterns[i].len() as int)[0]);
        assert(begins_with(patterns[i], text[0]));
    }
    if is_pattern_prefix(patterns, text.take(1)) {
        let i = choose|i: int|
            0 <= i < patterns.len() && text.take(1).is_prefix_of(#[trigger] patterns[i]);
        assert(text.take(1)[0] == patterns[i].subrange(0, 1)[0]);
        assert(begins_with(patterns[i], text[0]));
    }
}

/// A first character that alone is a pattern makes the parser fail.
proof fn lemma_divergence_last(patterns: Seq<Seq<char>>, text: Seq<char>)
    requires
        text.len() > 0,
        completes(patterns, text[0]),
    ensures
        divergence(patterns, text) is None,
{
    let i = choose|i: int| 0 <= i < patterns.len() && patterns[i] == seq![text[0]];
    assert(patterns[i] =~= text.subrange(0, 1));
    assert(patterns[i].is_prefix_of(text));
}

/// After a first character that begins patterns but completes none, the
/// parser goes on in what follows with the group of that character, and
/// takes the character alone where the text ends with it.
proof fn lemma_divergence_step(patterns: Seq<Seq<char>>, text: Seq<char>)
    requires
        all_non_empty(patterns),
        text.len() > 0,
        first_chars(patterns).contains(text[0]),
        !completes(patterns, text[0]),
    ensures
        suffixes(patterns, text[0]).len() > 0,
        all_non_empty(suffixes(patterns, text[0])),
        divergence(patterns, text) == (match divergence(
            suffixes(patterns, text[0]),
            text.skip(1),
        ) {
            Some(taken) => Some(taken + 1),
            None => if text.len() == 1 {
                Some(1nat)
            } else {
                None
            },
        }),
{
    let first = text[0];
    let rests = suffixes(patterns, first);
    let tail = text.skip(1);
    lemma_first_chars(patterns);
    lemma_suffixes(patterns, first);
    lemma_suffixes_non_empty(patterns, first);
    lemma_rests_mirror(patterns, text);
    let i = choose|i: int| 0 <= i < patterns.len() && begins_with(#[trigger] patterns[i], first);
    assert(is_rest_of(patterns, first, patterns[i].skip(1)));
    assert(rests.contains(patterns[i].skip(1)));
    if tail.len() == 0 {
        if starts_with_pattern(rests, tail) {
            let j = choose|j: int| 0 <= j < rests.len() && (#[trigger] rests[j]).is_prefix_of(tail);
            assert(rests[j].len() > 0);
        }
    } else if !starts_with_pattern(rests, tail) {
        assert(tail.take(0).is_prefix_of(rests[0]));
        assert(is_pattern_prefix(rests, tail.take(0)));
        assert(is_pattern_prefix(patterns, text.take(1)));
        lemma_diverging_len_shift(patterns, text, 1);
    }
}

/// A list of rests that all have a character loses nothing when the empty
/// ones are taken out.
proof fn lemma_nothing_to_drop(rests: Seq<Seq<char>>)
    requires
        all_non_empty(rests),
    ensures
        rests.filter(|rest: Seq<char>| rest.len() > 0) == rests,
    decreases rests.len(),
{
    let keep = |rest: Seq<char>| rest.len() > 0;
    if rests.len() == 0 {
        assert(rests.filter(keep) =~= rests) by {
            reveal(Seq::filter);
        }
    } else {
        let earlier = rests.drop_last();
        assert(rests =~= earlier.push(rests.last()));
        lemma_nothing_to_drop(earlier);
        earlier.lemma_filter_push(rests.last(), keep);
    }
}

/// The length of the longest pattern.
spec fn longest(patterns: Seq<Seq<char>>) -> nat
    decreases patterns.len(),
{
    if patterns.len() == 0 {
        0
    } else {
        let earlier = longest(patterns.drop_last());
        if patterns.last().len() > earlier {
            patterns.last().len()
        } else {
            earlier
        }
    }
}

/// No pattern is longer than the longest.
proof fn lemma_longest(patterns: Seq<Seq<char>>)
    ensures
        forall|i: int| 0 <= i < patterns.len() ==> (#[trigger] patterns[i]).len() <= longest(patterns),
    decreases patterns.len(),
{
    if patterns.len() > 0 {
        lemma_longest(patterns.drop_last());
        assert forall|i: int| 0 <= i < patterns.len() implies (#[trigger] patterns[i]).len()
            <= longest(patterns) by {
            if i < patterns.len() - 1 {
                assert(patterns.drop_last()[i] == patterns[i]);
            }
        }
    }
}

/// The parser in the shape in which it is built: the trie of the patterns.
enum Matcher {
    /// There is no pattern to diverge from: nothing is taken.
    Empty,
    /// One level of the trie. Any character outside `excluded`, the first
    /// characters of the patterns, is taken and ends the match. After a
    /// character that has a branch, the branch goes on with the rests of the
    /// patterns that begin with it. A first character without a branch alone
    /// completes a pattern: nothing can be taken there.
    Level { excluded: Vec<char>, branches: Vec<(char, Matcher)> },
}

impl Matcher {
    /// The matcher is the trie of `patterns`.
    spec fn represents(&self, patterns: Seq<Seq<char>>) -> bool
        decreases self,
    {
        match self {
            Matcher::Empty => patterns.len() == 0,
            Matcher::Level { excluded, branches } => {
                &&& patterns.len() > 0
                &&& excluded@ == first_chars(patterns)
                &&& forall|i: int|
                    0 <= i < branches@.len() ==> !completes(patterns, (#[trigger] branches@[i]).0)
                        && branches@[i].1.represents(suffixes(patterns, branches@[i].0))
                &&& forall|first: char|
                    #![trigger completes(patterns, first)]
                    first_chars(patterns).contains(first) && !completes(patterns, first)
                        ==> exists|i: int|
                        0 <= i < branches@.len() && (#[trigger] branches@[i]).0 == first
            },
        }
    }

    /// Where the match that begins at `start` ends.
    #[verifier::loop_isolation(false)]
    fn consume(&self, input: &[char], start: usize, Ghost(patterns): Ghost<Seq<Seq<char>>>) -> (end:
        Option<usize>)
        requires
            self.represents(patterns),
            all_non_empty(patterns),
            start <= input@.len(),
        ensures
            match divergence(patterns, input@.skip(start as int)) {
                Some(taken) => start + taken <= input@.len() && end == Some(
                    (start + taken) as usize,
                ),
                None => end is None,
            },
        decreases self,
    {
        let ghost text = input@.skip(start as int);
        match self {
            Matcher::Empty => Some(start),
            Matcher::Level { excluded, branches } => {
                if start >= input.len() {
                    return None;
                }
                let first = input[start];
                assert(text[0] == first);
                if !contains_char(excluded, first) {
                    proof {
                        lemma_divergence_other(patterns, text);
                    }
                    return Some(start + 1);
                }
                let mut i: usize = 0;
                while i < branches.len()
                    invariant
                        i <= branches@.len(),
                        forall|j: int| 0 <= j < i ==> (#[trigger] branches@[j]).0 != first,
                    decreases branches@.len() - i,
                {
                    if branches[i].0 == first {
                        let ghost rests = suffixes(patterns, first);
                        proof {
                            lemma_divergence_step(patterns, text);
                            assert(text.skip(1) =~= input@.skip(start + 1));
                        }
                        return match branches[i].1.consume(input, start + 1, Ghost(rests)) {
                            Some(end) => Some(end),
                            None => if start + 1 == input.len() {
                                Some(start + 1)
                            } else {
                                None
                            },
                        };
                    }
                    i += 1;
                }
                proof {
                    assert(completes(patterns, first)) by {
                        if !completes(patterns, first) {
                            let at = choose|at: int|
                                0 <= at < branches@.len() && (#[trigger] branches@[at]).0 == first;
                            assert(branches@[at].0 != first);
                        }
                    }
                    lemma_divergence_last(patterns, text);
                }
                None
            },
        }
    }
}

/// Whether `wanted` is one of `chars`.
fn contains_char(chars: &Vec<char>, wanted: char) -> (found: bool)
    ensures
        found == chars@.contains(wanted),
{
    let mut i: usize = 0;
    while i < chars.len()
        invariant
            i <= chars@.len(),
            forall|j: int| 0 <= j < i ==> chars@[j] != wanted,
        decreases chars@.len() - i,
    {
        if chars[i] == wanted {
            return true;
        }
        i += 1;
    }
    false
}

/// Builds the trie of `patterns`, none of which is longer than `bound`.
#[verifier::loop_isolation(false)]
fn build(patterns: &Vec<Vec<char>>, Ghost(bound): Ghost<nat>) -> (matcher: Matcher)
    requires
        all_non_empty(views(patterns@)),
        forall|i: int| 0 <= i < patterns@.len() ==> (#[trigger] views(patterns@)[i]).len() <= bound,
    ensures
        matcher.represents(views(patterns@)),
    decreases bound,
{
    if patterns.len() == 0 {
        return Matcher::Empty;
    }
    let ghost all = views(patterns@);
    let entries = partition(patterns);
    let mut excluded: Vec<char> = Vec::new();
    let mut branches: Vec<(char, Matcher)> = Vec::new();
    let mut i: usize = 0;
    while i < entries.len()
        invariant
            i <= entries@.len(),
            excluded@ == first_chars(all).take(i as int),
            forall|b: int|
                0 <= b < branches@.len() ==> !completes(all, (#[trigger] branches@[b]).0)
                    && branches@[b].1.represents(suffixes(all, branches@[b].0)),
            forall|j: int|
                0 <= j < i && !completes(all, (#[trigger] entries@[j]).0) ==> exists|b: int|
                    0 <= b < branches@.len() && (#[trigger] branches@[b]).0 == entries@[j].0,
        decreases entries@.len() - i,
    {
        let first = entries[i].0;
        let ghost before = branches@;
        excluded.push(first);
        proof {
            assert(first_chars(all).take(i + 1) =~= first_chars(all).take(i as int).push(first));
        }
        match &entries[i].1 {
            Subpatterns::Last => {},
            Subpatterns::Subpatterns(rests) => {
                let kept = retain_non_empty(rests);
                proof {
                    assert(!completes(all, first));
                    assert(views(rests@) == suffixes(all, first));
                    lemma_suffixes_non_empty(all, first);
                    lemma_nothing_to_drop(suffixes(all, first));
                    lemma_suffixes(all, first);
                    lemma_first_chars(all);
                    assert(first_chars(all).contains(first));
                    let at = choose|at: int|
                        0 <= at < all.len() && begins_with(#[trigger] all[at], first);
                    assert(bound >= 1);
                    assert forall|k: int| 0 <= k < kept@.len() implies (#[trigger] views(
                        kept@,
                    )[k]).len() <= bound - 1 by {
                        let rest = views(kept@)[k];
                        assert(suffixes(all, first).contains(rest));
                        let from = choose|from: int|
                            0 <= from < all.len() && begins_with(#[trigger] all[from], first)
                                && all[from].skip(1) == rest;
                    }
                }
                let sub = build(&kept, Ghost((bound - 1) as nat));
                branches.push((first, sub));
                proof {
                    assert(forall|b: int| 0 <= b < before.len() ==> branches@[b] == before[b]);
                    assert(branches@[before.len() as int].0 == first);
                }
            },
        }
        proof {
            assert forall|j: int|
                0 <= j < i + 1 && !completes(all, (#[trigger] entries@[j]).0) implies exists|
                b: int,
            |
                0 <= b < branches@.len() && (#[trigger] branches@[b]).0 == entries@[j].0 by {
                if j < i {
                    let b = choose|b: int|
                        0 <= b < before.len() && (#[trigger] before[b]).0 == entries@[j].0;
                    assert(branches@[b].0 == entries@[j].0);
                } else {
                    assert(branches@[before.len() as int].0 == first);
                }
            }
        }
        i += 1;
    }
    proof {
        assert(first_chars(all).take(entries@.len() as int) =~= first_chars(all));
        assert forall|first: char|
            #![trigger completes(all, first)]
            first_chars(all).contains(first) && !completes(all, first) implies exists|b: int|
            0 <= b < branches@.len() && (#[trigger] branches@[b]).0 == first by {
            let j = choose|j: int| 0 <= j < first_chars(all).len() && first_chars(all)[j] == first;
            assert(entries@[j].0 == first);
        }
    }
    let matcher = Matcher::Level { excluded, branches };
    proof {
        assert(all.len() > 0);
        assert(matcher matches Matcher::Level { excluded: keys, branches: subs } && keys@
            == first_chars(all) && subs == branches);
        assert(forall|i: int|
            0 <= i < branches@.len() ==> !completes(all, (#[trigger] branches@[i]).0)
                && branches@[i].1.represents(suffixes(all, branches@[i].0)));
    }
    matcher
}

/// The parser made by [`not_starting_with`].
///
/// Its view is the list of its patterns, none of which is empty.
pub struct NotStartingWith {
    patterns: Vec<Vec<char>>,
    matcher: Matcher,
}

impl View for NotStartingWith {
    type V = Seq<Seq<char>>;

    closed spec fn view(&self) -> Seq<Seq<char>> {
        views(self.patterns@)
    }
}

impl NotStartingWith {
    #[verifier::type_invariant]
    spec fn well_formed(&self) -> bool {
        &&& all_non_empty(views(self.patterns@))
        &&& self.matcher.represents(views(self.patterns@))
    }

    /// The parser for patterns that are known to be non-empty.
    pub(crate) fn from_owned(patterns: Vec<Vec<char>>) -> (parser: Self)
        requires
            all_non_empty(views(patterns@)),
        ensures
            parser@ == views(patterns@),
    {
        proof {
            lemma_longest(views(patterns@));
        }
        let matcher = build(&patterns, Ghost(longest(views(patterns@))));
        NotStartingWith { patterns, matcher }
    }

    /// The patterns of the parser.
    pub fn patterns(&self) -> (patterns: &Vec<Vec<char>>)
        ensures
            views(patterns@) == self@,
            all_non_empty(self@),
    {
        proof {
            use_type_invariant(self);
        }
        &self.patterns
    }

    /// Runs the parser on `input` from position `start`.
    ///
    /// On success the result holds the characters taken and the position after
    /// them. How many are taken, and when the parser fails, is stated by
    /// [`divergence`] over the patterns and the input from `start` on. A
    /// `start` behind the end of the input fails.
    pub fn parse_at(&self, input: &[char], start: usize) -> (parsed: Option<(Vec<char>, usize)>)
        ensures
            all_non_empty(self@),
            start > input@.len() ==> parsed is None,
            start <= input@.len() ==> match divergence(self@, input@.skip(start as int)) {
                Some(taken) => {
                    &&& parsed matches Some((out, end))
                    &&& end == start + taken
                    &&& end <= input@.len()
                    &&& out@ == input@.subrange(start as int, end as int)
                },
                None => parsed is None,
            },
    {
        proof {
            use_type_invariant(self);
        }
        if start > input.len() {
            return None;
        }
        match self.matcher.consume(input, start, Ghost(views(self.patterns@))) {
            Some(end) => {
                let out = slice_to_vec(slice_subrange(input, start, end));
                Some((out, end))
            },
            None => None,
        }
    }
}

/// Makes the parser that takes the shortest piece of input that diverges from
/// all of `patterns`.
///
/// An empty pattern is refused: the error names the first one.
pub fn not_starting_with(patterns: &[&str]) -> (made: Result<NotStartingWith, PatternError>)
    ensures
        match made {
            Ok(parser) => all_non_empty(str_views(patterns@)) && parser@ == str_views(patterns@),
            Err(PatternError::Empty { index }) => {
                &&& index < patterns@.len()
                &&& patterns@[index as int]@.len() == 0
                &&& forall|j: int| 0 <= j < index ==> (#[trigger] patterns@[j])@.len() > 0
            },
        },
{
    match owned_patterns(patterns) {
        Ok(owned) => Ok(NotStartingWith::from_owned(owned)),
        Err(error) => Err(error),
    }
}

} // verus!
