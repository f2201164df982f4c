//! The branch dispatcher: a list of patterns, each with a parser of its own,
//! closed by an else branch for text that begins with none of the patterns.

use crate::error::PatternError;
use crate::patterns::{all_non_empty, literal_at, starts_with_pattern, str_views, views};
use crate::not_containing::{
    exclusion_run, lemma_run_stops_at_pattern, not_containing, NotContaining,
};
use vstd::prelude::*;

verus! {

/// The patterns of a list of branches, in the order in which they were
/// declared.
pub open spec fn patterns_of<'a, P>(branches: Seq<(&'a str, P)>) -> Seq<Seq<char>> {
    Seq::new(branches.len(), |i: int| branches[i].0@)
}

/// The parsers of a list of branches, in the order in which they were
/// declared.
pub open spec fn parsers_of<'a, P>(branches: Seq<(&'a str, P)>) -> Seq<P> {
    Seq::new(branches.len(), |i: int| branches[i].1)
}

/// The branch whose pattern stands at the start of `text`: of several, the
/// one declared last.
pub open spec fn last_match(patterns: Seq<Seq<char>>, text: Seq<char>) -> Option<int>
    decreases patterns.len(),
{
    if patterns.len() == 0 {
        None
    } else if patterns.last().is_prefix_of(text) {
        Some(patterns.len() - 1)
    } else {
        last_match(patterns.drop_last(), text)
    }
}

/// What the dispatcher decides on a text.
pub enum Selection {
    /// No pattern stands at the start: the else branch gets `run`.
    Fallback { run: Seq<char> },
    /// The pattern of branch `index` stands at the start: that branch is
    /// chosen for good.
    Branch { index: int },
    /// Nothing can be parsed here.
    Reject,
}

/// The decision of the dispatcher for `patterns` on `text`. The else branch is
/// tried first, with the exclusion run over all the patterns. Where that
/// fails, the branches are tried from the one declared last back to the
/// first, and the first whose pattern stands at the start of the text is
/// chosen.
pub open spec fn select(patterns: Seq<Seq<char>>, text: Seq<char>) -> Selection {
    match exclusion_run(patterns, text) {
        Some(run) => Selection::Fallback { run },
        None => match last_match(patterns, text) {
            Some(index) => Selection::Branch { index },
            None => Selection::Reject,
        },
    }
}

/// `last_match` finds the greatest index of a pattern that stands at the
/// start of the text, and none exactly if the text begins with no pattern.
pub proof fn lemma_last_match(patterns: Seq<Seq<char>>, text: Seq<char>)
    ensures
        last_match(patterns, text) matches Some(index) ==> {
            &&& 0 <= index < patterns.len()
            &&& patterns[index].is_prefix_of(text)
            &&& forall|later: int|
                index < later < patterns.len() ==> !(#[trigger] patterns[later]).is_prefix_of(text)
        },
        last_match(patterns, text) is None <==> !starts_with_pattern(patterns, text),
    decreases patterns.len(),
{
    if patterns.len() > 0 {
        let earlier = patterns.drop_last();
        lemma_last_match(earlier, text);
        if patterns.last().is_prefix_of(text) {
            assert(patterns[patterns.len() - 1].is_prefix_of(text));
        } else {
            if starts_with_pattern(patterns, text) {
                let i = choose|i: int|
                    0 <= i < patterns.len() && (#[trigger] patterns[i]).is_prefix_of(text);
                assert(earlier[i].is_prefix_of(text));
            }
            if starts_with_pattern(earlier, text) {
                let i = choose|i: int|
                    0 <= i < earlier.len() && (#[trigger] earlier[i]).is_prefix_of(text);
                assert(patterns[i].is_prefix_of(text));
            }
            if last_match(patterns, text) is Some {
                let index = last_match(patterns, text).unwrap();
                assert(patterns[index] == earlier[index]);
                assert forall|later: int| index < later < patterns.len() implies !(
                #[trigger] patterns[later]).is_prefix_of(text) by {
                    if later < earlier.len() {
                        assert(earlier[later] == patterns[later]);
                    }
                }
            }
        }
    }
}

/// With at least one branch, the dispatcher gives up exactly on empty text; it
/// chooses a branch exactly where the text begins with a pattern, and then the
/// one declared last among those whose pattern stands there; and it takes the
/// else branch on all other text.
pub proof fn lemma_select(patterns: Seq<Seq<char>>, text: Seq<char>)
    requires
        patterns.len() > 0,
        all_non_empty(patterns),
    ensures
        select(patterns, text) is Reject <==> text.len() == 0,
        select(patterns, text) is Fallback <==> text.len() > 0 && !starts_with_pattern(
            patterns,
            text,
        ),
        select(patterns, text) matches Selection::Branch { index } ==> {
            &&& 0 <= index < patterns.len()
            &&& patterns[index].is_prefix_of(text)
            &&& forall|later: int|
                index < later < patterns.len() ==> !(#[trigger] patterns[later]).is_prefix_of(text)
        },
{
    lemma_run_stops_at_pattern(patterns, text);
    lemma_last_match(patterns, text);
    if text.len() == 0 && starts_with_pattern(patterns, text) {
        let i = choose|i: int|
            0 <= i < patterns.len() && (#[trigger] patterns[i]).is_prefix_of(text);
        assert(patterns[i].len() > 0);
    }
}

/// The decision of a dispatcher on an input, with what is needed to act on it.
#[derive(Debug, PartialEq, Eq)]
pub enum Route {
    /// The else branch gets `text`; the input goes on at `end`.
    Fallback { text: String, end: usize },
    /// Branch `index` is chosen; its parser starts at `resume`, behind the
    /// pattern.
    Branch { index: usize, resume: usize },
    /// Nothing can be parsed here.
    Reject,
}

/// The branches declared so far: at least one, each a pattern with its parser.
pub struct Branch<'a, P> {
    branches: Vec<(&'a str, P)>,
}

/// Starts a list of branches: `parser` is entered when, and only when, the
/// pattern `begin` stands in the input.
pub fn branch<'a, P>(begin: &'a str, parser: P) -> (made: Branch<'a, P>)
    ensures
        made.patterns() == seq![begin@],
        made.parsers() == seq![parser],
{
    let mut branches: Vec<(&'a str, P)> = Vec::new();
    branches.push((begin, parser));
    proof {
        assert(patterns_of(branches@) =~= seq![begin@]);
        assert(parsers_of(branches@) =~= seq![parser]);
    }
    Branch { branches }
}

impl<'a, P> Branch<'a, P> {
    #[verifier::type_invariant]
    spec fn well_formed(&self) -> bool {
        self.branches@.len() > 0
    }

    /// The patterns of the branches, in the order of declaration.
    pub closed spec fn patterns(&self) -> Seq<Seq<char>> {
        patterns_of(self.branches@)
    }

    /// The parsers of the branches, in the order of declaration.
    pub closed spec fn parsers(&self) -> Seq<P> {
        parsers_of(self.branches@)
    }

    /// Adds one more branch behind those already declared.
    pub fn or_branch(self, begin: &'a str, parser: P) -> (extended: Self)
        ensures
            extended.patterns() == self.patterns().push(begin@),
            extended.parsers() == self.parsers().push(parser),
    {
        let mut branches = self.branches;
        let ghost before = branches@;
        branches.push((begin, parser));
        proof {
            assert(patterns_of(branches@) =~= patterns_of(before).push(begin@));
            assert(parsers_of(branches@) =~= parsers_of(before).push(parser));
        }
        Branch { branches }
    }

    /// Closes the list with the else branch: `branch` turns a run of text that
    /// begins with none of the patterns into a value.
    ///
    /// An empty pattern is refused: the error names the first one.
    pub fn or_else<B>(self, branch: B) -> (made: Result<Dispatch<'a, P, B>, PatternError>)
        ensures
            match made {
                Ok(dispatch) => {
                    &&& all_non_empty(self.patterns())
                    &&& dispatch.patterns() == self.patterns()
                    &&& dispatch.parsers() == self.parsers()
                    &&& dispatch.otherwise() == branch
                },
                Err(PatternError::Empty { index }) => {
                    &&& index < self.patterns().len()
                    &&& self.patterns()[index as int].len() == 0
                    &&& forall|j: int| 0 <= j < index ==> (#[trigger] self.patterns()[j]).len() > 0
                },
            },
    {
        proof {
            use_type_invariant(&self);
        }
        let mut patterns: Vec<&'a str> = Vec::new();
        let mut i: usize = 0;
        while i < self.branches.len()
            invariant
                i <= self.branches@.len(),
                patterns@.len() == i,
                forall|j: int| 0 <= j < i ==> (#[trigger] patterns@[j])@ == self.branches@[j].0@,
            decreases self.branches@.len() - i,
        {
            patterns.push(self.branches[i].0);
            i += 1;
        }
        proof {
            assert(str_views(patterns@) =~= patterns_of(self.branches@));
        }
        match not_containing(patterns.as_slice()) {
            Ok(fallback) => Ok(Dispatch { fallback, otherwise: branch, branches: self.branches }),
            Err(error) => Err(error),
        }
    }
}

/// The parser made by [`Branch::or_else`].
pub struct Dispatch<'a, P, B> {
    fallback: NotContaining,
    otherwise: B,
    branches: Vec<(&'a str, P)>,
}

impl<'a, P, B> Dispatch<'a, P, B> {
    #[verifier::type_invariant]
    spec fn well_formed(&self) -> bool {
        &&& self.branches@.len() > 0
        &&& self.fallback@ == patterns_of(self.branches@)
    }

    /// The patterns of the branches, in the order of declaration.
    pub closed spec fn patterns(&self) -> Seq<Seq<char>> {
        patterns_of(self.branches@)
    }

    /// The parsers of the branches, in the order of declaration.
    pub closed spec fn parsers(&self) -> Seq<P> {
        parsers_of(self.branches@)
    }

    /// The else branch.
    pub closed spec fn otherwise(&self) -> B {
        self.otherwise
    }

    /// The parser of branch `index`, if there is such a branch.
    pub fn parser(&self, index: usize) -> (parser: Option<&P>)
        ensures
            match parser {
                Some(found) => index < self.parsers().len() && *found == self.parsers()[index as int],
                None => index >= self.parsers().len(),
            },
    {
        if index < self.branches.len() {
            Some(&self.branches[index].1)
        } else {
            None
        }
    }

    /// The else branch.
    pub fn else_branch(&self) -> (branch: &B)
        ensures
            *branch == self.otherwise(),
    {
        &self.otherwise
    }

    /// Decides what is to be done with `input` at position `start`, as
    /// [`select`] states over the patterns and the input from `start` on. A
    /// `start` behind the end of the input is rejected.
    #[verifier::loop_isolation(false)]
    pub fn select(&self, input: &[char], start: usize) -> (route: Route)
        ensures
            self.patterns().len() > 0,
            all_non_empty(self.patterns()),
            start > input@.len() ==> route is Reject,
            start <= input@.len() ==> match select(self.patterns(), input@.skip(start as int)) {
                Selection::Fallback { run } => {
                    &&& route matches Route::Fallback { text, end }
                    &&& text@ == run
                    &&& end == start + run.len()
                    &&& end <= input@.len()
                },
                Selection::Branch { index } => {
                    &&& route matches Route::Branch { index: chosen, resume }
                    &&& chosen == index
                    &&& chosen < self.patterns().len()
                    &&& resume == start + self.patterns()[index].len()
                    &&& resume <= input@.len()
                },
                Selection::Reject => route is Reject,
            },
    {
        proof {
            use_type_invariant(self);
        }
        let patterns = self.fallback.patterns();
        if start > input.len() {
            return Route::Reject;
        }
        let ghost all = views(patterns@);
        let ghost text = input@.skip(start as int);
        match self.fallback.parse_at(input, start) {
            Some((text, end)) => Route::Fallback { text, end },
            None => {
                let mut i: usize = patterns.len();
                proof {
                    assert(all.take(i as int) =~= all);
                }
                while i > 0
                    invariant
                        i <= patterns@.len(),
                        all == views(patterns@),
                        text == input@.skip(start as int),
                        start <= input@.len(),
                        last_match(all, text) == last_match(all.take(i as int), text),
                    decreases i,
                {
                    i -= 1;
                    proof {
                        assert(all.take(i + 1).last() == patterns@[i as int]@);
                        assert(all.take(i + 1).drop_last() =~= all.take(i as int));
                    }
                    if literal_at(input, start, patterns[i].as_slice()) {
                        assert(all[i as int].len() <= text.len());
                        return Route::Branch { index: i, resume: start + patterns[i].len() };
                    }
                }
                Route::Reject
            },
        }
    }

    /// Runs the parser on `input` from position `start`.
    ///
    /// Where the else branch is taken, the result is its value for the run,
    /// with the position after the run. Where a branch is chosen, the result
    /// is whatever the parser of that branch returns for the input from behind
    /// the pattern: if it fails, the dispatcher fails, and neither another
    /// branch nor the else branch is tried.
    pub fn parse_at<T>(&self, input: &[char], start: usize) -> (parsed: Option<(T, usize)>) where
        P: Fn(&[char], usize) -> Option<(T, usize)>,
        B: Fn(String) -> T,

        requires
            forall|text: String| call_requires(self.otherwise(), (text,)),
            forall|i: int, resume: usize|
                0 <= i < self.parsers().len() && resume <= input@.len() ==> #[trigger] call_requires(
                    self.parsers()[i],
                    (input, resume),
                ),
        ensures
            start > input@.len() ==> parsed is None,
            start <= input@.len() ==> match select(self.patterns(), input@.skip(start as int)) {
                Selection::Fallback { run } => exists|text: String, value: T|
                    {
                        &&& text@ == run
                        &&& call_ensures(self.otherwise(), (text,), value)
                        &&& parsed == Some((value, (start + run.len()) as usize))
                    },
                Selection::Branch { index } => call_ensures(
                    self.parsers()[index],
                    (input, (start + self.patterns()[index].len()) as usize),
                    parsed,
                ),
                Selection::Reject => parsed is None,
            },
    {
        match self.select(input, start) {
            Route::Fallback { text, end } => {
                assert(self.otherwise() == self.otherwise);
                let value = (self.otherwise)(text);
                Some((value, end))
            },
            Route::Branch { index, resume } => {
                assert(self.parsers()[index as int] == self.branches@[index as int].1);
                (self.branches[index].1)(input, resume)
            },
            Route::Reject => None,
        }
    }
}

} // verus!
