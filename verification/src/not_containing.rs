//! The exclusion run: the divergence parser repeated, to take a non-empty run
//! of input up to where a pattern begins.

use crate::error::PatternError;
use crate::patterns::{
    all_non_empty, is_pattern_prefix, pattern_at, starts_with_pattern, str_views, views,
};
use crate::not_starting_with::{divergence, lemma_divergence, not_starting_with, NotStartingWith};
use crate::subpatterns::begins_with;
use vstd::prelude::*;

verus! {

/// `String::push` appends the character to the end of the string.
pub assume_specification[ String::push ](text: &mut String, ch: char)
    ensures
        final(text)@ == old(text)@.push(ch),
;

/// The pieces that the divergence parser for `patterns` takes from `text`
/// when it is applied again and again, each time to what the piece before
/// left, until it fails or takes nothing.
pub open spec fn run_segments(patterns: Seq<Seq<char>>, text: Seq<char>) -> Seq<Seq<char>>
    decreases text.len(),
{
    let step = divergence(patterns, text);
    if step is Some && 0 < step.unwrap() <= text.len() {
        seq![text.take(step.unwrap() as int)] + run_segments(
            patterns,
            text.skip(step.unwrap() as int),
        )
    } else {
        Seq::empty()
    }
}

/// What the exclusion run for `patterns` takes from `text`: the pieces of
/// [`run_segments`] joined in order, or `None` where there is no piece.
pub open spec fn exclusion_run(patterns: Seq<Seq<char>>, text: Seq<char>) -> Option<Seq<char>> {
    let run = run_segments(patterns, text).flatten();
    if run.len() == 0 {
        None
    } else {
        Some(run)
    }
}

/// `at` is a position of `text` at which one piece of the run ends and the
/// divergence parser is applied anew.
pub open spec fn is_segment_boundary(patterns: Seq<Seq<char>>, text: Seq<char>, at: nat) -> bool
    decreases text.len(),
{
    let step = divergence(patterns, text);
    if at == 0 {
        true
    } else if step is Some && 0 < step.unwrap() <= text.len() && step.unwrap() <= at {
        is_segment_boundary(patterns, text.skip(step.unwrap() as int), (at - step.unwrap()) as nat)
    } else {
        false
    }
}

/// Joining a first piece and further pieces gives the first piece followed by
/// the further pieces joined.
proof fn lemma_flatten_first(first: Seq<char>, more: Seq<Seq<char>>)
    ensures
        (seq![first] + more).flatten() == first + more.flatten(),
{
    let all = seq![first] + more;
    assert(all.first() == first);
    assert(all.drop_first() =~= more);
}

/// The pieces of a run, joined in order, are a beginning of the text: the run
/// drops no character, repeats none, and changes no order.
pub proof fn lemma_run_is_prefix(patterns: Seq<Seq<char>>, text: Seq<char>)
    ensures
        run_segments(patterns, text).flatten().is_prefix_of(text),
    decreases text.len(),
{
    let step = divergence(patterns, text);
    let run = run_segments(patterns, text).flatten();
    if step is Some && 0 < step.unwrap() <= text.len() {
        let taken = step.unwrap() as int;
        let rest = text.skip(taken);
        lemma_run_is_prefix(patterns, rest);
        lemma_flatten_first(text.take(taken), run_segments(patterns, rest));
        let more = run_segments(patterns, rest).flatten();
        assert(more =~= rest.subrange(0, more.len() as int));
        assert(run =~= text.subrange(0, run.len() as int));
    } else {
        assert(run =~= text.subrange(0, 0));
    }
}

/// What the exclusion run takes is exactly its pieces joined in order, it is
/// never empty, and it is a beginning of the text.
pub proof fn lemma_run_concatenates(patterns: Seq<Seq<char>>, text: Seq<char>)
    ensures
        exclusion_run(patterns, text) matches Some(run) ==> {
            &&& run == run_segments(patterns, text).flatten()
            &&& run.len() > 0
            &&& run.is_prefix_of(text)
        },
        exclusion_run(patterns, text) is None <==> run_segments(patterns, text).len() == 0,
{
    lemma_run_is_prefix(patterns, text);
    let pieces = run_segments(patterns, text);
    if pieces.len() > 0 {
        let step = divergence(patterns, text);
        let taken = step.unwrap() as int;
        lemma_flatten_first(text.take(taken), run_segments(patterns, text.skip(taken)));
    }
}

/// The run for a non-empty set of patterns fails exactly on empty text and on
/// text that begins with a pattern, and where it stops before the end of the
/// text, a pattern begins.
pub proof fn lemma_run_stops_at_pattern(patterns: Seq<Seq<char>>, text: Seq<char>)
    requires
        patterns.len() > 0,
    ensures
        exclusion_run(patterns, text) is None <==> text.len() == 0 || starts_with_pattern(
            patterns,
            text,
        ),
        exclusion_run(patterns, text) matches Some(run) ==> run.len() == text.len()
            || pattern_at(patterns, text, run.len() as int),
    decreases text.len(),
{
    lemma_divergence(patterns, text);
    lemma_run_concatenates(patterns, text);
    let step = divergence(patterns, text);
    if step is Some {
        let taken = step.unwrap() as int;
        let rest = text.skip(taken);
        lemma_run_stops_at_pattern(patterns, rest);
        lemma_run_concatenates(patterns, rest);
        lemma_flatten_first(text.take(taken), run_segments(patterns, rest));
        let more = run_segments(patterns, rest).flatten();
        let run = run_segments(patterns, text).flatten();
        assert(run.len() == taken + more.len());
        if exclusion_run(patterns, rest) is None {
            assert(more.len() == 0);
            if rest.len() > 0 {
                assert(text.skip(run.len() as int) =~= rest);
            }
        } else if more.len() < rest.len() {
            assert(rest.skip(more.len() as int) =~= text.skip(run.len() as int));
        }
    }
}

/// On non-empty text in which no pattern occurs, the run for a non-empty set
/// of non-empty patterns succeeds and takes the whole text.
pub proof fn lemma_run_takes_pattern_free_text(patterns: Seq<Seq<char>>, text: Seq<char>)
    requires
        patterns.len() > 0,
        all_non_empty(patterns),
        text.len() > 0,
        forall|at: int| !pattern_at(patterns, text, at),
    ensures
        exclusion_run(patterns, text) == Some(text),
{
    lemma_run_stops_at_pattern(patterns, text);
    lemma_run_concatenates(patterns, text);
    assert(!pattern_at(patterns, text, 0));
    assert(text.skip(0) =~= text);
    let run = exclusion_run(patterns, text).unwrap();
    assert(!pattern_at(patterns, text, run.len() as int));
    assert(run =~= text);
}

/// Where a pattern begins at a position at which a piece of the run ends, the
/// run stops there: it fails if that is the start of the text, and else takes
/// the text before that position. This holds in particular of the first
/// place at which a pattern occurs, if no piece reaches across it.
pub proof fn lemma_run_stops_before_pattern(patterns: Seq<Seq<char>>, text: Seq<char>, at: nat)
    requires
        all_non_empty(patterns),
        pattern_at(patterns, text, at as int),
        is_segment_boundary(patterns, text, at),
    ensures
        exclusion_run(patterns, text) == (if at == 0 {
            None
        } else {
            Some(text.take(at as int))
        }),
    decreases text.len(),
{
    let step = divergence(patterns, text);
    if at == 0 {
        assert(text.skip(0) =~= text);
    } else {
        let taken = step.unwrap() as int;
        let rest = text.skip(taken);
        assert(rest.skip(at - taken) =~= text.skip(at as int));
        lemma_run_stops_before_pattern(patterns, rest, (at - taken) as nat);
        lemma_flatten_first(text.take(taken), run_segments(patterns, rest));
        let more = run_segments(patterns, rest).flatten();
        if at == taken {
            assert(more =~= Seq::<char>::empty());
        } else {
            assert(more == rest.take(at - taken));
        }
        assert(text.take(taken) + more =~= text.take(at as int));
    }
}

/// The run never stops short of the first pattern: where no pattern begins
/// before `at`, the run succeeds and takes at least the text before `at`.
pub proof fn lemma_run_reaches_first_pattern(patterns: Seq<Seq<char>>, text: Seq<char>, at: nat)
    requires
        patterns.len() > 0,
        0 < at <= text.len(),
        forall|before: int| 0 <= before < at ==> !pattern_at(patterns, text, before),
    ensures
        exclusion_run(patterns, text) matches Some(run) && run.len() >= at,
    decreases text.len(),
{
    lemma_divergence(patterns, text);
    assert(!pattern_at(patterns, text, 0));
    assert(text.skip(0) =~= text);
    let taken = divergence(patterns, text).unwrap() as int;
    let rest = text.skip(taken);
    lemma_flatten_first(text.take(taken), run_segments(patterns, rest));
    if taken < at {
        assert forall|before: int| 0 <= before < at - taken implies !pattern_at(
            patterns,
            rest,
            before,
        ) by {
            assert(rest.skip(before) =~= text.skip(taken + before));
            assert(!pattern_at(patterns, text, taken + before));
        }
        lemma_run_reaches_first_pattern(patterns, rest, (at - taken) as nat);
    }
}

/// Some pattern begins with the character `ch`.
pub open spec fn is_first_char(patterns: Seq<Seq<char>>, ch: char) -> bool {
    exists|i: int| 0 <= i < patterns.len() && begins_with(#[trigger] patterns[i], ch)
}

/// The patterns are such that a pattern can begin in a piece of a run only at
/// the start of the piece. Between the first and the last character of a
/// pattern, no character is the first of a pattern; and a beginning of a
/// pattern that is not yet the whole pattern, followed by the first character
/// of a pattern, is again the beginning of a pattern.
pub open spec fn patterns_begin_pieces(patterns: Seq<Seq<char>>) -> bool {
    &&& forall|i: int, k: int|
        0 <= i < patterns.len() && 1 <= k < patterns[i].len() - 1 ==> !is_first_char(
            patterns,
            #[trigger] patterns[i][k],
        )
    &&& forall|i: int, k: int, j: int|
        0 <= i < patterns.len() && 1 <= k < patterns[i].len() && 0 <= j < patterns.len()
            && patterns[j].len() > 0 ==> is_pattern_prefix(
            patterns,
            #[trigger] patterns[i].take(k).push(patterns[j][0]),
        )
}

/// With such patterns, no character of a piece behind its first is the first
/// character of a pattern.
proof fn lemma_piece_holds_no_start(patterns: Seq<Seq<char>>, text: Seq<char>, at: int)
    requires
        patterns.len() > 0,
        patterns_begin_pieces(patterns),
        divergence(patterns, text) is Some,
        1 <= at < divergence(patterns, text).unwrap(),
    ensures
        !is_first_char(patterns, text[at]),
{
    lemma_divergence(patterns, text);
    let taken = divergence(patterns, text).unwrap() as int;
    let head = text.take(taken - 1);
    let i = choose|i: int| 0 <= i < patterns.len() && head.is_prefix_of(#[trigger] patterns[i]);
    let held = patterns[i];
    assert(held.len() >= taken) by {
        if held.len() == taken - 1 {
            assert(held =~= text.subrange(0, held.len() as int));
            assert(patterns[i].is_prefix_of(text));
        }
    }
    assert(forall|k: int| 0 <= k < taken - 1 ==> held[k] == text[k]) by {
        assert forall|k: int| 0 <= k < taken - 1 implies held[k] == text[k] by {
            assert(head[k] == held.subrange(0, head.len() as int)[k]);
        }
    }
    if at < taken - 1 {
        assert(!is_first_char(patterns, patterns[i][at]));
    } else if is_pattern_prefix(patterns, text.take(taken)) {
        let whole = text.take(taken);
        let j = choose|j: int|
            0 <= j < patterns.len() && whole.is_prefix_of(#[trigger] patterns[j]);
        let longer = patterns[j];
        if longer.len() == taken {
            assert(longer =~= text.subrange(0, longer.len() as int));
            assert(patterns[j].is_prefix_of(text));
        }
        assert(whole[at] == longer.subrange(0, whole.len() as int)[at]);
        assert(!is_first_char(patterns, patterns[j][at]));
    } else if is_first_char(patterns, text[at]) {
        let j = choose|j: int| 0 <= j < patterns.len() && begins_with(#[trigger] patterns[j], text[at]);
        assert(is_pattern_prefix(patterns, patterns[i].take(at).push(patterns[j][0])));
        assert(patterns[i].take(at).push(patterns[j][0]) =~= text.take(taken));
    }
}

/// With such patterns, the first place at which a pattern occurs is a place
/// at which a piece of the run ends.
pub proof fn lemma_first_pattern_is_boundary(patterns: Seq<Seq<char>>, text: Seq<char>, at: nat)
    requires
        all_non_empty(patterns),
        patterns_begin_pieces(patterns),
        pattern_at(patterns, text, at as int),
        forall|before: int| 0 <= before < at ==> !pattern_at(patterns, text, before),
    ensures
        is_segment_boundary(patterns, text, at),
    decreases text.len(),
{
    if at > 0 {
        lemma_divergence(patterns, text);
        assert(!pattern_at(patterns, text, 0));
        assert(text.skip(0) =~= text);
        let taken = divergence(patterns, text).unwrap() as int;
        let i = choose|i: int|
            0 <= i < patterns.len() && (#[trigger] patterns[i]).is_prefix_of(text.skip(at as int));
        assert(begins_with(patterns[i], text[at as int])) by {
            assert(patterns[i][0] == text.skip(at as int).subrange(0, patterns[i].len() as int)[0]);
        }
        if taken > at {
            lemma_piece_holds_no_start(patterns, text, at as int);
        }
        let rest = text.skip(taken);
        assert(rest.skip(at - taken) =~= text.skip(at as int));
        assert forall|before: int| 0 <= before < at - taken implies !pattern_at(
            patterns,
            rest,
            before,
        ) by {
            assert(rest.skip(before) =~= text.skip(taken + before));
            assert(!pattern_at(patterns, text, taken + before));
        }
        lemma_first_pattern_is_boundary(patterns, rest, (at - taken) as nat);
    }
}

/// With such patterns, the run stops exactly before the first pattern that
/// occurs in the text: it fails if the text begins with it, and else takes
/// the text before it.
pub proof fn lemma_run_stops_before_first_pattern(
    patterns: Seq<Seq<char>>,
    text: Seq<char>,
    at: nat,
)
    requires
        all_non_empty(patterns),
        patterns_begin_pieces(patterns),
        pattern_at(patterns, text, at as int),
        forall|before: int| 0 <= before < at ==> !pattern_at(patterns, text, before),
    ensures
        exclusion_run(patterns, text) == (if at == 0 {
            None
        } else {
            Some(text.take(at as int))
        }),
{
    lemma_first_pattern_is_boundary(patterns, text, at);
    lemma_run_stops_before_pattern(patterns, text, at);
}

/// The pieces joined, in order, into one string.
pub fn join(pieces: &Vec<Vec<char>>) -> (text: String)
    ensures
        text@ == views(pieces@).flatten(),
{
    let mut text = String::new();
    let mut i: usize = 0;
    proof {
        assert(views(pieces@).take(0) =~= Seq::<Seq<char>>::empty());
    }
    while i < pieces.len()
        invariant
            i <= pieces@.len(),
            text@ == views(pieces@).take(i as int).flatten(),
        decreases pieces@.len() - i,
    {
        let piece = &pieces[i];
        let ghost joined = text@;
        let mut k: usize = 0;
        while k < piece.len()
            invariant
                k <= piece@.len(),
                text@ == joined + piece@.take(k as int),
            decreases piece@.len() - k,
        {
            text.push(piece[k]);
            proof {
                assert(piece@.take(k + 1) =~= piece@.take(k as int).push(piece@[k as int]));
                assert(joined + piece@.take(k + 1) =~= (joined + piece@.take(k as int)).push(
                    piece@[k as int],
                ));
            }
            k += 1;
        }
        proof {
            assert(piece@.take(piece@.len() as int) =~= piece@);
            assert(views(pieces@).take(i + 1) =~= views(pieces@).take(i as int).push(piece@));
            views(pieces@).take(i as int).lemma_flatten_push(piece@);
        }
        i += 1;
    }
    proof {
        assert(views(pieces@).take(pieces@.len() as int) =~= views(pieces@));
    }
    text
}

/// The parser made by [`not_containing`].
///
/// Its view is the list of its patterns, none of which is empty.
pub struct NotContaining {
    step: NotStartingWith,
}

impl View for NotContaining {
    type V = Seq<Seq<char>>;

    closed spec fn view(&self) -> Seq<Seq<char>> {
        self.step@
    }
}

impl NotContaining {
    /// The patterns of the parser.
    pub fn patterns(&self) -> (patterns: &Vec<Vec<char>>)
        ensures
            views(patterns@) == self@,
            all_non_empty(self@),
    {
        self.step.patterns()
    }

    /// Runs the parser on `input` from position `start`.
    ///
    /// On success the result holds the run as a string and the position after
    /// it. The run is the pieces of [`run_segments`] joined in order, as
    /// [`exclusion_run`] states over the patterns and the input from `start`
    /// on. A `start` behind the end of the input fails.
    pub fn parse_at(&self, input: &[char], start: usize) -> (parsed: Option<(String, usize)>)
        ensures
            all_non_empty(self@),
            start > input@.len() ==> parsed is None,
            start <= input@.len() ==> match exclusion_run(self@, input@.skip(start as int)) {
                Some(run) => {
                    &&& parsed matches Some((text, end))
                    &&& text@ == run
                    &&& end == start + run.len()
                    &&& end <= input@.len()
                    &&& run == input@.subrange(start as int, end as int)
                },
                None => parsed is None,
            },
    {
        // The patterns of the step come with the fact that none of them is empty.
        let _ = self.step.patterns();
        if start > input.len() {
            return None;
        }
        let ghost patterns = self@;
        let ghost whole = input@.skip(start as int);
        let mut pieces: Vec<Vec<char>> = Vec::new();
        let mut at: usize = start;
        let mut done = false;
        proof {
            assert(views(pieces@) + run_segments(patterns, whole) =~= run_segments(
                patterns,
                whole,
            ));
            assert(views(pieces@).flatten() =~= input@.subrange(start as int, at as int));
        }
        while !done
            invariant
                patterns == self@,
                whole == input@.skip(start as int),
                start <= at <= input@.len(),
                views(pieces@) + run_segments(patterns, input@.skip(at as int)) == run_segments(
                    patterns,
                    whole,
                ),
                views(pieces@).flatten() == input@.subrange(start as int, at as int),
                done ==> run_segments(patterns, input@.skip(at as int)).len() == 0,
            decreases input@.len() - at + (if done { 0int } else { 1int }),
        {
            let ghost rest = input@.skip(at as int);
            let ghost before = pieces@;
            match self.step.parse_at(input, at) {
                Some((piece, end)) => {
                    if end > at {
                        pieces.push(piece);
                        proof {
                            let taken = end - at;
                            assert(rest.take(taken) =~= piece@);
                            assert(rest.skip(taken) =~= input@.skip(end as int));
                            assert(views(pieces@) =~= views(before).push(piece@));
                            assert(views(pieces@) + run_segments(patterns, input@.skip(end as int))
                                =~= views(before) + run_segments(patterns, rest));
                            views(before).lemma_flatten_push(piece@);
                            assert(input@.subrange(start as int, at as int) + piece@
                                =~= input@.subrange(start as int, end as int));
                        }
                        at = end;
                    } else {
                        done = true;
                    }
                },
                None => {
                    done = true;
                },
            }
        }
        proof {
            assert(views(pieces@) =~= run_segments(patterns, whole));
        }
        if pieces.len() == 0 {
            None
        } else {
            let text = join(&pieces);
            proof {
                assert(views(pieces@)[0].len() > 0) by {
                    let first = divergence(patterns, whole);
                    assert(views(pieces@)[0] == whole.take(first.unwrap() as int));
                }
                views(pieces@).lemma_flatten_length_ge_single_element_length(0);
            }
            Some((text, at))
        }
    }
}

/// Makes the parser that takes a non-empty run of input in which, piece by
/// piece, no pattern begins.
///
/// An empty pattern is refused: the error names the first one.
pub fn not_containing(patterns: &[&str]) -> (made: Result<NotContaining, PatternError>)
    ensures
        match made {
            Ok(parser) => all_non_empty(str_views(patterns@)) && parser@ == str_views(patterns@),
            Err(PatternError::Empty { index }) => {
                &&& index < patterns@.len()
                &&& patterns@[index as int]@.len() == 0
                &&& forall|j: int| 0 <= j < index ==> (#[trigger] patterns@[j])@.len() > 0
            },
        },
{
    match not_starting_with(patterns) {
        Ok(step) => Ok(NotContaining { step }),
        Err(error) => Err(error),
    }
}

} // verus!
