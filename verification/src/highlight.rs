//! The highlighter: the pass that turns the scores of a detector into
//! marks, and that every detector ends with.

use vstd::prelude::*;
use crate::parser::Parser;
use crate::ratio::Ratio;
use crate::word::Ast;
use crate::word::AstView;
use crate::word::Tier;
use crate::word::Word;
use crate::word::WordView;

verus! {

/// The grade of a score on three tiers: none below the threshold, low
/// below one and a half times the threshold, medium below twice the
/// threshold, high from there on.
pub open spec fn three_tier(score: Ratio, threshold: Ratio) -> Option<Tier> {
    if !score.ge(threshold) {
        None
    } else if score.below_one_and_a_half(threshold) {
        Some(Tier::Low)
    } else if score.below_twice(threshold) {
        Some(Tier::Medium)
    } else {
        Some(Tier::High)
    }
}

/// Grades a score on three tiers: see [`three_tier`].
pub fn value_to_colour(x: Ratio, threshold: Ratio) -> (mark: Option<Tier>)
    ensures
        mark == three_tier(x, threshold),
{
    if !x.at_least(&threshold) {
        None
    } else if x.is_below_one_and_a_half(&threshold) {
        Some(Tier::Low)
    } else if x.is_below_twice(&threshold) {
        Some(Tier::Medium)
    } else {
        Some(Tier::High)
    }
}

/// The mark of words that are overused over the whole document, whatever
/// their score.
pub fn global_colour(x: Ratio, threshold: Ratio) -> (mark: Option<Tier>)
    ensures
        mark == Some(Tier::Global),
{
    Some(Tier::Global)
}

/// Whether the highlighter grades a word of this mark and score: the word
/// has no mark yet, and its score has reached the threshold.
pub open spec fn to_mark(severity: Option<Tier>, score: Ratio, threshold: Ratio) -> bool {
    severity is None && score.ge(threshold)
}

/// The token `w` after the highlighter has passed, where `mark` is what
/// it grades the score of `w` with: a followed word that has no mark and
/// whose score has reached the threshold gets `mark`, the score of every
/// followed word is reset to zero, and nothing else changes.
pub open spec fn highlighted(w: WordView, threshold: Ratio, mark: Option<Tier>) -> WordView {
    match w {
        WordView::Followed(text, stem, score, severity) => WordView::Followed(
            text,
            stem,
            Ratio { num: 0, den: 1 },
            if to_mark(severity, score, threshold) {
                mark
            } else {
                severity
            },
        ),
        _ => w,
    }
}

/// Whether `after` is the token `before` after the highlighter has passed
/// with the grading function `f`.
pub open spec fn marks<F: Fn(Ratio, Ratio) -> Option<Tier>>(
    f: F,
    before: WordView,
    threshold: Ratio,
    after: WordView,
) -> bool {
    match before {
        WordView::Followed(_, _, score, severity) => {
            if to_mark(severity, score, threshold) {
                exists|mark: Option<Tier>|
                    call_ensures(f, (score, threshold), mark) && after == highlighted(
                        before,
                        threshold,
                        mark,
                    )
            } else {
                after == highlighted(before, threshold, None)
            }
        },
        _ => after == before,
    }
}

/// Whether `after` is the document `before` after the highlighter has
/// passed over its counted part with the grading function `f`.
pub open spec fn highlights<F: Fn(Ratio, Ratio) -> Option<Tier>>(
    f: F,
    before: AstView,
    threshold: Ratio,
    after: AstView,
) -> bool {
    &&& after.begin_head == before.begin_head
    &&& after.begin_body == before.begin_body
    &&& after.end_body == before.end_body
    &&& after.words.len() == before.words.len()
    &&& forall|i: int|
        0 <= i < before.words.len() ==> if before.body_start() <= i < before.body_end() {
            marks(f, #[trigger] before.words[i], threshold, after.words[i])
        } else {
            after.words[i] == before.words[i]
        }
}

impl Parser {
    /// Passes the highlighter over the counted part of the document.
    ///
    /// Every followed word there that has no mark yet and whose score has
    /// reached `threshold` gets what `f` grades its score with; a mark that
    /// is set stays. The score of every followed word there is then zero,
    /// so that the next detector starts afresh.
    pub fn highlight<F: Fn(Ratio, Ratio) -> Option<Tier>>(
        &self,
        ast: &mut Ast,
        threshold: Ratio,
        f: F,
    )
        requires
            forall|score: Ratio| score.ge(threshold) ==> call_requires(f, (score, threshold)),
        ensures
            highlights(f, old(ast)@, threshold, final(ast)@),
    {
        let (lo, hi) = ast.body_range();
        let mut i: usize = lo;
        while i < hi
            invariant
                lo <= i <= hi <= ast.words.len(),
                lo == old(ast)@.body_start(),
                hi == old(ast)@.body_end(),
                forall|score: Ratio| score.ge(threshold) ==> call_requires(f, (score, threshold)),
                ast.begin_head == old(ast).begin_head,
                ast.begin_body == old(ast).begin_body,
                ast.end_body == old(ast).end_body,
                ast.words.len() == old(ast).words.len(),
                forall|k: int|
                    0 <= k < ast.words.len() ==> if lo <= k < i {
                        marks(f, #[trigger] old(ast)@.words[k], threshold, ast@.words[k])
                    } else {
                        ast@.words[k] == old(ast)@.words[k]
                    },
            decreases hi - i,
        {
            let ghost before = ast@;
            let ghost mut given: Option<Tier> = None;
            match &mut ast.words[i] {
                Word::Followed(_, _, v, option) => {
                    if option.is_none() && v.at_least(&threshold) {
                        let mark = f(*v, threshold);
                        proof {
                            given = mark;
                        }
                        *option = mark;
                    }
                    *v = Ratio::zero();
                },
                _ => {},
            }
            assert(forall|k: int|
                0 <= k < ast.words.len() && k != i ==> ast@.words[k] == before.words[k]);
            assert(marks(f, before.words[i as int], threshold, ast@.words[i as int])) by {
                assert(before.words[i as int] is Followed ==> ast@.words[i as int] == highlighted(
                    before.words[i as int],
                    threshold,
                    given,
                ));
            }
            i += 1;
        }
    }
}

} // verus!
