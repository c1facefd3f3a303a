//! The global detector: it marks the words whose stem makes up too large a
//! share of the words of the document.

use vstd::prelude::*;
use crate::highlight::global_colour;
use crate::highlight::highlighted;
use crate::parser::Parser;
use crate::ratio::product;
use crate::ratio::Ratio;
use crate::word::Ast;
use crate::word::AstView;
use crate::word::Tier;
use crate::word::Word;
use crate::word::WordView;

verus! {

/// The number of followed words of the stem `stem` among `words`.
pub open spec fn occurrences(words: Seq<WordView>, stem: Seq<char>) -> nat
    decreases words.len(),
{
    if words.len() == 0 {
        0
    } else {
        occurrences(words.drop_last(), stem) + if words.last() is Followed && words.last().stem()
            == stem {
            1nat
        } else {
            0nat
        }
    }
}

/// The number of words among `words`, followed or ignored.
pub open spec fn word_count(words: Seq<WordView>) -> nat
    decreases words.len(),
{
    if words.len() == 0 {
        0
    } else {
        word_count(words.drop_last()) + if words.last().counted() {
            1nat
        } else {
            0nat
        }
    }
}

/// Neither count exceeds the number of tokens.
pub proof fn lemma_counts_bounded(words: Seq<WordView>, stem: Seq<char>)
    ensures
        occurrences(words, stem) <= word_count(words) <= words.len(),
    decreases words.len(),
{
    if words.len() > 0 {
        lemma_counts_bounded(words.drop_last(), stem);
    }
}

/// Whether a document of `total` words is too short for the threshold: a
/// single word of it would already make up the share `threshold`.
pub open spec fn too_short(threshold: Ratio, total: nat) -> bool {
    threshold.den >= threshold.num * total
}

/// The share of the stem of `w` among the words of `body`.
pub open spec fn share(body: Seq<WordView>, w: WordView) -> Ratio {
    Ratio { num: occurrences(body, w.stem()) as u64, den: word_count(body) as u64 }
}

/// The token `w` after the global detector has passed over `body`: the
/// highlighter has marked it by the share of its stem.
pub open spec fn globally_marked(body: Seq<WordView>, threshold: Ratio, w: WordView) -> WordView {
    match w {
        WordView::Followed(_, _, _, _) => highlighted(
            w.with_score(share(body, w)),
            threshold,
            Some(Tier::Global),
        ),
        _ => w,
    }
}

/// The document after the global detector has passed: nothing changes
/// where the document is too short for the threshold, or outside the
/// counted part.
pub open spec fn globally_detected(ast: AstView, threshold: Ratio) -> AstView {
    if too_short(threshold, word_count(ast.body())) {
        ast
    } else {
        AstView {
            words: Seq::new(
                ast.words.len(),
                |i: int|
                    if ast.body_start() <= i < ast.body_end() {
                        globally_marked(ast.body(), threshold, ast.words[i])
                    } else {
                        ast.words[i]
                    },
            ),
            ..ast
        }
    }
}

/// Whether `stats` lists the stems of the followed words of `body`, each
/// once, with the number of its occurrences.
pub open spec fn counts_stems(stats: Seq<(String, usize)>, body: Seq<WordView>) -> bool {
    &&& forall|k: int|
        0 <= k < stats.len() ==> (#[trigger] stats[k]).1 == occurrences(body, stats[k].0@)
            && stats[k].1 >= 1
    &&& forall|j: int, k: int|
        0 <= j < k < stats.len() ==> (#[trigger] stats[j]).0@ != (#[trigger] stats[k]).0@
    &&& forall|i: int|
        0 <= i < body.len() && (#[trigger] body[i]) is Followed ==> exists|k: int|
            0 <= k < stats.len() && (#[trigger] stats[k]).0@ == body[i].stem()
}

/// The index of the entry of `stem` in `stats`, if it has one.
pub fn find_stem(stats: &Vec<(String, usize)>, stem: &String) -> (r: Option<usize>)
    ensures
        match r {
            Some(k) => k < stats.len() && stats[k as int].0@ == stem@,
            None => forall|k: int| 0 <= k < stats.len() ==> (#[trigger] stats[k]).0@ != stem@,
        },
{
    let mut k: usize = 0;
    while k < stats.len()
        invariant
            k <= stats.len(),
            forall|j: int| 0 <= j < k ==> (#[trigger] stats[j]).0@ != stem@,
        decreases stats.len() - k,
    {
        if stats[k].0 == *stem {
            return Some(k);
        }
        k += 1;
    }
    None
}

/// The counts grow with the token that is appended.
proof fn lemma_count_step(body: Seq<WordView>, i: int, stem: Seq<char>)
    requires
        0 <= i < body.len(),
    ensures
        occurrences(body.take(i + 1), stem) == occurrences(body.take(i), stem) + if body[i]
            is Followed && body[i].stem() == stem {
            1nat
        } else {
            0nat
        },
        word_count(body.take(i + 1)) == word_count(body.take(i)) + if body[i].counted() {
            1nat
        } else {
            0nat
        },
{
    assert(body.take(i + 1).drop_last() == body.take(i));
}

/// A stem that occurs among `words` is the stem of one of them.
proof fn lemma_occurrence_found(words: Seq<WordView>, stem: Seq<char>)
    requires
        occurrences(words, stem) > 0,
    ensures
        exists|j: int|
            0 <= j < words.len() && (#[trigger] words[j]) is Followed && words[j].stem() == stem,
    decreases words.len(),
{
    if words.last() is Followed && words.last().stem() == stem {
        assert(words[words.len() - 1] is Followed);
    } else {
        lemma_occurrence_found(words.drop_last(), stem);
        let j = choose|j: int|
            0 <= j < words.drop_last().len() && (#[trigger] words.drop_last()[j]) is Followed
                && words.drop_last()[j].stem() == stem;
        assert(words[j] == words.drop_last()[j]);
    }
}

impl Parser {
    /// The statistics of the counted part of the document: its stems, each
    /// with the number of followed words that have it, and the number of
    /// its words, followed or ignored.
    pub fn words_stats(&self, ast: &Ast) -> (r: (Vec<(String, usize)>, usize))
        ensures
            counts_stems(r.0@, ast@.body()),
            r.1 == word_count(ast@.body()),
    {
        let (lo, hi) = ast.body_range();
        let mut stats: Vec<(String, usize)> = Vec::new();
        let mut count: usize = 0;
        let mut i: usize = lo;
        let ghost body = ast@.body();
        assert(body.take(0) =~= Seq::<WordView>::empty());
        while i < hi
            invariant
                lo <= i <= hi <= ast.words.len(),
                body == ast@.body(),
                lo == ast@.body_start(),
                hi == ast@.body_end(),
                counts_stems(stats@, body.take(i - lo)),
                count == word_count(body.take(i - lo)),
            decreases hi - i,
        {
            let ghost seen = body.take(i - lo);
            let ghost next = body.take(i - lo + 1);
            let ghost prev = stats@;
            let ghost mut witness = 0int;
            proof {
                assert(body[i - lo] == ast@.words[i as int]);
                lemma_counts_bounded(seen, Seq::empty());
                lemma_count_step(body, i - lo, Seq::empty());
            }
            match &ast.words[i] {
                Word::Untracked(_) => {},
                Word::Ignored(_) => {
                    count += 1;
                },
                Word::Followed(_, stemmed, _, _) => {
                    count += 1;
                    match find_stem(&stats, stemmed) {
                        Some(k) => {
                            proof {
                                lemma_counts_bounded(seen, stemmed@);
                                witness = k as int;
                            }
                            let entry = (stats[k].0.clone(), stats[k].1 + 1);
                            stats.set(k, entry);
                        },
                        None => {
                            proof {
                                if occurrences(seen, stemmed@) > 0 {
                                    lemma_occurrence_found(seen, stemmed@);
                                    let j = choose|j: int|
                                        0 <= j < seen.len() && (#[trigger] seen[j]) is Followed
                                            && seen[j].stem() == stemmed@;
                                    let k = choose|k: int|
                                        0 <= k < prev.len() && (#[trigger] prev[k]).0@
                                            == seen[j].stem();
                                    assert(false);
                                }
                                witness = prev.len() as int;
                            }
                            stats.push((stemmed.clone(), 1));
                        },
                    }
                },
            }
            proof {
                let w = body[i - lo];
                assert forall|k: int| 0 <= k < stats.len() implies (#[trigger] stats[k]).1
                    == occurrences(next, stats[k].0@) && stats[k].1 >= 1 by {
                    lemma_count_step(body, i - lo, stats[k].0@);
                    if k < prev.len() {
                        assert(prev[k].1 == occurrences(seen, prev[k].0@));
                        if w is Followed && k != witness {
                            assert(prev[k].0@ != prev[witness].0@ || witness >= prev.len());
                        }
                    }
                }
                assert forall|j: int, k: int| 0 <= j < k < stats.len() implies (
                #[trigger] stats[j]).0@ != (#[trigger] stats[k]).0@ by {
                    if k < prev.len() {
                        assert(prev[j].0@ != prev[k].0@);
                    } else {
                        assert(prev[j].0@ != w.stem());
                    }
                }
                assert forall|j: int| 0 <= j < next.len() && (#[trigger] next[j])
                    is Followed implies exists|k: int|
                    0 <= k < stats.len() && (#[trigger] stats[k]).0@ == next[j].stem() by {
                    if j < seen.len() {
                        assert(seen[j] is Followed);
                        let k = choose|k: int|
                            0 <= k < prev.len() && (#[trigger] prev[k]).0@ == seen[j].stem();
                        assert(stats[k].0@ == prev[k].0@);
                    } else {
                        assert(stats[witness].0@ == w.stem());
                    }
                }
            }
            i += 1;
        }
        assert(body.take(hi - lo) == body);
        (stats, count)
    }

    /// Marks the words whose stem makes up at least the share `threshold`
    /// of the words of the counted part of the document.
    ///
    /// A document so short that a single word would already make up that
    /// share is left as it is. In any other, each followed word of the
    /// counted part is scored by the share of its stem and the highlighter
    /// passes with the one mark of this detector: see
    /// [`globally_detected`].
    pub fn detect_global(&self, ast: &mut Ast, threshold: Ratio)
        ensures
            final(ast)@ == globally_detected(old(ast)@, threshold),
    {
        let (stats, count) = self.words_stats(ast);
        let ghost body = ast@.body();
        proof {
            lemma_counts_bounded(body, Seq::empty());
        }
        if threshold.den as u128 >= product(threshold.num, count as u64) {
            return ;
        }
        assert(count >= 1) by {
            if count == 0 {
                assert(threshold.num * 0 == 0);
            }
        }
        let (lo, hi) = ast.body_range();
        let mut i: usize = lo;
        while i < hi
            invariant
                lo <= i <= hi <= ast.words.len(),
                body == old(ast)@.body(),
                lo == old(ast)@.body_start(),
                hi == old(ast)@.body_end(),
                counts_stems(stats@, body),
                count == word_count(body),
                count >= 1,
                ast.begin_head == old(ast).begin_head,
                ast.begin_body == old(ast).begin_body,
                ast.end_body == old(ast).end_body,
                ast.words.len() == old(ast).words.len(),
                forall|k: int|
                    0 <= k < ast.words.len() ==> #[trigger] ast@.words[k] == if lo <= k < i
                        && old(ast)@.words[k] is Followed {
                        old(ast)@.words[k].with_score(share(body, old(ast)@.words[k]))
                    } else {
                        old(ast)@.words[k]
                    },
            decreases hi - i,
        {
            let ghost before = ast@;
            assert(ast@.words[i as int] == old(ast)@.words[i as int]);
            let entry = match &ast.words[i] {
                Word::Followed(_, stemmed, _, _) => find_stem(&stats, stemmed),
                _ => None,
            };
            proof {
                assert(body[i - lo] == old(ast)@.words[i as int]);
                assert(entry is Some ==> body[i - lo] is Followed);
                if body[i - lo] is Followed && entry is None {
                    let k = choose|k: int|
                        0 <= k < stats.len() && (#[trigger] stats[k]).0@ == body[i - lo].stem();
                    assert(false);
                }
            }
            if let Some(k) = entry {
                proof {
                    lemma_counts_bounded(body, stats[k as int].0@);
                }
                ast.words[i].set_count(Ratio { num: stats[k].1 as u64, den: count as u64 });
                proof {
                    let w = old(ast)@.words[i as int];
                    assert(stats[k as int].1 == occurrences(body, w.stem()));
                    assert(share(body, w) == (Ratio {
                        num: stats[k as int].1 as u64,
                        den: count as u64,
                    }));
                    assert(ast@.words[i as int] == w.with_score(share(body, w)));
                }
            }
            assert(forall|k: int|
                0 <= k < ast.words.len() && k != i ==> ast@.words[k] == before.words[k]);
            assert(ast@.words[i as int] == if old(ast)@.words[i as int] is Followed {
                old(ast)@.words[i as int].with_score(share(body, old(ast)@.words[i as int]))
            } else {
                old(ast)@.words[i as int]
            });
            assert forall|k: int| 0 <= k < ast.words.len() implies #[trigger] ast@.words[k]
                == if lo <= k < i + 1 && old(ast)@.words[k] is Followed {
                old(ast)@.words[k].with_score(share(body, old(ast)@.words[k]))
            } else {
                old(ast)@.words[k]
            } by {
                if k != i {
                    assert(ast@.words[k] == before.words[k]);
                }
            }
            i += 1;
        }
        let ghost scored = ast@;
        self.highlight(ast, threshold, global_colour);
        proof {
            let expected = globally_detected(old(ast)@, threshold);
            assert(scored.body_start() == lo && scored.body_end() == hi);
            assert forall|k: int| 0 <= k < ast@.words.len() implies ast@.words[k]
                == expected.words[k] by {
                assert(scored.words[k] == if lo <= k < hi && old(ast)@.words[k] is Followed {
                    old(ast)@.words[k].with_score(share(body, old(ast)@.words[k]))
                } else {
                    old(ast)@.words[k]
                });
            }
            assert(ast@.words =~= expected.words);
        }
    }
}

} // verus!
