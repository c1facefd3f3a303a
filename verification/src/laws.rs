//! What holds of the tokenizer and of the detectors together.

use vstd::prelude::*;
use crate::global::globally_detected;
use crate::global::share;
use crate::global::too_short;
use crate::global::word_count;
use crate::highlight::global_colour;
use crate::highlight::highlights;
use crate::highlight::value_to_colour;
use crate::local::cluster_size;
use crate::local::entry_sound;
use crate::local::has_key;
use crate::local::head;
use crate::local::last_same;
use crate::local::lemma_evict_window;
use crate::local::lemma_head;
use crate::local::lemma_last_same;
use crate::local::lemma_scan_window;
use crate::local::linked_to;
use crate::local::live_window;
use crate::local::local_scan;
use crate::local::locally_detected;
use crate::local::locally_scored;
use crate::local::position;
use crate::local::rank;
use crate::local::resolved_keys;
use crate::local::covered;
use crate::ratio::Ratio;
use crate::tokenizer::initial_state;
use crate::tokenizer::lemma_scan_keeps_text;
use crate::tokenizer::tokenized;
use crate::tokenizer::Rules;
use crate::word::joined_text;
use crate::word::AstView;
use crate::word::Tier;
use crate::word::WordView;

verus! {

/// Whether the documents `a` and `b` have the same tokens but for the
/// stems, the scores and the marks of their followed words.
pub open spec fn same_texts(a: Seq<WordView>, b: Seq<WordView>) -> bool {
    &&& a.len() == b.len()
    &&& forall|i: int| 0 <= i < a.len() ==> (#[trigger] a[i]).text() == b[i].text()
}

/// Whether no mark that is set in `a` is another, or gone, in `b`.
pub open spec fn keeps_marks(a: Seq<WordView>, b: Seq<WordView>) -> bool {
    &&& a.len() == b.len()
    &&& forall|i: int|
        0 <= i < a.len() && (#[trigger] a[i]).severity() is Some ==> b[i].severity()
            == a[i].severity()
}

/// Documents whose tokens have the same texts spell the same text.
pub proof fn lemma_same_texts_join(a: Seq<WordView>, b: Seq<WordView>)
    requires
        same_texts(a, b),
    ensures
        joined_text(a) == joined_text(b),
    decreases a.len(),
{
    if a.len() > 0 {
        assert(a[a.len() - 1].text() == b[a.len() - 1].text());
        assert forall|i: int| 0 <= i < a.drop_last().len() implies (#[trigger] a.drop_last()[i]).text()
            == b.drop_last()[i].text() by {
            assert(a[i].text() == b[i].text());
        }
        lemma_same_texts_join(a.drop_last(), b.drop_last());
    }
}

/// The texts of the tokens of a document, joined in order, are the text
/// that the document was cut from.
pub proof fn law_tokens_spell_the_text(rules: Rules, s: Seq<char>, ast: AstView)
    requires
        tokenized(rules, s) == Ok::<AstView, Seq<char>>(ast),
    ensures
        joined_text(ast.words) == s,
{
    assert(joined_text(initial_state().ast.words) == s.subrange(0, 0));
    lemma_scan_keeps_text(rules, s, 0, initial_state());
}

/// The local detector changes no text: the tokens of a document spell the
/// same text after it has passed.
pub proof fn law_local_keeps_text(
    ast: AstView,
    max_distance: int,
    fuzzy: Option<Ratio>,
    threshold: Ratio,
)
    ensures
        same_texts(ast.words, locally_detected(ast, max_distance, fuzzy, threshold).words),
        joined_text(locally_detected(ast, max_distance, fuzzy, threshold).words) == joined_text(
            ast.words,
        ),
{
    let after = locally_detected(ast, max_distance, fuzzy, threshold).words;
    assert forall|i: int| 0 <= i < ast.words.len() implies (#[trigger] ast.words[i]).text()
        == after[i].text() by {
        if ast.body_start() <= i < ast.body_end() {
            assert(ast.body()[i - ast.body_start()] == ast.words[i]);
        }
    }
    lemma_same_texts_join(ast.words, after);
}

/// The global detector changes no text: the tokens of a document spell the
/// same text after it has passed.
pub proof fn law_global_keeps_text(ast: AstView, threshold: Ratio)
    ensures
        same_texts(ast.words, globally_detected(ast, threshold).words),
        joined_text(globally_detected(ast, threshold).words) == joined_text(ast.words),
{
    let after = globally_detected(ast, threshold).words;
    assert forall|i: int| 0 <= i < ast.words.len() implies (#[trigger] ast.words[i]).text()
        == after[i].text() by {}
    lemma_same_texts_join(ast.words, after);
}

/// The tokens of a document spell the text that it was cut from, also
/// after the local detector and then the global detector have passed.
pub proof fn law_round_trip(
    rules: Rules,
    s: Seq<char>,
    ast: AstView,
    max_distance: int,
    fuzzy: Option<Ratio>,
    local_threshold: Ratio,
    global_threshold: Ratio,
)
    requires
        tokenized(rules, s) == Ok::<AstView, Seq<char>>(ast),
    ensures
        joined_text(ast.words) == s,
        joined_text(locally_detected(ast, max_distance, fuzzy, local_threshold).words) == s,
        joined_text(globally_detected(ast, global_threshold).words) == s,
        joined_text(
            globally_detected(
                locally_detected(ast, max_distance, fuzzy, local_threshold),
                global_threshold,
            ).words,
        ) == s,
{
    law_tokens_spell_the_text(rules, s, ast);
    law_local_keeps_text(ast, max_distance, fuzzy, local_threshold);
    law_global_keeps_text(ast, global_threshold);
    law_global_keeps_text(
        locally_detected(ast, max_distance, fuzzy, local_threshold),
        global_threshold,
    );
}

/// The highlighter changes no text.
pub proof fn law_highlight_keeps_text<F: Fn(Ratio, Ratio) -> Option<Tier>>(
    f: F,
    before: AstView,
    threshold: Ratio,
    after: AstView,
)
    requires
        highlights(f, before, threshold, after),
    ensures
        same_texts(before.words, after.words),
        joined_text(after.words) == joined_text(before.words),
{
    assert forall|i: int| 0 <= i < before.words.len() implies (#[trigger] before.words[i]).text()
        == after.words[i].text() by {}
    lemma_same_texts_join(before.words, after.words);
}

/// Whether the grading function `f` gives a mark to every score that
/// reaches the threshold.
pub open spec fn always_marks<F: Fn(Ratio, Ratio) -> Option<Tier>>(f: F, threshold: Ratio)
    -> bool {
    forall|score: Ratio, mark: Option<Tier>|
        score.ge(threshold) && #[trigger] call_ensures(f, (score, threshold), mark)
            ==> mark is Some
}

/// A score reaches a threshold of zero, and the score zero reaches no
/// other threshold.
proof fn lemma_zero_threshold(score: Ratio, threshold: Ratio)
    ensures
        threshold.num == 0 ==> score.ge(threshold),
        (Ratio { num: 0, den: 1 }).ge(threshold) ==> threshold.num == 0,
{
    assert(threshold.num == 0 ==> score.num * threshold.den >= threshold.num * score.den)
        by (nonlinear_arith)
        requires
            score.num >= 0,
            threshold.den >= 0,
    ;
}

/// A second pass of the highlighter with the same threshold changes
/// nothing: the first pass has reset every score, and a score of zero
/// reaches the threshold only where every score does.
///
/// This holds for a threshold above zero, and for any threshold if the
/// grading function gives a mark to every score that reaches it, so that
/// the first pass leaves no word without a mark that the second could
/// grade.
pub proof fn law_highlight_twice<F: Fn(Ratio, Ratio) -> Option<Tier>>(
    f: F,
    first: AstView,
    threshold: Ratio,
    second: AstView,
    third: AstView,
)
    requires
        highlights(f, first, threshold, second),
        highlights(f, second, threshold, third),
        threshold.num > 0 || always_marks(f, threshold),
    ensures
        third == second,
{
    assert forall|i: int| 0 <= i < second.words.len() implies third.words[i]
        == second.words[i] by {
        let a = first.words[i];
        if first.body_start() <= i < first.body_end() {
            match a {
                WordView::Followed(_, _, score, severity) => {
                    lemma_zero_threshold(score, threshold);
                },
                _ => {},
            }
        }
    }
    assert(third.words =~= second.words);
}

/// After the local detector has passed, another pass of the highlighter
/// with the same threshold and the same grading changes nothing.
pub proof fn law_highlight_after_local(
    ast: AstView,
    max_distance: int,
    fuzzy: Option<Ratio>,
    threshold: Ratio,
    again: AstView,
)
    requires
        highlights(
            value_to_colour,
            locally_detected(ast, max_distance, fuzzy, threshold),
            threshold,
            again,
        ),
    ensures
        again == locally_detected(ast, max_distance, fuzzy, threshold),
{
    let detected = locally_detected(ast, max_distance, fuzzy, threshold);
    assert forall|i: int| 0 <= i < detected.words.len() implies again.words[i]
        == detected.words[i] by {
        if ast.body_start() <= i < ast.body_end() {
            let j = i - ast.body_start();
            let scored = locally_scored(
                ast.body(),
                resolved_keys(ast.body(), max_distance, fuzzy),
                max_distance,
                j,
                ast.body().len() as int,
            );
            match scored {
                WordView::Followed(_, _, score, _) => {
                    lemma_zero_threshold(score, threshold);
                },
                _ => {},
            }
        }
    }
    assert(again.words =~= detected.words);
}

/// After the global detector has passed, another pass of the highlighter
/// with the same threshold and the same mark changes nothing. A document
/// that is too short for the threshold is left out: there the detector
/// has not run the highlighter at all.
pub proof fn law_highlight_after_global(ast: AstView, threshold: Ratio, again: AstView)
    requires
        highlights(global_colour, globally_detected(ast, threshold), threshold, again),
        !too_short(threshold, word_count(ast.body())),
    ensures
        again == globally_detected(ast, threshold),
{
    let detected = globally_detected(ast, threshold);
    assert forall|i: int| 0 <= i < detected.words.len() implies again.words[i]
        == detected.words[i] by {
        if ast.body_start() <= i < ast.body_end() {
            lemma_zero_threshold(share(ast.body(), ast.words[i]), threshold);
        }
    }
    assert(again.words =~= detected.words);
}

/// The highlighter changes no mark that is set.
pub proof fn law_highlight_keeps_marks<F: Fn(Ratio, Ratio) -> Option<Tier>>(
    f: F,
    before: AstView,
    threshold: Ratio,
    after: AstView,
)
    requires
        highlights(f, before, threshold, after),
    ensures
        keeps_marks(before.words, after.words),
{
    assert forall|i: int|
        0 <= i < before.words.len() && (#[trigger] before.words[i]).severity()
            is Some implies after.words[i].severity() == before.words[i].severity() by {}
}

/// The global detector changes no mark that is set.
pub proof fn law_global_keeps_marks(ast: AstView, threshold: Ratio)
    ensures
        keeps_marks(ast.words, globally_detected(ast, threshold).words),
{
}

/// The local detector changes no mark that is set.
pub proof fn law_local_keeps_marks(
    ast: AstView,
    max_distance: int,
    fuzzy: Option<Ratio>,
    threshold: Ratio,
)
    ensures
        keeps_marks(ast.words, locally_detected(ast, max_distance, fuzzy, threshold).words),
{
    let after = locally_detected(ast, max_distance, fuzzy, threshold).words;
    assert forall|i: int|
        0 <= i < ast.words.len() && (#[trigger] ast.words[i]).severity()
            is Some implies after[i].severity() == ast.words[i].severity() by {
        if ast.body_start() <= i < ast.body_end() {
            assert(ast.body()[i - ast.body_start()] == ast.words[i]);
        }
    }
}

/// After the local detector, the global detector changes no mark that the
/// local detector has set, nor one that was there before.
pub proof fn law_local_then_global(
    ast: AstView,
    max_distance: int,
    fuzzy: Option<Ratio>,
    local_threshold: Ratio,
    global_threshold: Ratio,
)
    ensures
        keeps_marks(
            locally_detected(ast, max_distance, fuzzy, local_threshold).words,
            globally_detected(
                locally_detected(ast, max_distance, fuzzy, local_threshold),
                global_threshold,
            ).words,
        ),
{
    law_global_keeps_marks(
        locally_detected(ast, max_distance, fuzzy, local_threshold),
        global_threshold,
    );
}

/// Where no followed word between `i` and `j` has the key `key`, the last
/// word of that key before `j` is the last one up to `i`.
proof fn lemma_last_same_skips(
    body: Seq<WordView>,
    keys: Seq<Seq<char>>,
    key: Seq<char>,
    i: int,
    j: int,
)
    requires
        0 <= i < j,
        forall|k: int| i < k < j ==> !(body[k] is Followed && #[trigger] keys[k] == key),
    ensures
        last_same(body, keys, key, j) == last_same(body, keys, key, i + 1),
    decreases j - i,
{
    if i + 1 < j {
        lemma_last_same_skips(body, keys, key, i, j - 1);
    }
}

/// The edge of the window: of two followed words of the same key with no
/// word of that key between them, the second belongs to the cluster of the
/// first exactly if it stands less than `max_distance` words after it. At
/// the distance `max_distance` the two are not linked; at the distance
/// `max_distance - 1` they are.
pub proof fn law_window_boundary(
    body: Seq<WordView>,
    keys: Seq<Seq<char>>,
    max_distance: int,
    i: int,
    j: int,
)
    requires
        0 <= i < j < body.len(),
        body[i] is Followed,
        body[j] is Followed,
        keys[i] == keys[j],
        forall|k: int| i < k < j ==> !(body[k] is Followed && #[trigger] keys[k] == keys[j]),
    ensures
        head(body, keys, max_distance, j) == head(body, keys, max_distance, i) <==> position(
            body,
            j,
        ) - position(body, i) < max_distance,
        position(body, j) - position(body, i) == max_distance ==> linked_to(
            body,
            keys,
            max_distance,
            j,
        ) == -1,
        position(body, j) - position(body, i) == max_distance - 1 ==> linked_to(
            body,
            keys,
            max_distance,
            j,
        ) == i,
{
    lemma_last_same_skips(body, keys, keys[j], i, j);
    assert(last_same(body, keys, keys[j], j) == i);
    lemma_head(body, keys, max_distance, i);
}


/// What the stem of a word is resolved against: the dictionary of the
/// token `n` holds the followed words that lie less than `max_distance`
/// words before it, each key once, where its last word stands, in the
/// order of the words; and it holds the key of every such word.
pub proof fn law_window_dictionary(
    body: Seq<WordView>,
    max_distance: int,
    fuzzy: Option<Ratio>,
    n: int,
)
    requires
        0 <= n <= body.len(),
    ensures
        ({
            let keys = resolved_keys(body, max_distance, fuzzy);
            let live = live_window(
                body,
                max_distance,
                local_scan(body, max_distance, fuzzy, n).window,
                n,
            );
            &&& forall|k: int|
                0 <= k < live.len() ==> entry_sound(body, keys, #[trigger] live[k], n) && position(
                    body,
                    n,
                ) - position(body, live[k].last) < max_distance
            &&& forall|k1: int, k2: int|
                0 <= k1 < k2 < live.len() ==> (#[trigger] live[k1]).last < (
                #[trigger] live[k2]).last
            &&& forall|j: int|
                0 <= j < n && (#[trigger] body[j]) is Followed && position(body, n) - position(
                    body,
                    j,
                ) < max_distance ==> has_key(live, keys[j])
        }),
{
    let keys = resolved_keys(body, max_distance, fuzzy);
    let window = local_scan(body, max_distance, fuzzy, n).window;
    lemma_scan_window(body, max_distance, fuzzy, n);
    lemma_evict_window(body, keys, max_distance, window, n);
    let live = live_window(body, max_distance, window, n);
    assert forall|j: int|
        0 <= j < n && (#[trigger] body[j]) is Followed && position(body, n) - position(body, j)
            < max_distance implies has_key(live, keys[j]) by {
        assert(covered(body, keys, max_distance, live, n, j));
    }
}

/// The number of followed words among the first `n` tokens that belong to
/// the cluster of the followed word `j`.
pub open spec fn cluster_count(
    body: Seq<WordView>,
    keys: Seq<Seq<char>>,
    max_distance: int,
    j: int,
    n: int,
) -> nat
    decreases n,
{
    if n <= 0 {
        0
    } else {
        cluster_count(body, keys, max_distance, j, n - 1) + if body[n - 1] is Followed && head(
            body,
            keys,
            max_distance,
            n - 1,
        ) == head(body, keys, max_distance, j) {
            1nat
        } else {
            0nat
        }
    }
}

/// Words whose clusters have the same head have the same number of words
/// in their cluster.
proof fn lemma_count_by_head(
    body: Seq<WordView>,
    keys: Seq<Seq<char>>,
    max_distance: int,
    i: int,
    j: int,
    n: int,
)
    requires
        head(body, keys, max_distance, i) == head(body, keys, max_distance, j),
    ensures
        cluster_count(body, keys, max_distance, i, n) == cluster_count(
            body,
            keys,
            max_distance,
            j,
            n,
        ),
    decreases n,
{
    if n > 0 {
        lemma_count_by_head(body, keys, max_distance, i, j, n - 1);
    }
}

/// After the last word of a key, the size of its cluster is its place in
/// it, as long as no word of that key follows.
proof fn lemma_size_of_last(
    body: Seq<WordView>,
    keys: Seq<Seq<char>>,
    max_distance: int,
    p: int,
    n: int,
)
    requires
        0 <= p < n,
        body[p] is Followed,
        forall|i: int| p < i < n ==> !(body[i] is Followed && #[trigger] keys[i] == keys[p]),
    ensures
        cluster_size(body, keys, max_distance, p, n) == rank(body, keys, max_distance, p),
    decreases n - p,
{
    if n > p + 1 {
        lemma_size_of_last(body, keys, max_distance, p, n - 1);
        if body[n - 1] is Followed {
            lemma_head(body, keys, max_distance, n - 1);
            lemma_head(body, keys, max_distance, p);
            assert(keys[n - 1] != keys[p]);
        }
    }
}

/// The size of a cluster is the number of its words: what the local
/// detector scores a word by is the number of followed words, among the
/// first `n` tokens, that are linked in one chain with it.
pub proof fn law_cluster_size_counts(
    body: Seq<WordView>,
    keys: Seq<Seq<char>>,
    max_distance: int,
    j: int,
    n: int,
)
    requires
        0 <= j < n,
        body[j] is Followed,
    ensures
        cluster_size(body, keys, max_distance, j, n) == cluster_count(
            body,
            keys,
            max_distance,
            j,
            n,
        ),
    decreases n,
{
    let last = n - 1;
    if body[last] is Followed && head(body, keys, max_distance, last) == head(
        body,
        keys,
        max_distance,
        j,
    ) {
        // The size is the place of the last word, which is one more than
        // the number of the words before it.
        let p = linked_to(body, keys, max_distance, last);
        lemma_last_same(body, keys, keys[last], last);
        lemma_count_by_head(body, keys, max_distance, j, last, last);
        if 0 <= p < last {
            law_cluster_size_counts(body, keys, max_distance, p, last);
            lemma_size_of_last(body, keys, max_distance, p, last);
            lemma_count_by_head(body, keys, max_distance, p, last, last);
        } else {
            lemma_no_earlier_member(body, keys, max_distance, last, last);
        }
    } else {
        law_cluster_size_counts(body, keys, max_distance, j, last);
    }
}

/// No word before the head of a cluster belongs to it.
proof fn lemma_no_earlier_member(
    body: Seq<WordView>,
    keys: Seq<Seq<char>>,
    max_distance: int,
    h: int,
    n: int,
)
    requires
        0 <= n <= h,
        body[h] is Followed,
        head(body, keys, max_distance, h) == h,
    ensures
        cluster_count(body, keys, max_distance, h, n) == 0,
    decreases n,
{
    if n > 0 {
        lemma_no_earlier_member(body, keys, max_distance, h, n - 1);
        if body[n - 1] is Followed {
            lemma_head(body, keys, max_distance, n - 1);
        }
    }
}

} // verus!
