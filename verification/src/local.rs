//! The local detector: it marks the words whose stem comes back within a
//! sliding window of words.

use vstd::prelude::*;
use crate::fuzzy::find_key;
use crate::fuzzy::fuzzy_get;
use crate::fuzzy::fuzzy_resolve;
use crate::fuzzy::key_views;
use crate::global::word_count;
use crate::highlight::highlighted;
use crate::highlight::three_tier;
use crate::highlight::value_to_colour;
use crate::parser::Parser;
use crate::ratio::Ratio;
use crate::word::Ast;
use crate::word::AstView;
use crate::word::Word;
use crate::word::WordView;

verus! {

/// The number of words, followed or ignored, that stand before the token
/// `i` of `body`. The distance between two words is the difference of
/// their positions.
pub open spec fn position(body: Seq<WordView>, i: int) -> nat {
    word_count(body.take(i))
}

/// An entry of the dictionary of the window: a key, and the index of the
/// last word that was counted under it.
pub struct Live {
    pub key: Seq<char>,
    pub last: int,
}

/// The index of the first entry of `window`, from `k` on, whose word lies
/// less than `max_distance` words before the token `at`.
pub open spec fn live_from(
    body: Seq<WordView>,
    max_distance: int,
    window: Seq<Live>,
    at: int,
    k: int,
) -> int
    decreases window.len() - k,
{
    if 0 <= k < window.len() && position(body, at) - position(body, window[k].last)
        >= max_distance {
        live_from(body, max_distance, window, at, k + 1)
    } else {
        k
    }
}

/// The dictionary that the token `at` is resolved against: `window`
/// without the entries at its head that have left the window. The
/// entries of a dictionary stand in the order of their words, so those
/// that have left the window are at its head.
pub open spec fn live_window(body: Seq<WordView>, max_distance: int, window: Seq<Live>, at: int)
    -> Seq<Live> {
    window.skip(live_from(body, max_distance, window, at, 0))
}

/// The keys of the dictionary, in its order.
pub open spec fn window_keys(window: Seq<Live>) -> Seq<Seq<char>> {
    window.map_values(|e: Live| e.key)
}

/// The index of the first entry of `window`, from `k` on, that has the key
/// `key`; the length of `window` if there is none.
pub open spec fn key_position(window: Seq<Live>, key: Seq<char>, k: int) -> int
    decreases window.len() - k,
{
    if k < 0 || k >= window.len() {
        window.len() as int
    } else if window[k].key == key {
        k
    } else {
        key_position(window, key, k + 1)
    }
}

/// The dictionary without its entry for `key`, if it has one.
pub open spec fn without_key(window: Seq<Live>, key: Seq<char>) -> Seq<Live> {
    let k = key_position(window, key, 0);
    if k < window.len() {
        window.remove(k)
    } else {
        window
    }
}

/// What the scan of the first tokens of a text for local repetitions
/// knows: the key of each token, which is the stem that it is counted
/// under, and the dictionary of the window.
pub struct LocalScan {
    pub keys: Seq<Seq<char>>,
    pub window: Seq<Live>,
}

/// The scan of the first `n` tokens of `body`.
///
/// The stem of each followed word is resolved against the keys of the
/// words that lie less than `max_distance` words before it, each key
/// standing where its last word stands, oldest first. The word is counted
/// under the key that comes out, and that key moves to the end of the
/// dictionary. A token that is no followed word has the empty key.
pub open spec fn local_scan(
    body: Seq<WordView>,
    max_distance: int,
    fuzzy: Option<Ratio>,
    n: int,
) -> LocalScan
    decreases n,
{
    if n <= 0 {
        LocalScan { keys: Seq::empty(), window: Seq::empty() }
    } else {
        let before = local_scan(body, max_distance, fuzzy, n - 1);
        let w = body[n - 1];
        if w is Followed {
            let live = live_window(body, max_distance, before.window, n - 1);
            let key = fuzzy_resolve(window_keys(live), w.stem(), fuzzy);
            LocalScan {
                keys: before.keys.push(key),
                window: without_key(live, key).push(Live { key, last: n - 1 }),
            }
        } else {
            LocalScan { keys: before.keys.push(Seq::empty()), window: before.window }
        }
    }
}

/// The key of each token of `body`: for a followed word the stem that it
/// is counted under.
pub open spec fn resolved_keys(body: Seq<WordView>, max_distance: int, fuzzy: Option<Ratio>)
    -> Seq<Seq<char>> {
    local_scan(body, max_distance, fuzzy, body.len() as int).keys
}

/// The index of the last followed word before the token `n` that has the
/// key `key`, or -1 if there is none.
pub open spec fn last_same(body: Seq<WordView>, keys: Seq<Seq<char>>, key: Seq<char>, n: int)
    -> int
    decreases n,
{
    if n <= 0 {
        -1
    } else if body[n - 1] is Followed && keys[n - 1] == key {
        n - 1
    } else {
        last_same(body, keys, key, n - 1)
    }
}

/// The word that the followed word `i` is linked to: the last followed
/// word of the same key before it, if that word lies less than
/// `max_distance` words back; -1 if `i` is linked to none.
pub open spec fn linked_to(body: Seq<WordView>, keys: Seq<Seq<char>>, max_distance: int, i: int)
    -> int {
    let p = last_same(body, keys, keys[i], i);
    if p >= 0 && position(body, i) - position(body, p) < max_distance {
        p
    } else {
        -1
    }
}

/// The first word of the cluster of the followed word `i`: a cluster is a
/// chain of words, each linked to the one before.
pub open spec fn head(body: Seq<WordView>, keys: Seq<Seq<char>>, max_distance: int, i: int) -> int
    decreases i,
{
    let p = linked_to(body, keys, max_distance, i);
    if 0 <= p < i {
        head(body, keys, max_distance, p)
    } else {
        i
    }
}

/// The place of the followed word `i` in its cluster, counted from 1.
pub open spec fn rank(body: Seq<WordView>, keys: Seq<Seq<char>>, max_distance: int, i: int) -> nat
    decreases i,
{
    let p = linked_to(body, keys, max_distance, i);
    if 0 <= p < i {
        rank(body, keys, max_distance, p) + 1
    } else {
        1
    }
}

/// The number of words of the cluster of the followed word `j` among the
/// first `n` tokens: the place in the cluster of the last of them.
pub open spec fn cluster_size(
    body: Seq<WordView>,
    keys: Seq<Seq<char>>,
    max_distance: int,
    j: int,
    n: int,
) -> nat
    decreases n,
{
    if n <= 0 || n <= j {
        0
    } else if body[n - 1] is Followed && head(body, keys, max_distance, n - 1) == head(
        body,
        keys,
        max_distance,
        j,
    ) {
        rank(body, keys, max_distance, n - 1)
    } else {
        cluster_size(body, keys, max_distance, j, n - 1)
    }
}

/// The score that the local detector gives to a word of the score `score`
/// whose cluster has `size` words: the size of the cluster, if the word is
/// not alone in it. The score of a word that is alone stays.
pub open spec fn cluster_score(size: nat, score: Ratio) -> Ratio {
    if size >= 2 {
        Ratio { num: size as u64, den: 1 }
    } else {
        score
    }
}

/// The token `j` of `body` after the scan of the first `n` tokens: a
/// followed word has its key for a stem and is scored by its cluster.
pub open spec fn locally_scored(
    body: Seq<WordView>,
    keys: Seq<Seq<char>>,
    max_distance: int,
    j: int,
    n: int,
) -> WordView {
    match body[j] {
        WordView::Followed(text, _, score, severity) => WordView::Followed(
            text,
            keys[j],
            cluster_score(cluster_size(body, keys, max_distance, j, n), score),
            severity,
        ),
        w => w,
    }
}

/// The token `j` of `body` after the local detector has passed: it is
/// scored by its cluster among all the tokens, and the highlighter has
/// graded that score on three tiers.
pub open spec fn locally_marked(
    body: Seq<WordView>,
    keys: Seq<Seq<char>>,
    max_distance: int,
    threshold: Ratio,
    j: int,
) -> WordView {
    let scored = locally_scored(body, keys, max_distance, j, body.len() as int);
    match scored {
        WordView::Followed(_, _, score, _) => highlighted(
            scored,
            threshold,
            three_tier(score, threshold),
        ),
        w => w,
    }
}

/// The document after the local detector has passed over its counted
/// part; nothing changes outside of it.
pub open spec fn locally_detected(
    ast: AstView,
    max_distance: int,
    fuzzy: Option<Ratio>,
    threshold: Ratio,
) -> AstView {
    let body = ast.body();
    let keys = resolved_keys(body, max_distance, fuzzy);
    AstView {
        words: Seq::new(
            ast.words.len(),
            |i: int|
                if ast.body_start() <= i < ast.body_end() {
                    locally_marked(body, keys, max_distance, threshold, i - ast.body_start())
                } else {
                    ast.words[i]
                },
        ),
        ..ast
    }
}

/// The scan has a key for each token that it has read, and its dictionary
/// has no more entries than that.
pub proof fn lemma_scan_length(
    body: Seq<WordView>,
    max_distance: int,
    fuzzy: Option<Ratio>,
    n: int,
)
    requires
        0 <= n,
    ensures
        local_scan(body, max_distance, fuzzy, n).keys.len() == n,
    decreases n,
{
    if n > 0 {
        lemma_scan_length(body, max_distance, fuzzy, n - 1);
    }
}

/// The keys of the tokens that a scan has read stay as the scan goes on.
pub proof fn lemma_scan_prefix(
    body: Seq<WordView>,
    max_distance: int,
    fuzzy: Option<Ratio>,
    n: int,
    m: int,
)
    requires
        0 <= n <= m,
    ensures
        local_scan(body, max_distance, fuzzy, n).keys == local_scan(
            body,
            max_distance,
            fuzzy,
            m,
        ).keys.take(n),
    decreases m - n,
{
    lemma_scan_length(body, max_distance, fuzzy, n);
    lemma_scan_length(body, max_distance, fuzzy, m);
    if n == m {
        assert(local_scan(body, max_distance, fuzzy, m).keys.take(n) == local_scan(
            body,
            max_distance,
            fuzzy,
            m,
        ).keys);
    } else {
        lemma_scan_prefix(body, max_distance, fuzzy, n, m - 1);
        lemma_scan_length(body, max_distance, fuzzy, m - 1);
        let shorter = local_scan(body, max_distance, fuzzy, m - 1).keys;
        let longer = local_scan(body, max_distance, fuzzy, m).keys;
        assert(longer.take(n) == shorter.take(n));
    }
}

/// What the last word of a key is: a followed word of that key, after
/// which no followed word has the key.
pub proof fn lemma_last_same(body: Seq<WordView>, keys: Seq<Seq<char>>, key: Seq<char>, n: int)
    requires
        0 <= n,
    ensures
        -1 <= last_same(body, keys, key, n) < n,
        last_same(body, keys, key, n) >= 0 ==> body[last_same(body, keys, key, n)] is Followed
            && keys[last_same(body, keys, key, n)] == key,
        forall|j: int|
            last_same(body, keys, key, n) < j < n ==> !(body[j] is Followed && #[trigger] keys[j]
                == key),
    decreases n,
{
    if n > 0 && !(body[n - 1] is Followed && keys[n - 1] == key) {
        lemma_last_same(body, keys, key, n - 1);
    }
}

/// The head of the cluster of a followed word is a followed word of the
/// same key that does not stand after it.
pub proof fn lemma_head(body: Seq<WordView>, keys: Seq<Seq<char>>, max_distance: int, i: int)
    requires
        0 <= i,
        body[i] is Followed,
    ensures
        0 <= head(body, keys, max_distance, i) <= i,
        body[head(body, keys, max_distance, i)] is Followed,
        keys[head(body, keys, max_distance, i)] == keys[i],
        rank(body, keys, max_distance, i) >= 1,
    decreases i,
{
    let p = linked_to(body, keys, max_distance, i);
    lemma_last_same(body, keys, keys[i], i);
    if 0 <= p < i {
        lemma_head(body, keys, max_distance, p);
    }
}

/// The position of a token does not lie before that of an earlier one.
pub proof fn lemma_position_monotone(body: Seq<WordView>, i: int, j: int)
    requires
        0 <= i <= j <= body.len(),
    ensures
        position(body, i) <= position(body, j) <= j,
    decreases j - i,
{
    crate::global::lemma_counts_bounded(body.take(j), Seq::empty());
    if i < j {
        lemma_position_monotone(body, i, j - 1);
        assert(body.take(j).drop_last() == body.take(j - 1));
    }
}

/// The position after a token: one more than before it if the token is a
/// word.
pub proof fn lemma_position_step(body: Seq<WordView>, i: int)
    requires
        0 <= i < body.len(),
    ensures
        position(body, i + 1) == position(body, i) + if body[i].counted() {
            1nat
        } else {
            0nat
        },
{
    assert(body.take(i + 1).drop_last() == body.take(i));
}


/// A cluster that can still grow: the index and the position of its last
/// word, and the indices of all its words, in the counted part.
pub struct Cluster {
    pub last: usize,
    pub stamp: usize,
    pub members: Vec<usize>,
}

/// Whether the entry stands for the last word of its key before `n`.
pub open spec fn entry_sound(body: Seq<WordView>, keys: Seq<Seq<char>>, e: Live, n: int) -> bool {
    &&& 0 <= e.last < n
    &&& body[e.last] is Followed
    &&& keys[e.last] == e.key
    &&& last_same(body, keys, e.key, n) == e.last
}

/// Whether each entry of the dictionary stands for the last word of its
/// key before `n`, and the entries stand in the order of their words.
pub open spec fn window_sound(body: Seq<WordView>, keys: Seq<Seq<char>>, window: Seq<Live>, n: int)
    -> bool {
    &&& forall|k: int| 0 <= k < window.len() ==> entry_sound(body, keys, #[trigger] window[k], n)
    &&& forall|k1: int, k2: int|
        0 <= k1 < k2 < window.len() ==> (#[trigger] window[k1]).last < (#[trigger] window[k2]).last
}

/// Whether the dictionary has an entry for `key`.
pub open spec fn has_key(window: Seq<Live>, key: Seq<char>) -> bool {
    exists|k: int| 0 <= k < window.len() && (#[trigger] window[k]).key == key
}

/// Whether the dictionary has the key of every followed word before `n`
/// that the token `n` could still be linked to.
pub open spec fn window_covers(
    body: Seq<WordView>,
    keys: Seq<Seq<char>>,
    max_distance: int,
    window: Seq<Live>,
    n: int,
) -> bool {
    forall|j: int| 0 <= j < n ==> #[trigger] covered(body, keys, max_distance, window, n, j)
}

/// Whether the dictionary has the key of the token `j`, if that is a
/// followed word that the token `n` could still be linked to.
pub open spec fn covered(
    body: Seq<WordView>,
    keys: Seq<Seq<char>>,
    max_distance: int,
    window: Seq<Live>,
    n: int,
    j: int,
) -> bool {
    body[j] is Followed ==> has_key(window, keys[j]) || position(body, n) - position(body, j)
        >= max_distance
}

/// Whether every entry of the dictionary lies in the window of the token
/// `n`.
pub open spec fn window_live(body: Seq<WordView>, max_distance: int, window: Seq<Live>, n: int)
    -> bool {
    forall|k: int|
        0 <= k < window.len() ==> position(body, n) - position(body, (#[trigger] window[k]).last)
            < max_distance
}

/// Whether `x` is a word before `n` of the cluster whose last word is
/// `last`.
pub open spec fn member_sound(
    body: Seq<WordView>,
    keys: Seq<Seq<char>>,
    max_distance: int,
    last: int,
    x: int,
    n: int,
) -> bool {
    &&& 0 <= x < n
    &&& body[x] is Followed
    &&& head(body, keys, max_distance, x) == head(body, keys, max_distance, last)
}

/// Whether `c` holds the words before `n` of the cluster of its last
/// word, all of them and no other.
pub open spec fn cluster_sound(
    body: Seq<WordView>,
    keys: Seq<Seq<char>>,
    max_distance: int,
    c: Cluster,
    n: int,
) -> bool {
    &&& c.stamp == position(body, c.last as int)
    &&& c.members@.len() == rank(body, keys, max_distance, c.last as int)
    &&& forall|t: int|
        0 <= t < c.members@.len() ==> member_sound(
            body,
            keys,
            max_distance,
            c.last as int,
            (#[trigger] c.members@[t]) as int,
            n,
        )
    &&& forall|j: int| 0 <= j < n ==> #[trigger] gathered(body, keys, max_distance, c, j)
}

/// Whether `c` holds the token `j`, if that is a word of the cluster of
/// its last word.
pub open spec fn gathered(
    body: Seq<WordView>,
    keys: Seq<Seq<char>>,
    max_distance: int,
    c: Cluster,
    j: int,
) -> bool {
    body[j] is Followed && head(body, keys, max_distance, j) == head(
        body,
        keys,
        max_distance,
        c.last as int,
    ) ==> c.members@.contains(j as usize)
}

/// Whether the clusters are those of the entries of the dictionary, one
/// for one.
pub open spec fn clusters_sound(
    body: Seq<WordView>,
    keys: Seq<Seq<char>>,
    max_distance: int,
    window: Seq<Live>,
    clusters: Seq<Cluster>,
    n: int,
) -> bool {
    &&& clusters.len() == window.len()
    &&& forall|k: int|
        0 <= k < clusters.len() ==> (#[trigger] clusters[k]).last == window[k].last
            && cluster_sound(body, keys, max_distance, clusters[k], n)
}

/// Whether the dictionary is that of the scan of the first `n` tokens:
/// each entry stands for the last word of its key, in the order of the
/// words, and no key is missing that the token `n` could be linked to.
pub open spec fn window_ok(
    body: Seq<WordView>,
    keys: Seq<Seq<char>>,
    max_distance: int,
    window: Seq<Live>,
    n: int,
) -> bool {
    &&& 0 <= n <= body.len()
    &&& keys.len() == body.len()
    &&& window_sound(body, keys, window, n)
    &&& window_covers(body, keys, max_distance, window, n)
}

/// Whether the dictionary of the detector is the one of the scan, with the
/// clusters that belong to it.
pub open spec fn dictionary_sound(
    body: Seq<WordView>,
    keys: Seq<Seq<char>>,
    max_distance: int,
    window: Seq<Live>,
    clusters: Seq<Cluster>,
    n: int,
) -> bool {
    &&& window_ok(body, keys, max_distance, window, n)
    &&& clusters_sound(body, keys, max_distance, window, clusters, n)
}

/// The entries that have left the window of the token `n` stand at the
/// head of the dictionary, and all the others lie in the window.
pub proof fn lemma_live_from(
    body: Seq<WordView>,
    keys: Seq<Seq<char>>,
    max_distance: int,
    window: Seq<Live>,
    n: int,
    k: int,
)
    requires
        0 <= n <= body.len(),
        window_sound(body, keys, window, n),
        0 <= k <= window.len(),
    ensures
        k <= live_from(body, max_distance, window, n, k) <= window.len(),
        forall|j: int|
            k <= j < live_from(body, max_distance, window, n, k) ==> position(body, n) - position(
                body,
                (#[trigger] window[j]).last,
            ) >= max_distance,
        forall|j: int|
            live_from(body, max_distance, window, n, k) <= j < window.len() ==> position(body, n)
                - position(body, (#[trigger] window[j]).last) < max_distance,
    decreases window.len() - k,
{
    if k < window.len() {
        if position(body, n) - position(body, window[k].last) >= max_distance {
            lemma_live_from(body, keys, max_distance, window, n, k + 1);
        } else {
            assert forall|j: int| k <= j < window.len() implies position(body, n) - position(
                body,
                (#[trigger] window[j]).last,
            ) < max_distance by {
                assert(entry_sound(body, keys, window[j], n));
                assert(entry_sound(body, keys, window[k], n));
                if k < j {
                    assert(window[k].last < window[j].last);
                }
                lemma_position_monotone(body, window[k].last, window[j].last);
            }
        }
    }
}

/// The dictionary without the entries that have left the window of the
/// token `n` is the dictionary of the scan as the whole one is, and all
/// its entries lie in the window.
pub proof fn lemma_evict_window(
    body: Seq<WordView>,
    keys: Seq<Seq<char>>,
    max_distance: int,
    window: Seq<Live>,
    n: int,
)
    requires
        window_ok(body, keys, max_distance, window, n),
    ensures
        0 <= live_from(body, max_distance, window, n, 0) <= window.len(),
        window_ok(body, keys, max_distance, live_window(body, max_distance, window, n), n),
        window_live(body, max_distance, live_window(body, max_distance, window, n), n),
{
    let c = live_from(body, max_distance, window, n, 0);
    lemma_live_from(body, keys, max_distance, window, n, 0);
    let live = window.skip(c);
    assert forall|k: int| 0 <= k < live.len() implies entry_sound(
        body,
        keys,
        #[trigger] live[k],
        n,
    ) by {
        assert(live[k] == window[k + c]);
    }
    assert forall|k1: int, k2: int| 0 <= k1 < k2 < live.len() implies (#[trigger] live[k1]).last
        < (#[trigger] live[k2]).last by {
        assert(live[k1] == window[k1 + c]);
        assert(live[k2] == window[k2 + c]);
    }
    assert forall|k: int| 0 <= k < live.len() implies position(body, n) - position(
        body,
        (#[trigger] live[k]).last,
    ) < max_distance by {
        assert(live[k] == window[k + c]);
    }
    assert forall|j: int| 0 <= j < n implies #[trigger] covered(
        body,
        keys,
        max_distance,
        live,
        n,
        j,
    ) by {
        assert(covered(body, keys, max_distance, window, n, j));
        if body[j] is Followed && has_key(window, keys[j]) {
            let k = choose|k: int| 0 <= k < window.len() && (#[trigger] window[k]).key == keys[j];
            if k >= c {
                assert(live[k - c] == window[k]);
            } else {
                assert(entry_sound(body, keys, window[k], n));
                lemma_last_same(body, keys, keys[j], n);
                lemma_position_monotone(body, j, window[k].last);
            }
        }
    }
}

/// The dictionary without the entries that have left the window of the
/// token `n`, with the clusters of the entries that stay, is sound as the
/// whole dictionary is.
pub proof fn lemma_evict(
    body: Seq<WordView>,
    keys: Seq<Seq<char>>,
    max_distance: int,
    window: Seq<Live>,
    clusters: Seq<Cluster>,
    n: int,
)
    requires
        dictionary_sound(body, keys, max_distance, window, clusters, n),
    ensures
        ({
            let c = live_from(body, max_distance, window, n, 0);
            &&& 0 <= c <= window.len()
            &&& dictionary_sound(body, keys, max_distance, window.skip(c), clusters.skip(c), n)
            &&& window_live(body, max_distance, window.skip(c), n)
        }),
{
    let c = live_from(body, max_distance, window, n, 0);
    lemma_evict_window(body, keys, max_distance, window, n);
    let live = window.skip(c);
    assert forall|k: int| 0 <= k < clusters.skip(c).len() implies (#[trigger] clusters.skip(
        c,
    )[k]).last == live[k].last && cluster_sound(
        body,
        keys,
        max_distance,
        clusters.skip(c)[k],
        n,
    ) by {
        assert(clusters.skip(c)[k] == clusters[k + c]);
        assert(live[k] == window[k + c]);
    }
}

/// The first entry for a key is where no entry before has the key.
pub proof fn lemma_key_position(window: Seq<Live>, key: Seq<char>, from: int, target: int)
    requires
        0 <= from <= target <= window.len(),
        forall|k: int| from <= k < target ==> (#[trigger] window[k]).key != key,
        target < window.len() ==> window[target].key == key,
    ensures
        key_position(window, key, from) == target,
    decreases target - from,
{
    if from < target {
        lemma_key_position(window, key, from + 1, target);
    }
}

/// Where the search for a key ends: at the first entry that has the key,
/// or after the last entry if none has it.
pub proof fn lemma_key_position_found(window: Seq<Live>, key: Seq<char>, from: int)
    requires
        0 <= from <= window.len(),
    ensures
        from <= key_position(window, key, from) <= window.len(),
        key_position(window, key, from) < window.len() ==> window[key_position(
            window,
            key,
            from,
        )].key == key,
        forall|k: int|
            from <= k < key_position(window, key, from) ==> (#[trigger] window[k]).key != key,
    decreases window.len() - from,
{
    if from < window.len() && window[from].key != key {
        lemma_key_position_found(window, key, from + 1);
    }
}

/// A token that is no followed word leaves the dictionary as it is.
pub proof fn lemma_step_other_window(
    body: Seq<WordView>,
    keys: Seq<Seq<char>>,
    max_distance: int,
    window: Seq<Live>,
    n: int,
)
    requires
        window_ok(body, keys, max_distance, window, n),
        n < body.len(),
        !(body[n] is Followed),
    ensures
        window_ok(body, keys, max_distance, window, n + 1),
{
    lemma_position_step(body, n);
    assert forall|k: int| 0 <= k < window.len() implies entry_sound(
        body,
        keys,
        #[trigger] window[k],
        n + 1,
    ) by {
        assert(entry_sound(body, keys, window[k], n));
    }
    assert forall|j: int| 0 <= j < n + 1 implies #[trigger] covered(
        body,
        keys,
        max_distance,
        window,
        n + 1,
        j,
    ) by {
        if j < n {
            assert(covered(body, keys, max_distance, window, n, j));
        }
    }
}

/// A token that is no followed word leaves the dictionary sound.
pub proof fn lemma_step_other(
    body: Seq<WordView>,
    keys: Seq<Seq<char>>,
    max_distance: int,
    window: Seq<Live>,
    clusters: Seq<Cluster>,
    n: int,
)
    requires
        dictionary_sound(body, keys, max_distance, window, clusters, n),
        n < body.len(),
        !(body[n] is Followed),
    ensures
        dictionary_sound(body, keys, max_distance, window, clusters, n + 1),
{
    lemma_step_other_window(body, keys, max_distance, window, n);
    assert forall|k: int| 0 <= k < clusters.len() implies (#[trigger] clusters[k]).last
        == window[k].last && cluster_sound(body, keys, max_distance, clusters[k], n + 1) by {
        assert(cluster_sound(body, keys, max_distance, clusters[k], n));
        let c = clusters[k];
        assert forall|t: int| 0 <= t < c.members@.len() implies member_sound(
            body,
            keys,
            max_distance,
            c.last as int,
            (#[trigger] c.members@[t]) as int,
            n + 1,
        ) by {
            assert(member_sound(
                body,
                keys,
                max_distance,
                c.last as int,
                c.members@[t] as int,
                n,
            ));
        }
        assert forall|j: int| 0 <= j < n + 1 implies #[trigger] gathered(
            body,
            keys,
            max_distance,
            c,
            j,
        ) by {
            if j < n {
                assert(gathered(body, keys, max_distance, c, j));
            }
        }
    }
}

/// Two entries of a sound dictionary that have the same key are one.
pub proof fn lemma_keys_distinct(
    body: Seq<WordView>,
    keys: Seq<Seq<char>>,
    window: Seq<Live>,
    n: int,
    k1: int,
    k2: int,
)
    requires
        window_sound(body, keys, window, n),
        0 <= k1 < window.len(),
        0 <= k2 < window.len(),
        window[k1].key == window[k2].key,
    ensures
        k1 == k2,
{
    assert(entry_sound(body, keys, window[k1], n));
    assert(entry_sound(body, keys, window[k2], n));
    if k1 < k2 {
        assert(window[k1].last < window[k2].last);
    }
    if k2 < k1 {
        assert(window[k2].last < window[k1].last);
    }
}

/// A followed word whose key the dictionary does not have is linked to no
/// word, and its key joins the dictionary.
pub proof fn lemma_step_fresh_window(
    body: Seq<WordView>,
    keys: Seq<Seq<char>>,
    max_distance: int,
    window: Seq<Live>,
    n: int,
)
    requires
        window_ok(body, keys, max_distance, window, n),
        n < body.len(),
        body[n] is Followed,
        !has_key(window, keys[n]),
    ensures
        linked_to(body, keys, max_distance, n) == -1,
        head(body, keys, max_distance, n) == n,
        rank(body, keys, max_distance, n) == 1,
        forall|j: int|
            0 <= j < n && body[j] is Followed ==> #[trigger] head(body, keys, max_distance, j) != n,
        window_ok(
            body,
            keys,
            max_distance,
            window.push(Live { key: keys[n], last: n }),
            n + 1,
        ),
{
    let key = keys[n];
    let p = last_same(body, keys, key, n);
    lemma_last_same(body, keys, key, n);
    lemma_position_step(body, n);
    if p >= 0 {
        assert(covered(body, keys, max_distance, window, n, p));
    }
    assert(linked_to(body, keys, max_distance, n) == -1);
    assert forall|j: int| 0 <= j < n && body[j] is Followed implies #[trigger] head(
        body,
        keys,
        max_distance,
        j,
    ) != n by {
        lemma_head(body, keys, max_distance, j);
    }
    let grown = window.push(Live { key, last: n });
    assert forall|k: int| 0 <= k < grown.len() implies entry_sound(
        body,
        keys,
        #[trigger] grown[k],
        n + 1,
    ) by {
        if k < window.len() {
            assert(grown[k] == window[k]);
            assert(entry_sound(body, keys, window[k], n));
        }
    }
    assert forall|k1: int, k2: int| 0 <= k1 < k2 < grown.len() implies (#[trigger] grown[k1]).last
        < (#[trigger] grown[k2]).last by {
        assert(grown[k1] == window[k1]);
        assert(entry_sound(body, keys, window[k1], n));
        if k2 < window.len() {
            assert(grown[k2] == window[k2]);
        }
    }
    assert forall|j: int| 0 <= j < n + 1 implies #[trigger] covered(
        body,
        keys,
        max_distance,
        grown,
        n + 1,
        j,
    ) by {
        if j < n {
            assert(covered(body, keys, max_distance, window, n, j));
            if body[j] is Followed && has_key(window, keys[j]) {
                let k = choose|k: int|
                    0 <= k < window.len() && (#[trigger] window[k]).key == keys[j];
                assert(grown[k].key == keys[j]);
            }
        } else {
            assert(grown[window.len() as int].key == keys[j]);
        }
    }
}

/// A followed word whose key the dictionary does not have begins a
/// cluster of its own.
pub proof fn lemma_step_fresh(
    body: Seq<WordView>,
    keys: Seq<Seq<char>>,
    max_distance: int,
    window: Seq<Live>,
    clusters: Seq<Cluster>,
    n: int,
    fresh: Cluster,
)
    requires
        dictionary_sound(body, keys, max_distance, window, clusters, n),
        n < body.len(),
        body[n] is Followed,
        !has_key(window, keys[n]),
        fresh.last == n,
        fresh.stamp == position(body, n),
        fresh.members@ == seq![n as usize],
    ensures
        linked_to(body, keys, max_distance, n) == -1,
        head(body, keys, max_distance, n) == n,
        rank(body, keys, max_distance, n) == 1,
        forall|j: int|
            0 <= j < n && body[j] is Followed ==> #[trigger] head(body, keys, max_distance, j) != n,
        dictionary_sound(
            body,
            keys,
            max_distance,
            window.push(Live { key: keys[n], last: n }),
            clusters.push(fresh),
            n + 1,
        ),
{
    lemma_step_fresh_window(body, keys, max_distance, window, n);
    let grown = window.push(Live { key: keys[n], last: n });
    let more = clusters.push(fresh);
    assert forall|k: int| 0 <= k < more.len() implies (#[trigger] more[k]).last == grown[k].last
        && cluster_sound(body, keys, max_distance, more[k], n + 1) by {
        let c = more[k];
        if k < clusters.len() {
            assert(c == clusters[k]);
            assert(grown[k] == window[k]);
            assert(cluster_sound(body, keys, max_distance, clusters[k], n));
            assert(entry_sound(body, keys, window[k], n));
            lemma_head(body, keys, max_distance, c.last as int);
            assert forall|t: int| 0 <= t < c.members@.len() implies member_sound(
                body,
                keys,
                max_distance,
                c.last as int,
                (#[trigger] c.members@[t]) as int,
                n + 1,
            ) by {
                assert(member_sound(
                    body,
                    keys,
                    max_distance,
                    c.last as int,
                    c.members@[t] as int,
                    n,
                ));
            }
            assert forall|j: int| 0 <= j < n + 1 implies #[trigger] gathered(
                body,
                keys,
                max_distance,
                c,
                j,
            ) by {
                if j < n {
                    assert(gathered(body, keys, max_distance, c, j));
                }
            }
        } else {
            assert(c == fresh);
            assert(c.members@[0] == n);
            assert forall|j: int| 0 <= j < n + 1 implies #[trigger] gathered(
                body,
                keys,
                max_distance,
                c,
                j,
            ) by {
                if j < n {
                    if body[j] is Followed {
                        assert(head(body, keys, max_distance, j) != n);
                    }
                } else {
                    assert(c.members@[0] == j as usize);
                }
            }
        }
    }
}

/// A followed word whose key the dictionary has is linked to the word of
/// that entry, and its key moves to the end of the dictionary.
pub proof fn lemma_step_linked_window(
    body: Seq<WordView>,
    keys: Seq<Seq<char>>,
    max_distance: int,
    window: Seq<Live>,
    n: int,
    k: int,
)
    requires
        window_ok(body, keys, max_distance, window, n),
        window_live(body, max_distance, window, n),
        n < body.len(),
        body[n] is Followed,
        0 <= k < window.len(),
        window[k].key == keys[n],
    ensures
        linked_to(body, keys, max_distance, n) == window[k].last,
        0 <= window[k].last < n,
        head(body, keys, max_distance, n) == head(body, keys, max_distance, window[k].last),
        rank(body, keys, max_distance, n) == rank(body, keys, max_distance, window[k].last) + 1,
        window_ok(
            body,
            keys,
            max_distance,
            window.remove(k).push(Live { key: keys[n], last: n }),
            n + 1,
        ),
{
    let key = keys[n];
    let p = window[k].last;
    lemma_position_step(body, n);
    assert(entry_sound(body, keys, window[k], n));
    assert(linked_to(body, keys, max_distance, n) == p);
    let kept = window.remove(k);
    let next = kept.push(Live { key, last: n });
    assert forall|i: int| 0 <= i < kept.len() implies #[trigger] kept[i] == window[if i < k {
        i
    } else {
        i + 1
    }] by {}
    assert forall|i: int| 0 <= i < next.len() implies entry_sound(
        body,
        keys,
        #[trigger] next[i],
        n + 1,
    ) by {
        if i < kept.len() {
            let src = if i < k {
                i
            } else {
                i + 1
            };
            assert(next[i] == kept[i]);
            assert(kept[i] == window[src]);
            assert(entry_sound(body, keys, window[src], n));
            if window[src].key == key {
                lemma_keys_distinct(body, keys, window, n, src, k);
            }
        }
    }
    assert forall|i1: int, i2: int| 0 <= i1 < i2 < next.len() implies (#[trigger] next[i1]).last
        < (#[trigger] next[i2]).last by {
        let s1 = if i1 < k {
            i1
        } else {
            i1 + 1
        };
        assert(next[i1] == kept[i1]);
        assert(kept[i1] == window[s1]);
        assert(entry_sound(body, keys, window[s1], n));
        if i2 < kept.len() {
            let s2 = if i2 < k {
                i2
            } else {
                i2 + 1
            };
            assert(next[i2] == kept[i2]);
            assert(kept[i2] == window[s2]);
            assert(window[s1].last < window[s2].last);
        }
    }
    assert forall|j: int| 0 <= j < n + 1 implies #[trigger] covered(
        body,
        keys,
        max_distance,
        next,
        n + 1,
        j,
    ) by {
        if j < n {
            assert(covered(body, keys, max_distance, window, n, j));
            if body[j] is Followed && has_key(window, keys[j]) {
                let i = choose|i: int|
                    0 <= i < window.len() && (#[trigger] window[i]).key == keys[j];
                if i == k {
                    assert(next[kept.len() as int].key == keys[j]);
                } else {
                    let dst = if i < k {
                        i
                    } else {
                        i - 1
                    };
                    assert(kept[dst] == window[i]);
                    assert(next[dst].key == keys[j]);
                }
            }
        } else {
            assert(next[kept.len() as int].key == keys[j]);
        }
    }
}

/// A followed word whose key the dictionary has joins the cluster of that
/// entry, whose words are then those of its own cluster.
pub proof fn lemma_step_linked(
    body: Seq<WordView>,
    keys: Seq<Seq<char>>,
    max_distance: int,
    window: Seq<Live>,
    clusters: Seq<Cluster>,
    n: int,
    k: int,
    grown: Cluster,
)
    requires
        dictionary_sound(body, keys, max_distance, window, clusters, n),
        window_live(body, max_distance, window, n),
        n < body.len(),
        body[n] is Followed,
        0 <= k < window.len(),
        window[k].key == keys[n],
        grown.last == n,
        grown.stamp == position(body, n),
        grown.members@ == clusters[k].members@.push(n as usize),
    ensures
        linked_to(body, keys, max_distance, n) == window[k].last,
        head(body, keys, max_distance, n) == head(body, keys, max_distance, window[k].last),
        rank(body, keys, max_distance, n) == clusters[k].members@.len() + 1,
        forall|j: int|
            0 <= j < n && body[j] is Followed ==> (#[trigger] head(body, keys, max_distance, j)
                == head(body, keys, max_distance, n) <==> clusters[k].members@.contains(
                j as usize,
            )),
        dictionary_sound(
            body,
            keys,
            max_distance,
            window.remove(k).push(Live { key: keys[n], last: n }),
            clusters.remove(k).push(grown),
            n + 1,
        ),
{
    let key = keys[n];
    let p = window[k].last;
    let old_cluster = clusters[k];
    lemma_step_linked_window(body, keys, max_distance, window, n, k);
    assert(entry_sound(body, keys, window[k], n));
    assert(old_cluster.last == p);
    assert(cluster_sound(body, keys, max_distance, old_cluster, n));
    lemma_head(body, keys, max_distance, p);
    assert forall|j: int| 0 <= j < n && body[j] is Followed implies (#[trigger] head(
        body,
        keys,
        max_distance,
        j,
    ) == head(body, keys, max_distance, n) <==> old_cluster.members@.contains(j as usize)) by {
        assert(gathered(body, keys, max_distance, old_cluster, j));
        if old_cluster.members@.contains(j as usize) {
            let t = choose|t: int|
                0 <= t < old_cluster.members@.len() && old_cluster.members@[t] == j as usize;
            assert(member_sound(
                body,
                keys,
                max_distance,
                p,
                old_cluster.members@[t] as int,
                n,
            ));
        }
    }
    let kept = window.remove(k);
    let next = kept.push(Live { key, last: n });
    let kept_clusters = clusters.remove(k);
    let more = kept_clusters.push(grown);
    assert forall|i: int| 0 <= i < kept.len() implies #[trigger] kept[i] == window[if i < k {
        i
    } else {
        i + 1
    }] by {}
    assert forall|i: int| 0 <= i < kept_clusters.len() implies #[trigger] kept_clusters[i]
        == clusters[if i < k {
        i
    } else {
        i + 1
    }] by {}
    assert forall|i: int| 0 <= i < more.len() implies (#[trigger] more[i]).last == next[i].last
        && cluster_sound(body, keys, max_distance, more[i], n + 1) by {
        let c = more[i];
        if i < kept_clusters.len() {
            let src = if i < k {
                i
            } else {
                i + 1
            };
            assert(c == kept_clusters[i]);
            assert(kept_clusters[i] == clusters[src]);
            assert(next[i] == kept[i]);
            assert(kept[i] == window[src]);
            assert(cluster_sound(body, keys, max_distance, clusters[src], n));
            assert(entry_sound(body, keys, window[src], n));
            if window[src].key == key {
                lemma_keys_distinct(body, keys, window, n, src, k);
            }
            lemma_head(body, keys, max_distance, c.last as int);
            assert forall|t: int| 0 <= t < c.members@.len() implies member_sound(
                body,
                keys,
                max_distance,
                c.last as int,
                (#[trigger] c.members@[t]) as int,
                n + 1,
            ) by {
                assert(member_sound(
                    body,
                    keys,
                    max_distance,
                    c.last as int,
                    c.members@[t] as int,
                    n,
                ));
            }
            assert forall|j: int| 0 <= j < n + 1 implies #[trigger] gathered(
                body,
                keys,
                max_distance,
                c,
                j,
            ) by {
                if j < n {
                    assert(gathered(body, keys, max_distance, c, j));
                }
            }
        } else {
            assert(c == grown);
            assert forall|t: int| 0 <= t < c.members@.len() implies member_sound(
                body,
                keys,
                max_distance,
                c.last as int,
                (#[trigger] c.members@[t]) as int,
                n + 1,
            ) by {
                if t < old_cluster.members@.len() {
                    assert(c.members@[t] == old_cluster.members@[t]);
                    assert(member_sound(
                        body,
                        keys,
                        max_distance,
                        p,
                        old_cluster.members@[t] as int,
                        n,
                    ));
                }
            }
            assert forall|j: int| 0 <= j < n + 1 implies #[trigger] gathered(
                body,
                keys,
                max_distance,
                c,
                j,
            ) by {
                if j < n {
                    if body[j] is Followed && head(body, keys, max_distance, j) == head(
                        body,
                        keys,
                        max_distance,
                        n,
                    ) {
                        assert(old_cluster.members@.contains(j as usize));
                        let t = choose|t: int|
                            0 <= t < old_cluster.members@.len() && old_cluster.members@[t]
                                == j as usize;
                        assert(c.members@[t] == j as usize);
                    }
                } else {
                    assert(c.members@[old_cluster.members@.len() as int] == j as usize);
                }
            }
        }
    }
}

/// The dictionary of the scan of the first `n` tokens holds the last word
/// of each key, in the order of the words, and lacks no key that the token
/// `n` could be linked to.
pub proof fn lemma_scan_window(
    body: Seq<WordView>,
    max_distance: int,
    fuzzy: Option<Ratio>,
    n: int,
)
    requires
        0 <= n <= body.len(),
    ensures
        window_ok(
            body,
            resolved_keys(body, max_distance, fuzzy),
            max_distance,
            local_scan(body, max_distance, fuzzy, n).window,
            n,
        ),
    decreases n,
{
    let keys = resolved_keys(body, max_distance, fuzzy);
    lemma_scan_length(body, max_distance, fuzzy, body.len() as int);
    if n == 0 {
        assert(body.take(0) =~= Seq::<WordView>::empty());
    } else {
        lemma_scan_window(body, max_distance, fuzzy, n - 1);
        let before = local_scan(body, max_distance, fuzzy, n - 1);
        let after = local_scan(body, max_distance, fuzzy, n);
        lemma_scan_prefix(body, max_distance, fuzzy, n, body.len() as int);
        lemma_scan_length(body, max_distance, fuzzy, n);
        assert(after.keys[n - 1] == keys.take(n)[n - 1]);
        if body[n - 1] is Followed {
            lemma_evict_window(body, keys, max_distance, before.window, n - 1);
            let live = live_window(body, max_distance, before.window, n - 1);
            let key = keys[n - 1];
            let k = key_position(live, key, 0);
            lemma_key_position_found(live, key, 0);
            if k < live.len() {
                lemma_step_linked_window(body, keys, max_distance, live, n - 1, k);
            } else {
                if has_key(live, key) {
                    let i = choose|i: int| 0 <= i < live.len() && (#[trigger] live[i]).key == key;
                    assert(false);
                }
                lemma_step_fresh_window(body, keys, max_distance, live, n - 1);
            }
        } else {
            lemma_step_other_window(body, keys, max_distance, before.window, n - 1);
        }
    }
}

/// Whether the keys of the detector are those of the dictionary.
pub open spec fn keys_track(keys: Seq<String>, window: Seq<Live>) -> bool {
    &&& keys.len() == window.len()
    &&& forall|k: int| 0 <= k < keys.len() ==> (#[trigger] keys[k])@ == window[k].key
}

/// Whether `j` is one of the first `t` of `members`.
pub open spec fn among(members: Seq<usize>, t: int, j: int) -> bool {
    exists|u: int| 0 <= u < t && u < members.len() && #[trigger] members[u] == j
}

/// Whether `words` is the document `old_words` after the scan of the first
/// `n` tokens of its counted part `body`, which begins at `lo`.
pub open spec fn scored_upto(
    words: Seq<WordView>,
    old_words: Seq<WordView>,
    lo: int,
    body: Seq<WordView>,
    keys: Seq<Seq<char>>,
    max_distance: int,
    n: int,
) -> bool {
    &&& words.len() == old_words.len()
    &&& forall|i: int|
        0 <= i < words.len() ==> #[trigger] words[i] == if lo <= i < lo + n {
            locally_scored(body, keys, max_distance, i - lo, n)
        } else {
            old_words[i]
        }
}

/// The document after the detector has dealt with the followed word `n`:
/// the words of its cluster, if they are two or more, have the size of the
/// cluster for a score, and the word has its key for a stem.
pub proof fn lemma_scored_step(
    before: Seq<WordView>,
    after: Seq<WordView>,
    old_words: Seq<WordView>,
    lo: int,
    body: Seq<WordView>,
    keys: Seq<Seq<char>>,
    max_distance: int,
    n: int,
    members: Seq<usize>,
)
    requires
        scored_upto(before, old_words, lo, body, keys, max_distance, n),
        0 <= n < body.len(),
        0 <= lo,
        lo + body.len() <= old_words.len(),
        body == old_words.subrange(lo, lo + body.len()),
        body[n] is Followed,
        members.len() == rank(body, keys, max_distance, n),
        members.len() <= usize::MAX,
        forall|u: int| 0 <= u < members.len() ==> 0 <= #[trigger] members[u] <= n,
        among(members, members.len() as int, n),
        forall|j: int|
            0 <= j < n && body[j] is Followed ==> (#[trigger] head(body, keys, max_distance, j)
                == head(body, keys, max_distance, n) <==> among(members, members.len() as int, j)),
        after.len() == before.len(),
        forall|i: int|
            0 <= i < after.len() ==> #[trigger] after[i] == {
                let scored = if members.len() >= 2 && among(
                    members,
                    members.len() as int,
                    i - lo,
                ) {
                    before[i].with_score(Ratio { num: members.len() as u64, den: 1 })
                } else {
                    before[i]
                };
                if i == lo + n {
                    scored.with_stem(keys[n])
                } else {
                    scored
                }
            },
    ensures
        scored_upto(after, old_words, lo, body, keys, max_distance, n + 1),
{
    assert forall|i: int| 0 <= i < after.len() implies #[trigger] after[i] == if lo <= i < lo + n
        + 1 {
        locally_scored(body, keys, max_distance, i - lo, n + 1)
    } else {
        old_words[i]
    } by {
        let j = i - lo;
        assert(before[i] == if lo <= i < lo + n {
            locally_scored(body, keys, max_distance, j, n)
        } else {
            old_words[i]
        });
        if among(members, members.len() as int, j) {
            let u = choose|u: int|
                0 <= u < members.len() && u < members.len() && #[trigger] members[u] == j;
            assert(0 <= members[u] <= n);
        }
        if lo <= i < lo + n + 1 {
            assert(body[j] == old_words[i]);
        }
    }
}

/// Gives the score `score` to the words of the counted part, which begins
/// at `lo`, whose indices there are `members`.
pub fn set_scores(ast: &mut Ast, lo: usize, members: &Vec<usize>, score: Ratio)
    requires
        forall|u: int| 0 <= u < members.len() ==> lo + #[trigger] members[u] < old(ast).words.len(),
    ensures
        final(ast).begin_head == old(ast).begin_head,
        final(ast).begin_body == old(ast).begin_body,
        final(ast).end_body == old(ast).end_body,
        final(ast)@.words.len() == old(ast)@.words.len(),
        forall|i: int|
            0 <= i < old(ast)@.words.len() ==> #[trigger] final(ast)@.words[i] == if among(
                members@,
                members.len() as int,
                i - lo,
            ) {
                old(ast)@.words[i].with_score(score)
            } else {
                old(ast)@.words[i]
            },
{
    let mut t: usize = 0;
    while t < members.len()
        invariant
            t <= members.len(),
            forall|u: int| 0 <= u < members.len() ==> lo + #[trigger] members[u] < ast.words.len(),
            ast.begin_head == old(ast).begin_head,
            ast.begin_body == old(ast).begin_body,
            ast.end_body == old(ast).end_body,
            ast.words.len() == old(ast).words.len(),
            forall|i: int|
                0 <= i < ast.words.len() ==> #[trigger] ast@.words[i] == if among(
                    members@,
                    t as int,
                    i - lo,
                ) {
                    old(ast)@.words[i].with_score(score)
                } else {
                    old(ast)@.words[i]
                },
        decreases members.len() - t,
    {
        let x = members[t];
        let ghost before = ast@.words;
        ast.words[lo + x].set_count(score);
        proof {
            assert forall|i: int| 0 <= i < ast.words.len() implies #[trigger] ast@.words[i]
                == if among(members@, t + 1, i - lo) {
                old(ast)@.words[i].with_score(score)
            } else {
                old(ast)@.words[i]
            } by {
                if i == lo + x {
                    assert(members@[t as int] == i - lo);
                    assert(among(members@, t + 1, i - lo));
                    assert(before[i] == old(ast)@.words[i] || before[i] == old(
                        ast,
                    )@.words[i].with_score(score));
                } else {
                    assert(ast@.words[i] == before[i]);
                    if among(members@, t + 1, i - lo) {
                        let u = choose|u: int|
                            0 <= u < t + 1 && u < members@.len() && #[trigger] members@[u] == i
                                - lo;
                        assert(u < t);
                        assert(among(members@, t as int, i - lo));
                    }
                    if among(members@, t as int, i - lo) {
                        let u = choose|u: int|
                            0 <= u < t && u < members@.len() && #[trigger] members@[u] == i - lo;
                        assert(among(members@, t + 1, i - lo));
                    }
                }
            }
        }
        t += 1;
    }
}

/// A token that is no followed word leaves the scores as they are.
pub proof fn lemma_scored_skip(
    words: Seq<WordView>,
    old_words: Seq<WordView>,
    lo: int,
    body: Seq<WordView>,
    keys: Seq<Seq<char>>,
    max_distance: int,
    n: int,
)
    requires
        scored_upto(words, old_words, lo, body, keys, max_distance, n),
        0 <= n < body.len(),
        0 <= lo,
        lo + body.len() <= old_words.len(),
        body == old_words.subrange(lo, lo + body.len()),
        !(body[n] is Followed),
    ensures
        scored_upto(words, old_words, lo, body, keys, max_distance, n + 1),
{
    assert forall|i: int| 0 <= i < words.len() implies #[trigger] words[i] == if lo <= i < lo + n
        + 1 {
        locally_scored(body, keys, max_distance, i - lo, n + 1)
    } else {
        old_words[i]
    } by {
        if lo <= i < lo + n + 1 {
            assert(body[i - lo] == old_words[i]);
        }
    }
}

/// Drops from the dictionary the entries that have left the window of
/// the token `n`, whose position is `pos`.
fn evict(
    keys: &mut Vec<String>,
    clusters: &mut Vec<Cluster>,
    pos: usize,
    max_distance: u32,
    Ghost(body): Ghost<Seq<WordView>>,
    Ghost(all_keys): Ghost<Seq<Seq<char>>>,
    Ghost(window): Ghost<Seq<Live>>,
    Ghost(n): Ghost<int>,
)
    requires
        keys_track(old(keys)@, window),
        dictionary_sound(body, all_keys, max_distance as int, window, old(clusters)@, n),
        pos == position(body, n),
    ensures
        keys_track(final(keys)@, live_window(body, max_distance as int, window, n)),
        dictionary_sound(
            body,
            all_keys,
            max_distance as int,
            live_window(body, max_distance as int, window, n),
            final(clusters)@,
            n,
        ),
        window_live(
            body,
            max_distance as int,
            live_window(body, max_distance as int, window, n),
            n,
        ),
{
    let ghost d = max_distance as int;
    proof {
        assert forall|k: int| 0 <= k < clusters.len() implies (#[trigger] clusters[k]).stamp
            <= pos by {
            assert(cluster_sound(body, all_keys, d, clusters[k], n));
            assert(entry_sound(body, all_keys, window[k], n));
            lemma_position_monotone(body, clusters[k].last as int, n);
        }
    }
    let mut dead: usize = 0;
    while dead < clusters.len() && (pos - clusters[dead].stamp) as u64 >= max_distance as u64
        invariant
            dead <= clusters.len(),
            d == max_distance,
            pos == position(body, n),
            dictionary_sound(body, all_keys, d, window, clusters@, n),
            live_from(body, d, window, n, 0) == live_from(body, d, window, n, dead as int),
            forall|k: int| 0 <= k < clusters.len() ==> (#[trigger] clusters[k]).stamp <= pos,
        decreases clusters.len() - dead,
    {
        proof {
            assert(cluster_sound(body, all_keys, d, clusters[dead as int], n));
        }
        dead += 1;
    }
    let ghost all_clusters = clusters@;
    let ghost all_dictionary = keys@;
    proof {
        if dead < clusters.len() {
            assert(cluster_sound(body, all_keys, d, clusters[dead as int], n));
        }
        assert(dead == live_from(body, d, window, n, 0));
        lemma_evict(body, all_keys, d, window, clusters@, n);
    }
    let live_keys = keys.split_off(dead);
    let live_clusters = clusters.split_off(dead);
    *keys = live_keys;
    *clusters = live_clusters;
    proof {
        assert(clusters@ =~= all_clusters.skip(dead as int));
        assert(keys@ =~= all_dictionary.skip(dead as int));
    }
}

/// Takes from the dictionary the cluster that the followed word `n` joins,
/// and gives it back with that word: the cluster of the entry for `key`,
/// or a new one if there is no such entry.
fn join_cluster(
    keys: &mut Vec<String>,
    clusters: &mut Vec<Cluster>,
    key: &String,
    n: usize,
    pos: usize,
    Ghost(body): Ghost<Seq<WordView>>,
    Ghost(all_keys): Ghost<Seq<Seq<char>>>,
    Ghost(d): Ghost<int>,
    Ghost(live): Ghost<Seq<Live>>,
) -> (cluster: Cluster)
    requires
        keys_track(old(keys)@, live),
        dictionary_sound(body, all_keys, d, live, old(clusters)@, n as int),
        window_live(body, d, live, n as int),
        n < body.len(),
        body[n as int] is Followed,
        key@ == all_keys[n as int],
        pos == position(body, n as int),
    ensures
        keys_track(
            final(keys)@.push(*key),
            without_key(live, key@).push(Live { key: key@, last: n as int }),
        ),
        dictionary_sound(
            body,
            all_keys,
            d,
            without_key(live, key@).push(Live { key: key@, last: n as int }),
            final(clusters)@.push(cluster),
            n + 1,
        ),
        cluster.members@.len() == rank(body, all_keys, d, n as int),
        forall|u: int| 0 <= u < cluster.members@.len() ==> 0 <= #[trigger] cluster.members@[u] <= n,
        among(cluster.members@, cluster.members@.len() as int, n as int),
        forall|j: int|
            0 <= j < n && body[j] is Followed ==> (#[trigger] head(body, all_keys, d, j) == head(
                body,
                all_keys,
                d,
                n as int,
            ) <==> among(cluster.members@, cluster.members@.len() as int, j)),
{
    let found = find_key(keys, key.as_str());
    let ghost live_clusters = clusters@;
    let mut cluster = match found {
        Some(k) => {
            let _ = keys.remove(k);
            clusters.remove(k)
        },
        None => Cluster { last: n, stamp: pos, members: Vec::new() },
    };
    cluster.members.push(n);
    cluster.last = n;
    cluster.stamp = pos;
    let ghost members = cluster.members@;
    proof {
        match found {
            Some(k) => {
                lemma_key_position(live, key@, 0, k as int);
                lemma_step_linked(body, all_keys, d, live, live_clusters, n as int, k as int, cluster);
                let next_clusters = live_clusters.remove(k as int).push(cluster);
                assert(next_clusters[next_clusters.len() - 1] == cluster);
                assert(cluster_sound(body, all_keys, d, cluster, n + 1));
                let old_members = live_clusters[k as int].members@;
                assert(members == old_members.push(n));
                assert forall|j: int| 0 <= j < n && body[j] is Followed implies (#[trigger] head(
                    body,
                    all_keys,
                    d,
                    j,
                ) == head(body, all_keys, d, n as int) <==> among(
                    members,
                    members.len() as int,
                    j,
                )) by {
                    if old_members.contains(j as usize) {
                        let u = choose|u: int|
                            0 <= u < old_members.len() && old_members[u] == j as usize;
                        assert(members[u] == j);
                    }
                    if among(members, members.len() as int, j) {
                        let u = choose|u: int|
                            0 <= u < members.len() && u < members.len() && #[trigger] members[u]
                                == j;
                        assert(old_members[u] == j as usize);
                    }
                }
            },
            None => {
                if has_key(live, key@) {
                    let k = choose|k: int| 0 <= k < live.len() && (#[trigger] live[k]).key == key@;
                    assert(key_views(keys@)[k] == key@);
                }
                lemma_key_position(live, key@, 0, live.len() as int);
                assert(members =~= seq![n]);
                lemma_step_fresh(body, all_keys, d, live, live_clusters, n as int, cluster);
                let next_clusters = live_clusters.push(cluster);
                assert(next_clusters[next_clusters.len() - 1] == cluster);
                assert(cluster_sound(body, all_keys, d, cluster, n + 1));
                assert forall|j: int| 0 <= j < n && body[j] is Followed implies (#[trigger] head(
                    body,
                    all_keys,
                    d,
                    j,
                ) == head(body, all_keys, d, n as int) <==> among(
                    members,
                    members.len() as int,
                    j,
                )) by {
                    if among(members, members.len() as int, j) {
                        let u = choose|u: int|
                            0 <= u < members.len() && u < members.len() && #[trigger] members[u]
                                == j;
                    }
                }
            },
        }
        assert(among(members, members.len() as int, n as int)) by {
            assert(members[members.len() - 1] == n);
        }
        assert forall|u: int| 0 <= u < members.len() implies 0 <= #[trigger] members[u] <= n by {
            assert(member_sound(body, all_keys, d, n as int, members[u] as int, n + 1));
        }
    }
    cluster
}

impl Parser {
    /// Marks the words whose stem comes back within the window of the
    /// parser.
    ///
    /// In the counted part of the document each followed word is counted
    /// under the key that its stem resolves to, which becomes its stem, and
    /// is linked to the last word of that key if that word lies less than
    /// `max_distance` words back. Words linked in a chain form a cluster,
    /// and each word of a cluster of two or more is scored by the size of
    /// the cluster. The highlighter then grades the scores on three tiers:
    /// see [`locally_detected`].
    pub fn detect_local(&self, ast: &mut Ast, threshold: Ratio)
        ensures
            final(ast)@ == locally_detected(
                old(ast)@,
                self.max_distance() as int,
                self.fuzzy(),
                threshold,
            ),
    {
        proof {
            self.lemma_settings();
        }
        let (lo, hi) = ast.body_range();
        let len = hi - lo;
        let ghost body = ast@.body();
        let ghost d = self.max_distance as int;
        let ghost fz = self.fuzzy;
        let ghost all_keys = resolved_keys(body, d, fz);
        let ghost old_words = ast@.words;
        let mut keys: Vec<String> = Vec::new();
        let mut clusters: Vec<Cluster> = Vec::new();
        let mut pos: usize = 0;
        let mut n: usize = 0;
        let ghost mut window: Seq<Live> = Seq::empty();
        proof {
            lemma_scan_length(body, d, fz, len as int);
            assert(body.take(0) =~= Seq::<WordView>::empty());
        }
        while n < len
            invariant
                n <= len,
                len == hi - lo,
                lo <= hi <= ast.words.len(),
                body == old_words.subrange(lo as int, hi as int),
                body.len() == len,
                d == self.max_distance,
                fz == self.fuzzy,
                all_keys == resolved_keys(body, d, fz),
                ast.begin_head == old(ast).begin_head,
                ast.begin_body == old(ast).begin_body,
                ast.end_body == old(ast).end_body,
                window == local_scan(body, d, fz, n as int).window,
                keys_track(keys@, window),
                dictionary_sound(body, all_keys, d, window, clusters@, n as int),
                pos == position(body, n as int),
                scored_upto(ast@.words, old_words, lo as int, body, all_keys, d, n as int),
            decreases len - n,
        {
            let ghost before = ast@.words;
            let ghost scan = local_scan(body, d, fz, n as int);
            proof {
                lemma_position_step(body, n as int);
                lemma_position_monotone(body, 0, n as int);
                assert(before[lo + n] == old_words[lo + n]);
                assert(body[n as int] == old_words[lo + n]);
            }
            let mut followed: Option<String> = None;
            let mut counted = false;
            match &ast.words[lo + n] {
                Word::Untracked(_) => {},
                Word::Ignored(_) => {
                    counted = true;
                },
                Word::Followed(_, stem, _, _) => {
                    counted = true;
                    followed = Some(stem.clone());
                },
            }
            proof {
                assert(ast@.words[lo + n] == body[n as int]);
                assert(counted == body[n as int].counted());
                assert(followed is None ==> !(body[n as int] is Followed));
                assert(followed matches Some(s) ==> body[n as int] is Followed && s@
                    == body[n as int].stem());
            }
            if let Some(stem) = followed {
                evict(
                    &mut keys,
                    &mut clusters,
                    pos,
                    self.max_distance,
                    Ghost(body),
                    Ghost(all_keys),
                    Ghost(window),
                    Ghost(n as int),
                );
                let ghost live = live_window(body, d, window, n as int);
                proof {
                    assert(key_views(keys@) =~= window_keys(live));
                }
                let key = fuzzy_get(&keys, stem.as_str(), self.fuzzy);
                proof {
                    lemma_scan_prefix(body, d, fz, n + 1, len as int);
                    lemma_scan_length(body, d, fz, n + 1);
                    let next = local_scan(body, d, fz, n + 1);
                    assert(next.keys == scan.keys.push(key@));
                    assert(next.keys == all_keys.take(n + 1));
                    assert(all_keys.take(n + 1)[n as int] == all_keys[n as int]);
                    assert(next.keys[n as int] == key@);
                    window = without_key(live, key@).push(Live { key: key@, last: n as int });
                    assert(window == next.window);
                }
                let cluster = join_cluster(
                    &mut keys,
                    &mut clusters,
                    &key,
                    n,
                    pos,
                    Ghost(body),
                    Ghost(all_keys),
                    Ghost(d),
                    Ghost(live),
                );
                let size = cluster.members.len();
                let ghost members = cluster.members@;
                if size >= 2 {
                    set_scores(ast, lo, &cluster.members, Ratio::whole(size as u64));
                }
                let ghost scored = ast@.words;
                ast.words[lo + n].set_stemmed(key.clone());
                keys.push(key);
                clusters.push(cluster);
                proof {
                    assert forall|i: int| 0 <= i < ast@.words.len() implies #[trigger] ast@.words[i]
                        == {
                        let marked = if members.len() >= 2 && among(
                            members,
                            members.len() as int,
                            i - lo,
                        ) {
                            before[i].with_score(Ratio { num: members.len() as u64, den: 1 })
                        } else {
                            before[i]
                        };
                        if i == lo + n {
                            marked.with_stem(all_keys[n as int])
                        } else {
                            marked
                        }
                    } by {
                        if i != lo + n {
                            assert(ast@.words[i] == scored[i]);
                        }
                    }
                    lemma_scored_step(
                        before,
                        ast@.words,
                        old_words,
                        lo as int,
                        body,
                        all_keys,
                        d,
                        n as int,
                        members,
                    );
                }
            } else {
                proof {
                    lemma_step_other(body, all_keys, d, window, clusters@, n as int);
                    lemma_scored_skip(
                        ast@.words,
                        old_words,
                        lo as int,
                        body,
                        all_keys,
                        d,
                        n as int,
                    );
                }
            }
            if counted {
                pos += 1;
            }
            n += 1;
        }
        let ghost scored = ast@;
        self.highlight(ast, threshold, value_to_colour);
        proof {
            let expected = locally_detected(old(ast)@, d, fz, threshold);
            assert(scored.body_start() == lo && scored.body_end() == hi);
            assert forall|i: int| 0 <= i < ast@.words.len() implies ast@.words[i]
                == expected.words[i] by {
                assert(scored.words[i] == if lo <= i < lo + len {
                    locally_scored(body, all_keys, d, i - lo, len as int)
                } else {
                    old_words[i]
                });
            }
            assert(ast@.words =~= expected.words);
        }
    }
}

} // verus!
