//! The links that the leak detector scores by: for each followed word, the
//! last word of the same stem before it, and how far back it lies.
//!
//! The score of a word under the leak detector is one more than the score
//! of the word that it is linked to, which has leaked away in part over the
//! distance between the two. The leaking is a matter of real numbers; the
//! links are found here.

use vstd::prelude::*;
use crate::fuzzy::find_key;
use crate::fuzzy::fuzzy_get;
use crate::fuzzy::fuzzy_resolve;
use crate::fuzzy::key_views;
use crate::local::last_same;
use crate::local::lemma_last_same;
use crate::local::lemma_position_monotone;
use crate::local::lemma_position_step;
use crate::local::position;
use crate::parser::Parser;
use crate::ratio::Ratio;
use crate::word::Ast;
use crate::word::Word;
use crate::word::WordView;

verus! {

/// A link of a followed word to the last word of its key before it: the
/// index of that word in the counted part, and the number of words from
/// there to the word that is linked.
#[derive(Clone, Copy, Debug, PartialEq, Eq, Structural)]
pub struct LeakLink {
    pub previous: usize,
    pub gap: usize,
}

/// What the scan of the first tokens of a text for leak links knows: the
/// key of each token, and the keys met so far, each once, in the order in
/// which they were first met.
pub struct LeakScan {
    pub keys: Seq<Seq<char>>,
    pub dictionary: Seq<Seq<char>>,
}

/// The scan of the first `n` tokens of `body`: the stem of each followed
/// word is resolved against the keys met so far, and the key that comes
/// out joins them if it is new. A token that is no followed word has the
/// empty key.
pub open spec fn leak_scan(body: Seq<WordView>, fuzzy: Option<Ratio>, n: int) -> LeakScan
    decreases n,
{
    if n <= 0 {
        LeakScan { keys: Seq::empty(), dictionary: Seq::empty() }
    } else {
        let before = leak_scan(body, fuzzy, n - 1);
        let w = body[n - 1];
        if w is Followed {
            let key = fuzzy_resolve(before.dictionary, w.stem(), fuzzy);
            LeakScan {
                keys: before.keys.push(key),
                dictionary: if before.dictionary.contains(key) {
                    before.dictionary
                } else {
                    before.dictionary.push(key)
                },
            }
        } else {
            LeakScan { keys: before.keys.push(Seq::empty()), dictionary: before.dictionary }
        }
    }
}

/// The key of each token of `body` under the leak detector.
pub open spec fn leak_keys(body: Seq<WordView>, fuzzy: Option<Ratio>) -> Seq<Seq<char>> {
    leak_scan(body, fuzzy, body.len() as int).keys
}

/// The link of the token `n`: a followed word is linked to the last
/// followed word of its key before it, if there is one.
pub open spec fn leak_link(body: Seq<WordView>, keys: Seq<Seq<char>>, n: int) -> Option<LeakLink> {
    let p = last_same(body, keys, keys[n], n);
    if body[n] is Followed && p >= 0 {
        Some(
            LeakLink {
                previous: p as usize,
                gap: (position(body, n) - position(body, p)) as usize,
            },
        )
    } else {
        None
    }
}

/// The scan has a key for each token that it has read.
pub proof fn lemma_leak_scan_length(body: Seq<WordView>, fuzzy: Option<Ratio>, n: int)
    requires
        0 <= n,
    ensures
        leak_scan(body, fuzzy, n).keys.len() == n,
    decreases n,
{
    if n > 0 {
        lemma_leak_scan_length(body, fuzzy, n - 1);
    }
}

/// The keys of the tokens that a scan has read stay as the scan goes on.
pub proof fn lemma_leak_scan_prefix(body: Seq<WordView>, fuzzy: Option<Ratio>, n: int, m: int)
    requires
        0 <= n <= m,
    ensures
        leak_scan(body, fuzzy, n).keys == leak_scan(body, fuzzy, m).keys.take(n),
    decreases m - n,
{
    lemma_leak_scan_length(body, fuzzy, n);
    lemma_leak_scan_length(body, fuzzy, m);
    if n == m {
        assert(leak_scan(body, fuzzy, m).keys.take(n) == leak_scan(body, fuzzy, m).keys);
    } else {
        lemma_leak_scan_prefix(body, fuzzy, n, m - 1);
        lemma_leak_scan_length(body, fuzzy, m - 1);
        let shorter = leak_scan(body, fuzzy, m - 1).keys;
        let longer = leak_scan(body, fuzzy, m).keys;
        assert(longer.take(n) == shorter.take(n));
    }
}

/// Whether the dictionary of the detector knows, for each of its keys, the
/// last word of that key before `n`, and has the key of every followed
/// word before `n`.
pub open spec fn leak_sound(
    body: Seq<WordView>,
    keys: Seq<Seq<char>>,
    dictionary: Seq<Seq<char>>,
    lasts: Seq<usize>,
    stamps: Seq<usize>,
    n: int,
) -> bool {
    &&& lasts.len() == dictionary.len()
    &&& stamps.len() == dictionary.len()
    &&& forall|k: int|
        0 <= k < dictionary.len() ==> (#[trigger] lasts[k]) == last_same(
            body,
            keys,
            dictionary[k],
            n,
        ) && stamps[k] == position(body, lasts[k] as int)
    &&& forall|j: int| 0 <= j < n ==> #[trigger] known(body, keys, dictionary, j)
    &&& forall|k1: int, k2: int|
        0 <= k1 < k2 < dictionary.len() ==> #[trigger] dictionary[k1] != #[trigger] dictionary[k2]
}

/// Whether the dictionary has the key of the token `j`, if that is a
/// followed word.
pub open spec fn known(
    body: Seq<WordView>,
    keys: Seq<Seq<char>>,
    dictionary: Seq<Seq<char>>,
    j: int,
) -> bool {
    body[j] is Followed ==> dictionary.contains(keys[j])
}

impl Parser {
    /// The links of the tokens of the counted part of the document, one
    /// for each token: see [`leak_link`]. The stems of the followed words
    /// are resolved as the settings of the parser say, against all the keys
    /// met before.
    pub fn leak_links(&self, ast: &Ast) -> (links: Vec<Option<LeakLink>>)
        ensures
            links.len() == ast@.body().len(),
            forall|n: int|
                0 <= n < links.len() ==> #[trigger] links[n] == leak_link(
                    ast@.body(),
                    leak_keys(ast@.body(), self.fuzzy()),
                    n,
                ),
    {
        proof {
            self.lemma_settings();
        }
        let (lo, hi) = ast.body_range();
        let len = hi - lo;
        let ghost body = ast@.body();
        let ghost fz = self.fuzzy;
        let ghost all_keys = leak_keys(body, fz);
        let mut links: Vec<Option<LeakLink>> = Vec::new();
        let mut keys: Vec<String> = Vec::new();
        let mut lasts: Vec<usize> = Vec::new();
        let mut stamps: Vec<usize> = Vec::new();
        let mut pos: usize = 0;
        let mut n: usize = 0;
        proof {
            lemma_leak_scan_length(body, fz, len as int);
            assert(body.take(0) =~= Seq::<WordView>::empty());
            assert(key_views(keys@) =~= Seq::<Seq<char>>::empty());
        }
        while n < len
            invariant
                n <= len,
                len == hi - lo,
                lo <= hi <= ast.words.len(),
                lo == ast@.body_start(),
                body == ast@.body(),
                body.len() == len,
                fz == self.fuzzy,
                all_keys == leak_keys(body, fz),
                all_keys.len() == len,
                key_views(keys@) == leak_scan(body, fz, n as int).dictionary,
                leak_sound(body, all_keys, key_views(keys@), lasts@, stamps@, n as int),
                pos == position(body, n as int),
                links.len() == n,
                forall|j: int| 0 <= j < n ==> #[trigger] links[j] == leak_link(body, all_keys, j),
            decreases len - n,
        {
            let ghost dictionary = key_views(keys@);
            let ghost old_lasts = lasts@;
            let ghost old_stamps = stamps@;
            proof {
                lemma_position_step(body, n as int);
                lemma_position_monotone(body, 0, n as int);
                lemma_leak_scan_prefix(body, fz, n + 1, len as int);
                lemma_leak_scan_length(body, fz, n + 1);
                assert(body[n as int] == ast@.words[lo + n]);
            }
            let mut link: Option<LeakLink> = None;
            match &ast.words[lo + n] {
                Word::Untracked(_) => {},
                Word::Ignored(_) => {
                    pos += 1;
                },
                Word::Followed(_, stem, _, _) => {
                    let key = fuzzy_get(&keys, stem.as_str(), self.fuzzy);
                    proof {
                        let next = leak_scan(body, fz, n + 1);
                        assert(next.keys == leak_scan(body, fz, n as int).keys.push(key@));
                        assert(next.keys == all_keys.take(n + 1));
                        assert(all_keys.take(n + 1)[n as int] == all_keys[n as int]);
                        assert(next.keys[n as int] == key@);
                        lemma_last_same(body, all_keys, key@, n as int);
                    }
                    match find_key(&keys, key.as_str()) {
                        Some(k) => {
                            proof {
                                assert(dictionary[k as int] == key@);
                                assert(dictionary.contains(key@));
                                assert(lasts[k as int] == last_same(
                                    body,
                                    all_keys,
                                    dictionary[k as int],
                                    n as int,
                                ));
                                lemma_position_monotone(body, lasts[k as int] as int, n as int);
                            }
                            link = Some(LeakLink { previous: lasts[k], gap: pos - stamps[k] });
                            lasts.set(k, n);
                            stamps.set(k, pos);
                            assert(dictionary[k as int] == all_keys[n as int] && lasts@[k as int]
                                == n);
                        },
                        None => {
                            proof {
                                let p = last_same(body, all_keys, key@, n as int);
                                if p >= 0 {
                                    assert(known(body, all_keys, dictionary, p));
                                }
                            }
                            keys.push(key);
                            lasts.push(n);
                            stamps.push(pos);
                            proof {
                                assert(key_views(keys@) =~= dictionary.push(all_keys[n as int]));
                            }
                        },
                    }
                    pos += 1;
                },
            }
            links.push(link);
            proof {
                let now = key_views(keys@);
                assert(now == leak_scan(body, fz, n + 1).dictionary);
                assert forall|k: int| 0 <= k < now.len() implies (#[trigger] lasts@[k])
                    == last_same(body, all_keys, now[k], n + 1) && stamps@[k] == position(
                    body,
                    lasts@[k] as int,
                ) by {
                    if k < dictionary.len() {
                        assert(now[k] == dictionary[k]);
                        assert(old_lasts[k] == last_same(body, all_keys, dictionary[k], n as int));
                        if body[n as int] is Followed && dictionary[k] == all_keys[n as int] {
                            let kf = choose|kf: int|
                                0 <= kf < dictionary.len() && dictionary[kf] == all_keys[n as int]
                                    && lasts@[kf] == n;
                            if kf < k {
                                assert(dictionary[kf] != dictionary[k]);
                            }
                            if k < kf {
                                assert(dictionary[k] != dictionary[kf]);
                            }
                        }
                    }
                }
                assert forall|k1: int, k2: int| 0 <= k1 < k2 < now.len() implies #[trigger] now[k1]
                    != #[trigger] now[k2] by {
                    if k2 < dictionary.len() {
                        assert(dictionary[k1] != dictionary[k2]);
                    } else {
                        assert(now[k1] == dictionary[k1]);
                    }
                }
                assert forall|j: int| 0 <= j < n + 1 implies #[trigger] known(
                    body,
                    all_keys,
                    now,
                    j,
                ) by {
                    if j < n {
                        assert(known(body, all_keys, dictionary, j));
                        if body[j] is Followed {
                            let k = choose|k: int|
                                0 <= k < dictionary.len() && dictionary[k] == all_keys[j];
                            assert(now[k] == all_keys[j]);
                        }
                    } else if body[j] is Followed {
                        if dictionary.contains(all_keys[j]) {
                            let k = choose|k: int|
                                0 <= k < dictionary.len() && dictionary[k] == all_keys[j];
                            assert(now[k] == all_keys[j]);
                        } else {
                            assert(now[now.len() - 1] == all_keys[j]);
                        }
                    }
                }
            }
            n += 1;
        }
        links
    }
}

} // verus!
