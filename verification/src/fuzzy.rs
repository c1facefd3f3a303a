//! Fuzzy matching of stems: a stem that is close enough to a key of the
//! dictionary is taken for that key.

use vstd::prelude::*;
use crate::parser::Parser;
use crate::ratio::Ratio;
use crate::ratio::product;

verus! {

/// The least of three numbers.
pub open spec fn least_of(a: nat, b: nat, c: nat) -> nat {
    if a <= b && a <= c {
        a
    } else if b <= c {
        b
    } else {
        c
    }
}

/// The Levenshtein distance between `a` and `b`: the least number of
/// characters to insert, delete or replace that turns `a` into `b`.
pub open spec fn levenshtein(a: Seq<char>, b: Seq<char>) -> nat
    decreases a.len() + b.len(),
{
    if a.len() == 0 {
        b.len()
    } else if b.len() == 0 {
        a.len()
    } else {
        let replace: nat = if a.last() == b.last() {
            0
        } else {
            1
        };
        least_of(
            levenshtein(a.drop_last(), b) + 1,
            levenshtein(a, b.drop_last()) + 1,
            levenshtein(a.drop_last(), b.drop_last()) + replace,
        )
    }
}

/// `edit_distance::edit_distance`: the Levenshtein distance between the two
/// strings, counted in characters.
#[verifier::external_body]
pub(crate) fn edit_distance_between(a: &str, b: &str) -> (d: usize)
    ensures
        d == levenshtein(a@, b@),
{
    edit_distance::edit_distance(a, b)
}

/// Whether `n` is at most the share `budget` of `len`.
pub open spec fn within_budget(n: int, len: int, budget: Ratio) -> bool {
    n * budget.den <= budget.num * len
}

/// The distance between two lengths.
pub open spec fn length_gap(a: int, b: int) -> int {
    if a >= b {
        a - b
    } else {
        b - a
    }
}

/// Whether `key` can stand for `pattern` at all: it has two characters or
/// more, and the two lengths differ by no more than the budget allows.
pub open spec fn admissible(key: Seq<char>, pattern: Seq<char>, budget: Ratio) -> bool {
    key.len() >= 2 && within_budget(
        length_gap(key.len() as int, pattern.len() as int),
        pattern.len() as int,
        budget,
    )
}

/// The closest key found so far, with its distance to the pattern.
pub struct Closest {
    pub distance: nat,
    pub key: Seq<char>,
}

/// The search through `keys[from..]` for the key closest to `pattern`,
/// going on from `best`: an admissible key takes the place of `best` when
/// it is strictly closer, so that of two keys as close the earlier one
/// stays, and the search stops at distance 1.
pub open spec fn closest_from(
    keys: Seq<Seq<char>>,
    pattern: Seq<char>,
    budget: Ratio,
    from: int,
    best: Closest,
) -> Closest
    decreases keys.len() - from,
{
    if from < 0 || from >= keys.len() || best.distance == 1 {
        best
    } else if admissible(keys[from], pattern, budget) && levenshtein(keys[from], pattern)
        < best.distance {
        closest_from(
            keys,
            pattern,
            budget,
            from + 1,
            Closest { distance: levenshtein(keys[from], pattern), key: keys[from] },
        )
    } else {
        closest_from(keys, pattern, budget, from + 1, best)
    }
}

/// The key that `pattern` is taken for.
///
/// Without a budget, for a pattern of less than two characters, and where
/// the pattern is itself a key, that is the pattern. Otherwise it is the
/// closest admissible key, provided that it is closer to the pattern than
/// the pattern is long and that its distance lies within the budget; if
/// there is no such key, it is the pattern.
pub open spec fn fuzzy_resolve(keys: Seq<Seq<char>>, pattern: Seq<char>, fuzzy: Option<Ratio>)
    -> Seq<char> {
    match fuzzy {
        None => pattern,
        Some(budget) => {
            if pattern.len() < 2 || keys.contains(pattern) {
                pattern
            } else {
                let best = closest_from(
                    keys,
                    pattern,
                    budget,
                    0,
                    Closest { distance: pattern.len(), key: pattern },
                );
                if within_budget(best.distance as int, pattern.len() as int, budget) {
                    best.key
                } else {
                    pattern
                }
            }
        },
    }
}

/// The views of the strings of `keys`.
pub open spec fn key_views(keys: Seq<String>) -> Seq<Seq<char>> {
    keys.map_values(|k: String| k@)
}

/// Decides whether `n` is at most the share `budget` of `len`.
pub fn is_within_budget(n: usize, len: usize, budget: &Ratio) -> (b: bool)
    ensures
        b == within_budget(n as int, len as int, *budget),
{
    product(n as u64, budget.den) <= product(budget.num, len as u64)
}

/// The index of `pattern` among `keys`, if it is one of them.
pub fn find_key(keys: &Vec<String>, pattern: &str) -> (r: Option<usize>)
    ensures
        match r {
            Some(i) => i < keys.len() && keys[i as int]@ == pattern@ && forall|k: int|
                0 <= k < i ==> keys[k]@ != pattern@,
            None => !key_views(keys@).contains(pattern@),
        },
{
    let wanted = pattern.to_owned();
    let mut i: usize = 0;
    while i < keys.len()
        invariant
            i <= keys.len(),
            wanted@ == pattern@,
            forall|k: int| 0 <= k < i ==> keys[k]@ != pattern@,
        decreases keys.len() - i,
    {
        if keys[i] == wanted {
            return Some(i);
        }
        i += 1;
    }
    assert forall|k: int| 0 <= k < key_views(keys@).len() implies key_views(keys@)[k]
        != pattern@ by {}
    None
}

/// Resolves `pattern` against the keys of a dictionary: see
/// [`fuzzy_resolve`]. Of two keys at the same distance the one that comes
/// first in `keys` wins.
pub fn fuzzy_get(keys: &Vec<String>, pattern: &str, fuzzy: Option<Ratio>) -> (r: String)
    ensures
        r@ == fuzzy_resolve(key_views(keys@), pattern@, fuzzy),
{
    let budget = match fuzzy {
        None => {
            return pattern.to_owned();
        },
        Some(budget) => budget,
    };
    let length = pattern.unicode_len();
    if length < 2 {
        return pattern.to_owned();
    }
    if find_key(keys, pattern).is_some() {
        assert(key_views(keys@).contains(pattern@)) by {
            let i = choose|i: int| 0 <= i < keys.len() && keys[i]@ == pattern@;
            assert(key_views(keys@)[i] == pattern@);
        }
        return pattern.to_owned();
    }
    let ghost views = key_views(keys@);
    let ghost start = Closest { distance: length as nat, key: pattern@ };
    let mut min_distance: usize = length;
    let mut key: Option<usize> = None;
    let mut i: usize = 0;
    while i < keys.len() && min_distance != 1
        invariant
            i <= keys.len(),
            views == key_views(keys@),
            length == pattern@.len(),
            key matches Some(k) ==> k < keys.len(),
            closest_from(views, pattern@, budget, 0, start) == closest_from(
                views,
                pattern@,
                budget,
                i as int,
                Closest {
                    distance: min_distance as nat,
                    key: match key {
                        Some(k) => keys[k as int]@,
                        None => pattern@,
                    },
                },
            ),
        decreases keys.len() - i,
    {
        let candidate = keys[i].as_str();
        assert(views[i as int] == candidate@);
        let candidate_length = candidate.unicode_len();
        let gap = if candidate_length >= length {
            candidate_length - length
        } else {
            length - candidate_length
        };
        if candidate_length >= 2 && is_within_budget(gap, length, &budget) {
            let distance = edit_distance_between(candidate, pattern);
            if distance < min_distance {
                min_distance = distance;
                key = Some(i);
            }
        }
        i += 1;
    }
    if is_within_budget(min_distance, length, &budget) {
        match key {
            Some(k) => keys[k].clone(),
            None => pattern.to_owned(),
        }
    } else {
        pattern.to_owned()
    }
}


/// Two strings at the distance zero are the same string.
pub proof fn lemma_levenshtein_zero(a: Seq<char>, b: Seq<char>)
    requires
        levenshtein(a, b) == 0,
    ensures
        a == b,
    decreases a.len() + b.len(),
{
    if a.len() == 0 || b.len() == 0 {
        assert(a =~= b);
    } else {
        lemma_levenshtein_zero(a.drop_last(), b.drop_last());
        assert(a =~= a.drop_last().push(a.last()));
        assert(b =~= b.drop_last().push(b.last()));
    }
}

/// What the search for the closest key finds: a distance that no
/// admissible key of the rest of the dictionary is below, and which is
/// that of `best` or of an admissible key of the rest.
pub proof fn lemma_closest_from(
    keys: Seq<Seq<char>>,
    pattern: Seq<char>,
    budget: Ratio,
    from: int,
    best: Closest,
)
    requires
        0 <= from <= keys.len(),
        best.distance >= 1,
        !keys.contains(pattern),
    ensures
        ({
            let found = closest_from(keys, pattern, budget, from, best);
            &&& 1 <= found.distance <= best.distance
            &&& forall|k: int|
                from <= k < keys.len() && admissible(#[trigger] keys[k], pattern, budget)
                    ==> levenshtein(keys[k], pattern) >= found.distance
            &&& found == best || (found.distance < best.distance && exists|k: int|
                from <= k < keys.len() && admissible(#[trigger] keys[k], pattern, budget)
                    && keys[k] == found.key && levenshtein(keys[k], pattern) == found.distance)
        }),
    decreases keys.len() - from,
{
    if from < keys.len() {
        assert forall|k: int| from <= k < keys.len() implies levenshtein(
            #[trigger] keys[k],
            pattern,
        ) >= 1 by {
            if levenshtein(keys[k], pattern) == 0 {
                lemma_levenshtein_zero(keys[k], pattern);
                assert(keys.contains(pattern));
            }
        }
        if best.distance != 1 {
            if admissible(keys[from], pattern, budget) && levenshtein(keys[from], pattern)
                < best.distance {
                let next = Closest { distance: levenshtein(keys[from], pattern), key: keys[from] };
                lemma_closest_from(keys, pattern, budget, from + 1, next);
                let found = closest_from(keys, pattern, budget, from + 1, next);
                if found == next {
                    assert(admissible(keys[from], pattern, budget) && keys[from] == found.key);
                }
            } else {
                lemma_closest_from(keys, pattern, budget, from + 1, best);
            }
        }
    }
}

/// What a stem resolves to under a budget: the stem itself, or a key of
/// the dictionary that is admissible, that lies within the budget and
/// closer to the stem than the stem is long, and that no admissible key of
/// the dictionary is closer than.
pub proof fn law_fuzzy_resolve(keys: Seq<Seq<char>>, pattern: Seq<char>, budget: Ratio)
    ensures
        ({
            let key = fuzzy_resolve(keys, pattern, Some(budget));
            key == pattern || {
                &&& keys.contains(key)
                &&& admissible(key, pattern, budget)
                &&& within_budget(levenshtein(key, pattern) as int, pattern.len() as int, budget)
                &&& 1 <= levenshtein(key, pattern) < pattern.len()
                &&& forall|k: int|
                    0 <= k < keys.len() && admissible(#[trigger] keys[k], pattern, budget)
                        ==> levenshtein(keys[k], pattern) >= levenshtein(key, pattern)
            }
        }),
        fuzzy_resolve(keys, pattern, None) == pattern,
        keys.contains(pattern) ==> fuzzy_resolve(keys, pattern, Some(budget)) == pattern,
{
    if pattern.len() >= 2 && !keys.contains(pattern) {
        let start = Closest { distance: pattern.len(), key: pattern };
        lemma_closest_from(keys, pattern, budget, 0, start);
        let found = closest_from(keys, pattern, budget, 0, start);
        if found != start {
            let k = choose|k: int|
                0 <= k < keys.len() && admissible(#[trigger] keys[k], pattern, budget) && keys[k]
                    == found.key && levenshtein(keys[k], pattern) == found.distance;
            assert(keys.contains(found.key));
        }
    }
}


impl Parser {
    /// Resolves the stem `pattern` against the keys of `dictionary`, as far
    /// as the parser allows a stem to differ from a key: see
    /// [`fuzzy_resolve`].
    pub fn fuzzy_get(&self, dictionary: &Vec<String>, pattern: &str) -> (r: String)
        ensures
            r@ == fuzzy_resolve(key_views(dictionary@), pattern@, self.fuzzy()),
    {
        proof {
            self.lemma_settings();
        }
        fuzzy_get(dictionary, pattern, self.fuzzy)
    }
}

} // verus!
