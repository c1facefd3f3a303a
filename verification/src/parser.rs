//! The parser: the settings under which a text is cut into tokens and its
//! repetitions are looked for.

use vstd::prelude::*;
use stemmer::Stemmer;
use crate::chars::chars_of;
use crate::chars::char_is_alphabetic;
use crate::chars::is_alphabetic;
use crate::chars::same_text;
use crate::chars::string_of;
use crate::error::Error;
use crate::fuzzy::key_views;
use crate::ratio::Ratio;
use crate::stem::has_nul;
use crate::stem::language_of;
use crate::stem::language_supported;
use crate::stem::stemmer_for;
use crate::stem::stemmer_names;

verus! {

/// The words that are ignored by default in a French text.
pub const IGNORED_FR: &'static str =
    "la le les pas ne nos des ils elles il elle se on nous vous leur leurs de et un une t s à d l je tu";

/// The words that are ignored by default in an English text.
pub const IGNORED_EN: &'static str = "it s i of the a you we she he they them its their";

/// The name that asks for no stemming at all.
pub const NO_STEMMER: &'static str = "no_stemmer";

/// The index after the run of alphabetic characters that begins at `i`.
pub open spec fn word_end(s: Seq<char>, i: int) -> int
    decreases s.len() - i,
{
    if 0 <= i < s.len() && is_alphabetic(s[i]) {
        word_end(s, i + 1)
    } else {
        i
    }
}

/// A run of alphabetic characters ends at or after its beginning, inside
/// the text, and after its beginning if the first character is alphabetic.
pub proof fn lemma_word_end_bounds(s: Seq<char>, i: int)
    requires
        0 <= i <= s.len(),
    ensures
        i <= word_end(s, i) <= s.len(),
        i < s.len() && is_alphabetic(s[i]) ==> i < word_end(s, i),
        forall|k: int| i <= k < word_end(s, i) ==> is_alphabetic(#[trigger] s[k]),
        word_end(s, i) < s.len() ==> !is_alphabetic(s[word_end(s, i)]),
    decreases s.len() - i,
{
    if i < s.len() && is_alphabetic(s[i]) {
        lemma_word_end_bounds(s, i + 1);
    }
}

/// The maximal runs of alphabetic characters of `s` that begin at or after
/// `i`, in order.
pub open spec fn alphabetic_runs(s: Seq<char>, i: int) -> Seq<Seq<char>>
    decreases s.len() - i,
    via alphabetic_runs_decreases
{
    if i < 0 || i >= s.len() {
        Seq::empty()
    } else if is_alphabetic(s[i]) {
        seq![s.subrange(i, word_end(s, i))] + alphabetic_runs(s, word_end(s, i))
    } else {
        alphabetic_runs(s, i + 1)
    }
}

#[via_fn]
proof fn alphabetic_runs_decreases(s: Seq<char>, i: int) {
    if 0 <= i < s.len() {
        lemma_word_end_bounds(s, i);
    }
}

/// The words that are ignored by default in a text of the given language.
pub open spec fn default_ignored(language: Seq<char>) -> Seq<Seq<char>> {
    if language == "french"@ {
        alphabetic_runs(IGNORED_FR@, 0)
    } else if language == "english"@ {
        alphabetic_runs(IGNORED_EN@, 0)
    } else {
        Seq::empty()
    }
}

/// Whether a parser can be made for `language`: it is the name that asks
/// for no stemming, or the name of a stemming algorithm.
pub open spec fn language_known(language: Seq<char>) -> bool {
    language == NO_STEMMER@ || (!language.contains('\0') && language_supported(language))
}

/// The names of `names`, separated by a comma and a space.
pub open spec fn joined_names(names: Seq<Seq<char>>) -> Seq<char>
    decreases names.len(),
{
    if names.len() == 0 {
        Seq::empty()
    } else if names.len() == 1 {
        names[0]
    } else {
        joined_names(names.drop_last()) + ", "@ + names.last()
    }
}

/// The message of the error for a language that is not known, which lists
/// the names of the languages at hand.
pub open spec fn unsupported_message(language: Seq<char>, names: Seq<Seq<char>>) -> Seq<char> {
    "Language "@ + language + " is not implemented.\nSupported languages: "@ + joined_names(names)
}

/// The views of the string slices of `names`.
pub open spec fn name_views(names: Seq<&'static str>) -> Seq<Seq<char>> {
    names.map_values(|n: &'static str| n@)
}

/// The error for a language that is not known, given the names of the
/// languages at hand.
pub fn unsupported_language(language: &str, names: &Vec<&'static str>) -> (e: Error)
    ensures
        e.content@ == unsupported_message(language@, name_views(names@)),
{
    let mut list = String::new();
    let mut i: usize = 0;
    while i < names.len()
        invariant
            i <= names.len(),
            list@ == joined_names(name_views(names@).take(i as int)),
        decreases names.len() - i,
    {
        proof {
            let next = name_views(names@).take(i + 1);
            assert(next.drop_last() == name_views(names@).take(i as int));
            assert(next.last() == names@[i as int]@);
            assert(next.len() == 1 ==> next[0] == names@[i as int]@);
        }
        if i > 0 {
            list.append(", ");
        }
        list.append(names[i]);
        i += 1;
    }
    assert(name_views(names@).take(names.len() as int) == name_views(names@));
    let mut content = "Language ".to_owned();
    content.append(language);
    content.append(" is not implemented.\nSupported languages: ");
    content.append(list.as_str());
    Error { content }
}

/// A parser: a stemmer, if the language has one, and the settings of the
/// tokenizer and of the detectors.
pub struct Parser {
    pub(crate) stemmer: Option<Stemmer>,
    pub(crate) ignored: Vec<String>,
    pub(crate) html: bool,
    pub(crate) ignore_proper: bool,
    pub(crate) max_distance: u32,
    pub(crate) fuzzy: Option<Ratio>,
}

impl Parser {
    /// The stemming algorithm of the parser, if it stems.
    pub closed spec fn language(&self) -> Option<Seq<char>> {
        language_of(&self.stemmer)
    }

    /// The words that the parser leaves out of the statistics.
    pub closed spec fn ignored(&self) -> Seq<Seq<char>> {
        key_views(self.ignored@)
    }

    /// Whether the parser reads its input as HTML.
    pub closed spec fn html(&self) -> bool {
        self.html
    }

    /// Whether the parser leaves proper nouns out of the statistics.
    pub closed spec fn ignore_proper(&self) -> bool {
        self.ignore_proper
    }

    /// The width of the window, in words, within which a word that comes
    /// back is a repetition.
    pub closed spec fn max_distance(&self) -> u32 {
        self.max_distance
    }

    /// The share of its length by which a stem may differ from another and
    /// still be taken for it; `None` where stems are compared exactly.
    pub closed spec fn fuzzy(&self) -> Option<Ratio> {
        self.fuzzy
    }

    /// What the settings are made of.
    pub(crate) proof fn lemma_settings(&self)
        ensures
            self.language() == language_of(&self.stemmer),
            self.ignored() == key_views(self.ignored@),
            self.html() == self.html,
            self.ignore_proper() == self.ignore_proper,
            self.max_distance() == self.max_distance,
            self.fuzzy() == self.fuzzy,
    {
    }

    /// Whether two parsers have the same settings.
    pub open spec fn same_settings(&self, other: &Parser) -> bool {
        &&& self.language() == other.language()
        &&& self.ignored() == other.ignored()
        &&& self.html() == other.html()
        &&& self.ignore_proper() == other.ignore_proper()
        &&& self.max_distance() == other.max_distance()
        &&& self.fuzzy() == other.fuzzy()
    }

    /// The names of the languages that have a stemmer.
    pub fn list_languages() -> (names: Vec<&'static str>)
        ensures
            names@.len() == crate::stem::algorithm_names().len(),
            forall|i: int|
                0 <= i < names@.len() ==> (#[trigger] names@[i])@
                    == crate::stem::algorithm_names()[i],
            name_views(names@) == crate::stem::algorithm_names(),
            forall|i: int| 0 <= i < names@.len() ==> language_known((#[trigger] names@[i])@),
    {
        let names = stemmer_names();
        proof {
            crate::stem::lemma_algorithm_names_plain();
            assert(name_views(names@) =~= crate::stem::algorithm_names());
        }
        names
    }

    /// The words of `list`: its maximal runs of alphabetic characters, so
    /// that white space, commas and any other sign separate them.
    pub fn get_ignored_from_string(list: &str) -> (words: Vec<String>)
        ensures
            key_views(words@) == alphabetic_runs(list@, 0),
    {
        let chars = chars_of(list);
        let mut words: Vec<String> = Vec::new();
        let mut i: usize = 0;
        assert(key_views(words@) =~= Seq::empty());
        while i < chars.len()
            invariant
                i <= chars.len(),
                chars@ == list@,
                key_views(words@) + alphabetic_runs(chars@, i as int) == alphabetic_runs(
                    chars@,
                    0,
                ),
            decreases chars.len() - i,
        {
            if char_is_alphabetic(chars[i]) {
                let start = i;
                proof {
                    lemma_word_end_bounds(chars@, start as int);
                }
                while i < chars.len() && char_is_alphabetic(chars[i])
                    invariant
                        start <= i <= chars.len(),
                        word_end(chars@, i as int) == word_end(chars@, start as int),
                    decreases chars.len() - i,
                {
                    i += 1;
                }
                let word = string_of(&chars, start, i);
                let ghost before = key_views(words@);
                words.push(word);
                assert(key_views(words@) =~= before + seq![chars@.subrange(start as int, i as int)]);
                assert(before + (seq![chars@.subrange(start as int, i as int)] + alphabetic_runs(
                    chars@,
                    i as int,
                )) =~= before + seq![chars@.subrange(start as int, i as int)] + alphabetic_runs(
                    chars@,
                    i as int,
                ));
            } else {
                i += 1;
            }
        }
        assert(key_views(words@) + Seq::<Seq<char>>::empty() =~= key_views(words@));
        words
    }

    /// The words that are ignored by default in a text of the language
    /// `lang`: a list for French, one for English, none for another.
    pub fn get_ignored_from_lang(lang: &str) -> (words: Vec<String>)
        ensures
            key_views(words@) == default_ignored(lang@),
    {
        if same_text(lang, "french") {
            Parser::get_ignored_from_string(IGNORED_FR)
        } else if same_text(lang, "english") {
            Parser::get_ignored_from_string(IGNORED_EN)
        } else {
            let words: Vec<String> = Vec::new();
            assert(key_views(words@) =~= Seq::empty());
            words
        }
    }

    /// A parser for texts in the language `lang`, with the settings that a
    /// parser starts from: HTML input, proper nouns counted, a window of 50
    /// words, exact comparison of stems, and the ignored words of the
    /// language.
    ///
    /// The name `no_stemmer` gives a parser that does not stem. Any other
    /// name must be that of a stemming algorithm: for a name that is none,
    /// the error lists the names of the languages of
    /// [`Parser::list_languages`].
    pub fn new(lang: &str) -> (r: Result<Parser, Error>)
        ensures
            match r {
                Ok(p) => {
                    &&& language_known(lang@)
                    &&& p.language() == if lang@ == NO_STEMMER@ {
                        None
                    } else {
                        Some(lang@)
                    }
                    &&& p.ignored() == default_ignored(lang@)
                    &&& p.html()
                    &&& !p.ignore_proper()
                    &&& p.max_distance() == 50
                    &&& p.fuzzy() is None
                },
                Err(e) => {
                    &&& !language_known(lang@)
                    &&& e.content@ == unsupported_message(lang@, crate::stem::algorithm_names())
                },
            },
    {
        let stemmer = if same_text(lang, NO_STEMMER) {
            None
        } else {
            let found = if has_nul(lang) {
                None
            } else {
                stemmer_for(lang)
            };
            if found.is_none() {
                let names = Parser::list_languages();
                return Err(unsupported_language(lang, &names));
            }
            found
        };
        let ignored = Parser::get_ignored_from_lang(lang);
        Ok(
            Parser {
                stemmer,
                ignored,
                html: true,
                ignore_proper: false,
                max_distance: 50,
                fuzzy: None,
            },
        )
    }

    /// Sets how far a stem may lie from another and still be taken for it,
    /// as a share of its length; `None` has stems compared exactly.
    pub fn with_fuzzy(self, fuzzy: Option<Ratio>) -> (p: Parser)
        ensures
            p.fuzzy() == fuzzy,
            p.language() == self.language(),
            p.ignored() == self.ignored(),
            p.html() == self.html(),
            p.ignore_proper() == self.ignore_proper(),
            p.max_distance() == self.max_distance(),
    {
        let mut p = self;
        p.fuzzy = fuzzy;
        p
    }

    /// Sets the width of the window, in words, within which a word that
    /// comes back is a repetition.
    pub fn with_max_distance(self, max_dist: u32) -> (p: Parser)
        ensures
            p.max_distance() == max_dist,
            p.language() == self.language(),
            p.ignored() == self.ignored(),
            p.html() == self.html(),
            p.ignore_proper() == self.ignore_proper(),
            p.fuzzy() == self.fuzzy(),
    {
        let mut p = self;
        p.max_distance = max_dist;
        p
    }

    /// Sets whether the input is read as HTML.
    pub fn with_html(self, html: bool) -> (p: Parser)
        ensures
            p.html() == html,
            p.language() == self.language(),
            p.ignored() == self.ignored(),
            p.ignore_proper() == self.ignore_proper(),
            p.max_distance() == self.max_distance(),
            p.fuzzy() == self.fuzzy(),
    {
        let mut p = self;
        p.html = html;
        p
    }

    /// Sets whether proper nouns are left out of the statistics.
    pub fn with_ignore_proper(self, proper: bool) -> (p: Parser)
        ensures
            p.ignore_proper() == proper,
            p.language() == self.language(),
            p.ignored() == self.ignored(),
            p.html() == self.html(),
            p.max_distance() == self.max_distance(),
            p.fuzzy() == self.fuzzy(),
    {
        let mut p = self;
        p.ignore_proper = proper;
        p
    }

    /// Replaces the ignored words by the words of `list`.
    pub fn with_ignored(self, list: &str) -> (p: Parser)
        ensures
            p.ignored() == alphabetic_runs(list@, 0),
            p.language() == self.language(),
            p.html() == self.html(),
            p.ignore_proper() == self.ignore_proper(),
            p.max_distance() == self.max_distance(),
            p.fuzzy() == self.fuzzy(),
    {
        let mut p = self;
        p.ignored = Parser::get_ignored_from_string(list);
        p
    }

    /// Adds the words of `list` to the ignored words.
    pub fn with_more_ignored(self, list: &str) -> (p: Parser)
        ensures
            p.ignored() == self.ignored() + alphabetic_runs(list@, 0),
            p.language() == self.language(),
            p.html() == self.html(),
            p.ignore_proper() == self.ignore_proper(),
            p.max_distance() == self.max_distance(),
            p.fuzzy() == self.fuzzy(),
    {
        let mut p = self;
        let mut more = Parser::get_ignored_from_string(list);
        let ghost before = p.ignored@;
        let ghost added = more@;
        p.ignored.append(&mut more);
        assert(key_views(before + added) =~= key_views(before) + key_views(added));
        p
    }

    /// The width of the window of the parser, in words.
    pub fn get_max_distance(&self) -> (width: u32)
        ensures
            width == self.max_distance(),
    {
        self.max_distance
    }
}

} // verus!
