//! Stemming: the reduction of a word to its root, done by the Snowball
//! stemmers of the `stemmer` crate.

use vstd::prelude::*;
use stemmer::Stemmer;
use crate::chars::has_char;
use crate::chars::chars_of;
use crate::parser::Parser;

verus! {

/// `stemmer::Stemmer`: a stemmer for one algorithm, of which nothing is
/// known here but what the functions below say.
#[verifier::external_type_specification]
#[verifier::external_body]
pub struct ExStemmer(Stemmer);

/// Whether a stemming algorithm of the name `language` exists.
pub uninterp spec fn language_supported(language: Seq<char>) -> bool;

/// The name of the algorithm that the stemmer `s` was made for.
pub uninterp spec fn stemmer_language(s: &Stemmer) -> Seq<char>;

/// The stem that the algorithm `language` gives to `word`.
pub uninterp spec fn stem_of(language: Seq<char>, word: Seq<char>) -> Seq<char>;

/// The stem of `word` under an optional algorithm: without an algorithm a
/// word is its own stem, and so is a word that holds the character NUL,
/// which no stemmer takes.
pub open spec fn stem_under(language: Option<Seq<char>>, word: Seq<char>) -> Seq<char> {
    match language {
        Some(l) => if word.contains('\0') {
            word
        } else {
            stem_of(l, word)
        },
        None => word,
    }
}

/// `Stemmer::new`: a stemmer comes back exactly when the name is that of an
/// algorithm, which depends on the name alone, and it is a stemmer for
/// that algorithm. The name holds no NUL, on which the call panics.
#[verifier::external_body]
pub(crate) fn stemmer_for(language: &str) -> (r: Option<Stemmer>)
    requires
        !language@.contains('\0'),
    ensures
        r is Some <==> language_supported(language@),
        r matches Some(s) ==> stemmer_language(&s) == language@,
{
    Stemmer::new(language)
}

/// `Stemmer::stem`: the stem of `word`, which depends on the algorithm and
/// on the word alone; the stemmer stays one for the same algorithm. The
/// word holds no NUL, on which the call panics.
#[verifier::external_body]
pub(crate) fn stemmer_stem(stemmer: &mut Stemmer, word: &str) -> (r: String)
    requires
        !word@.contains('\0'),
    ensures
        r@ == stem_of(stemmer_language(old(stemmer)), word@),
        stemmer_language(final(stemmer)) == stemmer_language(old(stemmer)),
{
    stemmer.stem(word)
}

/// The names of the stemming algorithms, as the Snowball library lists
/// them. An algorithm may have shorter names too, which `Stemmer::new`
/// takes and this list does not hold.
pub open spec fn algorithm_names() -> Seq<Seq<char>> {
    seq![
        "danish"@,
        "dutch"@,
        "english"@,
        "finnish"@,
        "french"@,
        "german"@,
        "hungarian"@,
        "italian"@,
        "norwegian"@,
        "porter"@,
        "portuguese"@,
        "romanian"@,
        "russian"@,
        "spanish"@,
        "swedish"@,
        "turkish"@,
    ]
}

/// No name of an algorithm holds the character NUL.
pub proof fn lemma_algorithm_names_plain()
    ensures
        forall|i: int|
            0 <= i < algorithm_names().len() ==> !(#[trigger] algorithm_names()[i]).contains('\0'),
{
    reveal_strlit("danish");
    reveal_strlit("dutch");
    reveal_strlit("english");
    reveal_strlit("finnish");
    reveal_strlit("french");
    reveal_strlit("german");
    reveal_strlit("hungarian");
    reveal_strlit("italian");
    reveal_strlit("norwegian");
    reveal_strlit("porter");
    reveal_strlit("portuguese");
    reveal_strlit("romanian");
    reveal_strlit("russian");
    reveal_strlit("spanish");
    reveal_strlit("swedish");
    reveal_strlit("turkish");
}

/// `Stemmer::list`: the names of the algorithms, which are those of a
/// table of the Snowball library, in its order; each of them is a name for
/// which `Stemmer::new` has a stemmer.
#[verifier::external_body]
pub(crate) fn stemmer_names() -> (names: Vec<&'static str>)
    ensures
        names@.len() == algorithm_names().len(),
        forall|i: int| 0 <= i < names@.len() ==> (#[trigger] names@[i])@ == algorithm_names()[i],
        forall|i: int| 0 <= i < names@.len() ==> language_supported((#[trigger] names@[i])@),
{
    Stemmer::list()
}

/// The algorithm that an optional stemmer works for.
pub open spec fn language_of(stemmer: &Option<Stemmer>) -> Option<Seq<char>> {
    match stemmer {
        Some(s) => Some(stemmer_language(s)),
        None => None,
    }
}

/// Whether `s` holds the character NUL.
pub fn has_nul(s: &str) -> (b: bool)
    ensures
        b == s@.contains('\0'),
{
    let v = chars_of(s);
    has_char(&v, '\0')
}

/// The stem of `word`: what the stemmer gives, or the word itself where
/// there is no stemmer or the word holds NUL.
pub fn stem_with(stemmer: &mut Option<Stemmer>, word: &str) -> (r: String)
    ensures
        r@ == stem_under(language_of(old(stemmer)), word@),
        language_of(final(stemmer)) == language_of(old(stemmer)),
{
    match stemmer {
        Some(s) => {
            if has_nul(word) {
                word.to_owned()
            } else {
                stemmer_stem(s, word)
            }
        },
        None => word.to_owned(),
    }
}


impl Parser {
    /// The stem of the word `s` in the language of the parser; the word
    /// itself where the parser does not stem.
    pub fn stem(&mut self, s: &str) -> (r: String)
        ensures
            r@ == stem_under(old(self).language(), s@),
            final(self).same_settings(old(self)),
    {
        proof {
            self.lemma_settings();
        }
        let r = stem_with(&mut self.stemmer, s);
        proof {
            self.lemma_settings();
        }
        r
    }
}

} // verus!
