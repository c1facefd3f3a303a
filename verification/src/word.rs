//! The document model: tokens, and the document that holds them in order.

use vstd::prelude::*;
use crate::ratio::Ratio;

verus! {

/// How strongly a repeated word is marked.
///
/// `Low`, `Medium` and `High` grade a repetition found within the sliding
/// window; `Global` marks a word that is overused over the whole document.
#[derive(Clone, Copy, Debug, PartialEq, Eq, Structural)]
pub enum Tier {
    Low,
    Medium,
    High,
    Global,
}

/// A token of the document.
#[derive(Debug, Clone)]
pub enum Word {
    /// Text that is no word: white space, punctuation, markup.
    Untracked(String),
    /// A word that is left out of the statistics.
    Ignored(String),
    /// A followed word, whose repetitions are looked for: its text, its
    /// stem, the score that the detector at work has given it, and its
    /// mark, if it has one.
    Followed(String, String, Ratio, Option<Tier>),
}

/// A token as a mathematical value.
pub enum WordView {
    Untracked(Seq<char>),
    Ignored(Seq<char>),
    Followed(Seq<char>, Seq<char>, Ratio, Option<Tier>),
}

impl WordView {
    /// The text that the token was read from.
    pub open spec fn text(self) -> Seq<char> {
        match self {
            WordView::Untracked(t) => t,
            WordView::Ignored(t) => t,
            WordView::Followed(t, _, _, _) => t,
        }
    }

    /// Whether the token is a word, followed or ignored.
    pub open spec fn counted(self) -> bool {
        !(self is Untracked)
    }

    /// The stem of a followed word.
    pub open spec fn stem(self) -> Seq<char>
        recommends
            self is Followed,
    {
        self->Followed_1
    }

    /// The mark of the token; only a followed word can have one.
    pub open spec fn severity(self) -> Option<Tier> {
        match self {
            WordView::Followed(_, _, _, severity) => severity,
            _ => None,
        }
    }

    /// The token with another stem, if it is followed.
    pub open spec fn with_stem(self, stem: Seq<char>) -> WordView {
        match self {
            WordView::Followed(t, _, score, severity) => WordView::Followed(t, stem, score, severity),
            _ => self,
        }
    }

    /// The token with another score, if it is followed.
    pub open spec fn with_score(self, score: Ratio) -> WordView {
        match self {
            WordView::Followed(t, stem, _, severity) => WordView::Followed(t, stem, score, severity),
            _ => self,
        }
    }
}

impl View for Word {
    type V = WordView;

    open spec fn view(&self) -> WordView {
        match *self {
            Word::Untracked(t) => WordView::Untracked(t@),
            Word::Ignored(t) => WordView::Ignored(t@),
            Word::Followed(t, stem, score, severity) => WordView::Followed(t@, stem@, score, severity),
        }
    }
}

/// The tokens of `words` as mathematical values.
pub open spec fn views(words: Seq<Word>) -> Seq<WordView> {
    words.map_values(|w: Word| w@)
}

/// The texts of `words`, joined in order.
pub open spec fn joined_text(words: Seq<WordView>) -> Seq<char>
    decreases words.len(),
{
    if words.len() == 0 {
        Seq::<char>::empty()
    } else {
        joined_text(words.drop_last()) + words.last().text()
    }
}

impl Word {
    /// Sets the stem of a followed word; another token is left as it is.
    pub fn set_stemmed(&mut self, s: String)
        ensures
            final(self)@ == old(self)@.with_stem(s@),
    {
        match self {
            Word::Followed(_, stemmed, _, _) => {
                *stemmed = s;
            },
            _ => {},
        }
    }

    /// Sets the score of a followed word; another token is left as it is.
    pub fn set_count(&mut self, x: Ratio)
        ensures
            final(self)@ == old(self)@.with_score(x),
    {
        match self {
            Word::Followed(_, _, v, _) => {
                *v = x;
            },
            _ => {},
        }
    }
}

/// A document: its tokens in order, and where its head and body begin and
/// where its body ends, as far as the markup says.
#[derive(Debug, Clone)]
pub struct Ast {
    /// The tokens of the document.
    pub words: Vec<Word>,
    /// The index of the tag that opens the head, if any.
    pub begin_head: Option<usize>,
    /// The index of the tag that opens the body, if any.
    pub begin_body: Option<usize>,
    /// The index of the tag that closes the body, if any.
    pub end_body: Option<usize>,
}

/// A document as a mathematical value.
pub struct AstView {
    pub words: Seq<WordView>,
    pub begin_head: Option<usize>,
    pub begin_body: Option<usize>,
    pub end_body: Option<usize>,
}

impl AstView {
    /// The document without tokens or markers.
    pub open spec fn empty() -> AstView {
        AstView { words: Seq::empty(), begin_head: None, begin_body: None, end_body: None }
    }

    /// Whether both body markers are set, in order and inside the document.
    pub open spec fn has_body(self) -> bool {
        &&& self.begin_body is Some
        &&& self.end_body is Some
        &&& self.begin_body->0 < self.end_body->0 <= self.words.len()
    }

    /// The index of the first token that the statistics count.
    pub open spec fn body_start(self) -> int {
        if self.has_body() {
            self.begin_body->0 + 1
        } else {
            0
        }
    }

    /// The index after the last token that the statistics count.
    pub open spec fn body_end(self) -> int {
        if self.has_body() {
            self.end_body->0 as int
        } else {
            self.words.len() as int
        }
    }

    /// The tokens that the statistics count: those between the body markers
    /// where the document has a body, all of them where it has none.
    pub open spec fn body(self) -> Seq<WordView> {
        self.words.subrange(self.body_start(), self.body_end())
    }

    /// The document with the head marker set here, unless one is set.
    pub open spec fn mark_begin_head(self) -> AstView {
        if self.begin_head is Some {
            self
        } else {
            AstView { begin_head: Some(self.words.len() as usize), ..self }
        }
    }

    /// The document with the body marker set here, unless one is set.
    pub open spec fn mark_begin_body(self) -> AstView {
        if self.begin_body is Some {
            self
        } else {
            AstView { begin_body: Some(self.words.len() as usize), ..self }
        }
    }

    /// The document with the end of the body set here.
    pub open spec fn mark_end_body(self) -> AstView {
        AstView { end_body: Some(self.words.len() as usize), ..self }
    }

    /// The document with `w` appended.
    pub open spec fn push(self, w: WordView) -> AstView {
        AstView { words: self.words.push(w), ..self }
    }
}

impl View for Ast {
    type V = AstView;

    open spec fn view(&self) -> AstView {
        AstView {
            words: views(self.words@),
            begin_head: self.begin_head,
            begin_body: self.begin_body,
            end_body: self.end_body,
        }
    }
}

impl Ast {
    /// A document without tokens or markers.
    pub fn new() -> (ast: Ast)
        ensures
            ast@ == AstView::empty(),
    {
        let ast = Ast { words: Vec::new(), begin_head: None, begin_body: None, end_body: None };
        assert(ast@.words =~= Seq::empty());
        ast
    }

    /// Records that the head begins at the token that is appended next,
    /// unless a head was recorded before.
    pub fn mark_begin_head(&mut self)
        ensures
            final(self)@ == old(self)@.mark_begin_head(),
    {
        if self.begin_head.is_some() {
            return ;
        }
        let i = self.words.len();
        self.begin_head = Some(i);
    }

    /// Records that the body begins at the token that is appended next,
    /// unless a body was recorded before.
    pub fn mark_begin_body(&mut self)
        ensures
            final(self)@ == old(self)@.mark_begin_body(),
    {
        if self.begin_body.is_some() {
            return ;
        }
        let i = self.words.len();
        self.begin_body = Some(i);
    }

    /// Records that the body ends at the token that is appended next.
    pub fn mark_end_body(&mut self)
        ensures
            final(self)@ == old(self)@.mark_end_body(),
    {
        let i = self.words.len();
        self.end_body = Some(i);
    }

    /// The bounds of the tokens that the statistics count.
    pub fn body_range(&self) -> (r: (usize, usize))
        ensures
            r.0 == self@.body_start(),
            r.1 == self@.body_end(),
            r.0 <= r.1 <= self.words.len(),
    {
        if let Some(begin) = self.begin_body {
            if let Some(end) = self.end_body {
                if begin < end && end <= self.words.len() {
                    return (begin + 1, end);
                }
            }
        }
        (0, self.words.len())
    }

    /// The tokens that the statistics count: those between the body markers
    /// where both are set and in order, all the tokens otherwise.
    pub fn get_body(&self) -> (body: &[Word])
        ensures
            views(body@) == self@.body(),
    {
        let (lo, hi) = self.body_range();
        let body = vstd::slice::slice_subrange(self.words.as_slice(), lo, hi);
        assert(views(body@) =~= self@.body());
        body
    }
}

} // verus!
