//! The rendering of a document whose repetitions are marked: for a
//! terminal, with colour codes, and as Markdown, with strong emphasis.

use vstd::prelude::*;
use crate::chars::chars_of;
use crate::chars::push_char;
use crate::chars::same_text;
use crate::parser::Parser;
use crate::word::views;
use crate::word::Ast;
use crate::word::AstView;
use crate::word::Tier;
use crate::word::Word;
use crate::word::WordView;

verus! {

/// The code that ends the colouring of a terminal.
pub const SHELL_COLOUR_OFF: &'static str = "\x1B[0m";

/// The terminal code of the colour of the given name, if it has one.
pub open spec fn shell_colour(colour: Seq<char>) -> Option<Seq<char>> {
    if colour == "red"@ {
        Some("\x1B[4;31m"@)
    } else if colour == "green"@ {
        Some("\x1B[4;32m"@)
    } else if colour == "cyan"@ {
        Some("\x1B[4;36m"@)
    } else if colour == "brown"@ {
        Some("\x1B[4;33m"@)
    } else if colour == "blue"@ {
        Some("\x1B[4;32m"@)
    } else if colour == "purple"@ {
        Some("\x1B[4;35m"@)
    } else if colour == "orange"@ {
        Some("\x1B[4;33m"@)
    } else {
        None
    }
}

/// The terminal code of the colour `colour`: see [`shell_colour`].
pub fn get_shell_colour(colour: &str) -> (code: Option<&'static str>)
    ensures
        match code {
            Some(c) => shell_colour(colour@) == Some(c@),
            None => shell_colour(colour@) is None,
        },
{
    if same_text(colour, "red") {
        Some("\x1B[4;31m")
    } else if same_text(colour, "green") {
        Some("\x1B[4;32m")
    } else if same_text(colour, "cyan") {
        Some("\x1B[4;36m")
    } else if same_text(colour, "brown") {
        Some("\x1B[4;33m")
    } else if same_text(colour, "blue") {
        Some("\x1B[4;32m")
    } else if same_text(colour, "purple") {
        Some("\x1B[4;35m")
    } else if same_text(colour, "orange") {
        Some("\x1B[4;33m")
    } else {
        None
    }
}

impl Tier {
    /// The name of the colour of the mark.
    pub open spec fn colour_name(self) -> Seq<char> {
        match self {
            Tier::Low => "green"@,
            Tier::Medium => "orange"@,
            Tier::High => "red"@,
            Tier::Global => "blue"@,
        }
    }

    /// The name of the colour that the mark is shown in: green, orange and
    /// red for the three tiers of a local repetition, blue for a word that
    /// is overused over the whole document.
    pub fn colour(&self) -> (name: &'static str)
        ensures
            name@ == self.colour_name(),
    {
        match self {
            Tier::Low => "green",
            Tier::Medium => "orange",
            Tier::High => "red",
            Tier::Global => "blue",
        }
    }
}

/// The token as it is shown on a terminal: a marked word stands between
/// the code of its colour and the code that ends it.
pub open spec fn terminal_text(w: WordView) -> Seq<char> {
    match w {
        WordView::Followed(text, _, _, Some(tier)) => match shell_colour(tier.colour_name()) {
            Some(code) => code + text + SHELL_COLOUR_OFF@,
            None => text,
        },
        _ => w.text(),
    }
}

/// The tokens as they are shown on a terminal, joined in order.
pub open spec fn terminal_of(words: Seq<WordView>) -> Seq<char>
    decreases words.len(),
{
    if words.len() == 0 {
        Seq::empty()
    } else {
        terminal_of(words.drop_last()) + terminal_text(words.last())
    }
}

/// The token as it is written in Markdown: a marked word stands in strong
/// emphasis.
pub open spec fn markdown_text(w: WordView) -> Seq<char> {
    match w {
        WordView::Followed(text, _, _, Some(_)) => "**"@ + text + "**"@,
        _ => w.text(),
    }
}

/// The tokens as they are written in Markdown, joined in order.
pub open spec fn markdown_of(words: Seq<WordView>) -> Seq<char>
    decreases words.len(),
{
    if words.len() == 0 {
        Seq::empty()
    } else {
        markdown_of(words.drop_last()) + markdown_text(words.last())
    }
}

impl Parser {
    /// The document as a text for a terminal, with each marked word in the
    /// colour of its mark.
    pub fn ast_to_terminal(&self, ast: &Ast) -> (res: String)
        ensures
            res@ == terminal_of(ast@.words),
    {
        self.words_to_terminal(&ast.words)
    }

    /// The tokens as a text for a terminal, with each marked word in the
    /// colour of its mark.
    pub fn words_to_terminal(&self, words: &Vec<Word>) -> (res: String)
        ensures
            res@ == terminal_of(views(words@)),
    {
        let mut res = String::new();
        let mut i: usize = 0;
        let ghost all = views(words@);
        assert(all.take(0) =~= Seq::<WordView>::empty());
        while i < words.len()
            invariant
                i <= words.len(),
                all == views(words@),
                res@ == terminal_of(all.take(i as int)),
            decreases words.len() - i,
        {
            proof {
                let next = all.take(i + 1);
                assert(next.drop_last() == all.take(i as int));
                assert(next.last() == all[i as int]);
            }
            match &words[i] {
                Word::Untracked(s) => {
                    res.append(s.as_str());
                },
                Word::Ignored(s) => {
                    res.append(s.as_str());
                },
                Word::Followed(s, _, _, option) => {
                    match option {
                        Some(tier) => match get_shell_colour(tier.colour()) {
                            None => {
                                res.append(s.as_str());
                            },
                            Some(shell_colour) => {
                                let ghost before = res@;
                                res.append(shell_colour);
                                res.append(s.as_str());
                                res.append(SHELL_COLOUR_OFF);
                                assert(res@ =~= before + (shell_colour@ + s@ + SHELL_COLOUR_OFF@));
                            },
                        },
                        None => {
                            res.append(s.as_str());
                        },
                    }
                },
            }
            i += 1;
        }
        assert(all.take(words.len() as int) == all);
        res
    }

    /// The document as Markdown, with each marked word in strong emphasis.
    pub fn ast_to_markdown(&self, ast: &Ast) -> (res: String)
        ensures
            res@ == markdown_of(ast@.words),
    {
        self.words_to_markdown(&ast.words)
    }

    /// The tokens as Markdown, with each marked word in strong emphasis.
    pub fn words_to_markdown(&self, words: &Vec<Word>) -> (res: String)
        ensures
            res@ == markdown_of(views(words@)),
    {
        let mut res = String::new();
        let mut i: usize = 0;
        let ghost all = views(words@);
        assert(all.take(0) =~= Seq::<WordView>::empty());
        while i < words.len()
            invariant
                i <= words.len(),
                all == views(words@),
                res@ == markdown_of(all.take(i as int)),
            decreases words.len() - i,
        {
            proof {
                let next = all.take(i + 1);
                assert(next.drop_last() == all.take(i as int));
                assert(next.last() == all[i as int]);
            }
            match &words[i] {
                Word::Untracked(s) => {
                    res.append(s.as_str());
                },
                Word::Ignored(s) => {
                    res.append(s.as_str());
                },
                Word::Followed(s, _, _, highlight) => {
                    if highlight.is_some() {
                        let ghost before = res@;
                        res.append("**");
                        res.append(s.as_str());
                        res.append("**");
                        assert(res@ =~= before + ("**"@ + s@ + "**"@));
                    } else {
                        res.append(s.as_str());
                    }
                },
            }
            i += 1;
        }
        assert(all.take(words.len() as int) == all);
        res
    }
}


/// The attribute that styles a marked word in HTML; nothing for a word
/// without a mark.
pub open spec fn style_of(severity: Option<Tier>) -> Seq<char> {
    match severity {
        Some(tier) => "style = \"text-decoration: underline; color: "@ + tier.colour_name()
            + ";\""@,
        None => Seq::empty(),
    }
}

/// The token as it is written in HTML: a followed word stands in a `span`
/// of the class of its stem, which the scripts of the page go by.
pub open spec fn html_text(w: WordView) -> Seq<char> {
    match w {
        WordView::Followed(text, stem, _, severity) => "<span class = \""@ + stem
            + "\" onmouseover = 'on(\""@ + stem + "\")' onmouseout = 'off(\""@ + stem + "\")' "@
            + style_of(severity) + ">"@ + text + "</span>"@,
        _ => w.text(),
    }
}

/// The tokens as they are written in HTML, joined in order.
pub open spec fn html_of(words: Seq<WordView>) -> Seq<char>
    decreases words.len(),
{
    if words.len() == 0 {
        Seq::empty()
    } else {
        html_of(words.drop_last()) + html_text(words.last())
    }
}

/// The text `s` with a line break of HTML before each of its line feeds.
pub open spec fn with_breaks(s: Seq<char>) -> Seq<char>
    decreases s.len(),
{
    if s.len() == 0 {
        Seq::empty()
    } else if s.last() == '\n' {
        with_breaks(s.drop_last()) + "<br/>\n"@
    } else {
        with_breaks(s.drop_last()).push(s.last())
    }
}

/// Where the scripts go into a document that has a head: after the tag
/// that opens the head, or at the end if the marker lies beyond it.
pub open spec fn scripts_index(head: usize, len: nat) -> int {
    if head < len {
        head + 1
    } else {
        len as int
    }
}

/// The tokens of a page that stands alone: where the document has a head,
/// the scripts are a token of their own in it.
pub open spec fn page_words(ast: AstView, scripts: Seq<char>) -> Seq<WordView> {
    match ast.begin_head {
        Some(head) => ast.words.insert(
            scripts_index(head, ast.words.len()),
            WordView::Untracked(scripts),
        ),
        None => ast.words,
    }
}

/// What a page that stands alone begins with where the document has no
/// head: a head with the scripts, and the tag that opens the body if the
/// document has not both ends of one.
pub open spec fn page_opening(ast: AstView, scripts: Seq<char>) -> Seq<char> {
    match ast.begin_head {
        Some(_) => Seq::empty(),
        None => "<html><head>\n"@ + "<meta charset = \"UTF-8\">\n"@ + scripts + "</head>\n"@
            + if ast.begin_body is None || ast.end_body is None {
            "<body>\n"@
        } else {
            Seq::empty()
        },
    }
}

/// The document as HTML.
///
/// A fragment holds the counted part of the document. A page that stands
/// alone holds all of it, with the scripts in its head, and is closed if
/// the document has neither end of a body. Where the input was no HTML,
/// each line feed gets a line break.
pub open spec fn html_page(ast: AstView, html_input: bool, standalone: bool, scripts: Seq<char>)
    -> Seq<char> {
    let written = if standalone {
        page_opening(ast, scripts) + html_of(page_words(ast, scripts))
    } else {
        html_of(ast.body())
    };
    let broken = if html_input {
        written
    } else {
        with_breaks(written)
    };
    if standalone && ast.begin_body is None && ast.end_body is None {
        broken + "</body></html>"@
    } else {
        broken
    }
}

/// Appends to `res` the tokens `words[from..to]` as they are written in
/// HTML.
fn write_html(res: &mut String, words: &Vec<Word>, from: usize, to: usize)
    requires
        from <= to <= words.len(),
    ensures
        final(res)@ == old(res)@ + html_of(views(words@).subrange(from as int, to as int)),
{
    let mut i: usize = from;
    let ghost all = views(words@);
    assert(all.subrange(from as int, from as int) =~= Seq::<WordView>::empty());
    assert(res@ + Seq::<char>::empty() =~= res@);
    while i < to
        invariant
            from <= i <= to <= words.len(),
            all == views(words@),
            res@ == old(res)@ + html_of(all.subrange(from as int, i as int)),
        decreases to - i,
    {
        let ghost before = res@;
        proof {
            let next = all.subrange(from as int, i + 1);
            assert(next.drop_last() == all.subrange(from as int, i as int));
            assert(next.last() == all[i as int]);
        }
        match &words[i] {
            Word::Untracked(s) => {
                res.append(s.as_str());
            },
            Word::Ignored(s) => {
                res.append(s.as_str());
            },
            Word::Followed(s, stemmed, _, option) => {
                res.append("<span class = \"");
                res.append(stemmed.as_str());
                res.append("\" onmouseover = 'on(\"");
                res.append(stemmed.as_str());
                res.append("\")' onmouseout = 'off(\"");
                res.append(stemmed.as_str());
                res.append("\")' ");
                let ghost styled = res@;
                match option {
                    Some(tier) => {
                        res.append("style = \"text-decoration: underline; color: ");
                        res.append(tier.colour());
                        res.append(";\"");
                        assert(res@ =~= styled + style_of(*option));
                    },
                    None => {
                        assert(res@ =~= styled + style_of(*option));
                    },
                }
                res.append(">");
                res.append(s.as_str());
                res.append("</span>");
                assert(res@ =~= before + html_text(all[i as int]));
            },
        }
        i += 1;
        assert(res@ =~= old(res)@ + html_of(all.subrange(from as int, i as int)));
    }
}

/// The text `s` with a line break of HTML before each of its line feeds.
pub fn add_breaks(s: &str) -> (res: String)
    ensures
        res@ == with_breaks(s@),
{
    let chars = chars_of(s);
    let mut res = String::new();
    let mut i: usize = 0;
    assert(chars@.take(0) =~= Seq::<char>::empty());
    while i < chars.len()
        invariant
            i <= chars.len(),
            res@ == with_breaks(chars@.take(i as int)),
        decreases chars.len() - i,
    {
        proof {
            let next = chars@.take(i + 1);
            assert(next.drop_last() == chars@.take(i as int));
            assert(next.last() == chars@[i as int]);
        }
        if chars[i] == '\n' {
            res.append("<br/>\n");
        } else {
            push_char(&mut res, chars[i]);
        }
        i += 1;
    }
    assert(chars@.take(chars.len() as int) == chars@);
    res
}

impl Parser {
    /// The document as HTML, with each followed word in a `span` of the
    /// class of its stem and each marked word underlined in the colour of
    /// its mark: see [`html_page`].
    ///
    /// For a page that stands alone, `scripts` is what its head is to hold
    /// for the scripts `on` and `off` that the words call. Where the
    /// document has a head, the scripts become a token of the document.
    pub fn ast_to_html(&self, ast: &mut Ast, standalone: bool, scripts: &str) -> (res: String)
        ensures
            res@ == html_page(old(ast)@, self.html(), standalone, scripts@),
            final(ast).begin_head == old(ast).begin_head,
            final(ast).begin_body == old(ast).begin_body,
            final(ast).end_body == old(ast).end_body,
            final(ast)@.words == if standalone {
                page_words(old(ast)@, scripts@)
            } else {
                old(ast)@.words
            },
    {
        proof {
            self.lemma_settings();
        }
        let mut res = String::new();
        if !standalone {
            let (lo, hi) = ast.body_range();
            write_html(&mut res, &ast.words, lo, hi);
            assert(res@ =~= html_of(ast@.body()));
        } else {
            match ast.begin_head {
                Some(head) => {
                    let at = if head < ast.words.len() {
                        head + 1
                    } else {
                        ast.words.len()
                    };
                    let ghost before = ast@.words;
                    ast.words.insert(at, Word::Untracked(scripts.to_owned()));
                    assert(ast@.words =~= before.insert(at as int, WordView::Untracked(scripts@)));
                },
                None => {
                    res.append("<html><head>\n");
                    res.append("<meta charset = \"UTF-8\">\n");
                    res.append(scripts);
                    res.append("</head>\n");
                    if ast.begin_body.is_none() || ast.end_body.is_none() {
                        res.append("<body>\n");
                    }
                    assert(res@ =~= page_opening(old(ast)@, scripts@));
                },
            }
            let ghost opening = res@;
            write_html(&mut res, &ast.words, 0, ast.words.len());
            assert(ast@.words.subrange(0, ast@.words.len() as int) == ast@.words);
            assert(res@ =~= page_opening(old(ast)@, scripts@) + html_of(
                page_words(old(ast)@, scripts@),
            ));
        }
        if !self.html {
            res = add_breaks(res.as_str());
        }
        if standalone && ast.begin_body.is_none() && ast.end_body.is_none() {
            res.append("</body></html>");
        }
        res
    }
}

} // verus!
