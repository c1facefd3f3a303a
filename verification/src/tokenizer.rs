//! The tokenizer: a single scan that cuts a text into words, separators,
//! HTML tags and HTML escapes.

use vstd::prelude::*;
use crate::chars::char_is_alphabetic;
use crate::chars::char_is_uppercase;
use crate::chars::chars_of;
use crate::chars::is_alphabetic;
use crate::chars::is_uppercase;
use crate::chars::lowercase;
use crate::chars::lowercase_string;
use crate::chars::same_text;
use crate::chars::string_of;
use crate::error::Error;
use crate::fuzzy::find_key;
use crate::parser::lemma_word_end_bounds;
use crate::parser::word_end;
use crate::parser::Parser;
use crate::ratio::Ratio;
use crate::stem::stem_under;
use crate::stem::stem_with;
use crate::word::joined_text;
use crate::word::Ast;
use crate::word::AstView;
use crate::word::Word;
use crate::word::WordView;

verus! {

/// What the tokenizer goes by: the settings of a parser that decide how a
/// text is cut and which of its words are followed.
pub struct Rules {
    pub html: bool,
    pub ignore_proper: bool,
    pub ignored: Seq<Seq<char>>,
    pub language: Option<Seq<char>>,
}

/// What the tokenizer knows at a place in the text: the document read so
/// far, whether a sentence begins here, and whether the place lies in the
/// part of the document whose words are counted.
pub struct ScanState {
    pub ast: AstView,
    pub sentence_start: bool,
    pub in_body: bool,
}

/// The message of the error for an escape that no `;` ends.
pub open spec fn escape_message() -> Seq<char> {
    "Error reading HTML: ill-formed escape code. Maybe this is not an HTML file?"@
}

/// The message of the error for a CDATA section that no `]]` ends.
pub open spec fn cdata_message() -> Seq<char> {
    "CDATA field not terminated properly"@
}

/// The message of the error for a tag that is not closed, which quotes the
/// text from the tag's `<` on.
pub open spec fn unclosed_message(rest: Seq<char>) -> Seq<char> {
    "Error reading HTML: unclosed tag. Maybe this is not an HTML file?\nDetails: the following was not closed: "@
        + rest
}

/// Whether `c` ends a run of separators: a letter does, and in HTML so do
/// `<` and `&`.
pub open spec fn ends_separator(c: char, html: bool) -> bool {
    ((c == '<' || c == '&') && html) || is_alphabetic(c)
}

/// The index after the run of separators that begins at `i`.
pub open spec fn separator_end(s: Seq<char>, i: int, html: bool) -> int
    decreases s.len() - i,
{
    if 0 <= i < s.len() && !ends_separator(s[i], html) {
        separator_end(s, i + 1, html)
    } else {
        i
    }
}

/// The index after the first `;` at or after `i`, if there is one.
pub open spec fn escape_end(s: Seq<char>, i: int) -> Option<int>
    decreases s.len() - i,
{
    if i < 0 || i >= s.len() {
        None
    } else if s[i] == ';' {
        Some(i + 1)
    } else {
        escape_end(s, i + 1)
    }
}

/// Whether `c` can stand in the name of a tag.
pub open spec fn is_tag_char(c: char) -> bool {
    c == '[' || c == ']' || c == '/' || is_alphabetic(c)
}

/// The index after the run of name characters that begins at `i`.
pub open spec fn tag_run_end(s: Seq<char>, i: int) -> int
    decreases s.len() - i,
{
    if 0 <= i < s.len() && is_tag_char(s[i]) {
        tag_run_end(s, i + 1)
    } else {
        i
    }
}

/// The name of the tag whose name begins at `i`, in lower case.
pub open spec fn tag_name(s: Seq<char>, i: int) -> Seq<char> {
    lowercase(s.subrange(i, tag_run_end(s, i)))
}

/// Where the search for the name of a tag ends.
pub enum TagStart {
    /// The tag closes at this index before any name character.
    Closed(int),
    /// The text ends before the tag closes.
    Unclosed,
    /// The name begins at the index, under so many open brackets.
    Name(int, int),
}

/// The search for the name of a tag from `i` on, under `depth` open
/// brackets: `<` opens one more, `>` closes one, and the tag is closed when
/// the last one is.
pub open spec fn tag_start(s: Seq<char>, i: int, depth: int) -> TagStart
    decreases s.len() - i,
{
    if i < 0 || i >= s.len() {
        TagStart::Unclosed
    } else if is_tag_char(s[i]) {
        TagStart::Name(i, depth)
    } else if s[i] == '<' {
        tag_start(s, i + 1, depth + 1)
    } else if s[i] == '>' {
        if depth <= 1 {
            TagStart::Closed(i + 1)
        } else {
            tag_start(s, i + 1, depth - 1)
        }
    } else {
        tag_start(s, i + 1, depth)
    }
}

/// The index after the `>` that closes the last of `depth` open brackets,
/// from `i` on; `None` if the text ends first.
pub open spec fn bracket_close(s: Seq<char>, i: int, depth: int) -> Option<int>
    decreases s.len() - i,
{
    if i < 0 || i >= s.len() {
        None
    } else if s[i] == '<' {
        bracket_close(s, i + 1, depth + 1)
    } else if s[i] == '>' {
        if depth <= 1 {
            Some(i + 1)
        } else {
            bracket_close(s, i + 1, depth - 1)
        }
    } else {
        bracket_close(s, i + 1, depth)
    }
}

/// The index after the first `]]` at or after `i`, if there is one.
pub open spec fn cdata_end(s: Seq<char>, i: int) -> Option<int>
    decreases s.len() - i,
{
    if i < 0 || i + 1 >= s.len() {
        None
    } else if s[i] == ']' && s[i + 1] == ']' {
        Some(i + 2)
    } else {
        cdata_end(s, i + 1)
    }
}

/// What the scan of a tag finds.
pub enum TagScan {
    /// The tag ends before the index, and has the name, if it has one.
    Tag(int, Option<Seq<char>>),
    /// The text ends before the tag is closed.
    Unclosed,
    /// The text ends before the CDATA section is closed.
    OpenCdata,
}

/// Whether a CDATA section opens at `at`: the seven characters from there
/// read `[cdata[` in lower case, whatever follows them.
pub open spec fn opens_cdata(s: Seq<char>, at: int) -> bool {
    0 <= at && at + 7 <= s.len() && lowercase(s.subrange(at, at + 7)) == "[cdata["@
}

/// The scan of the tag whose `<` stands at `i`.
///
/// Where a CDATA section opens at the first name character of the tag,
/// the text after `[cdata[` up to the next `]]` is skipped without a look
/// at its brackets, and the tag has the name `[cdata[`. In any other tag
/// the name is the first run of name characters.
pub open spec fn scan_tag(s: Seq<char>, i: int) -> TagScan {
    match tag_start(s, i + 1, 1) {
        TagStart::Closed(end) => TagScan::Tag(end, None),
        TagStart::Unclosed => TagScan::Unclosed,
        TagStart::Name(at, depth) => {
            if opens_cdata(s, at) {
                match cdata_end(s, at + 7) {
                    None => TagScan::OpenCdata,
                    Some(after) => match bracket_close(s, after, depth) {
                        Some(end) => TagScan::Tag(end, Some("[cdata["@)),
                        None => TagScan::Unclosed,
                    },
                }
            } else {
                match bracket_close(s, at, depth) {
                    Some(end) => TagScan::Tag(end, Some(tag_name(s, at))),
                    None => TagScan::Unclosed,
                }
            }
        },
    }
}

/// The state after a tag of the given name: no sentence begins after a
/// tag; `head`, `/body` and `html` end the counted part and `body` begins
/// it; `head`, `body` and `/body` set their marker at the tag, which is the
/// next token of the document.
pub open spec fn after_tag(st: ScanState, name: Option<Seq<char>>) -> ScanState {
    let st = ScanState { sentence_start: false, ..st };
    match name {
        None => st,
        Some(n) => if n == "head"@ {
            ScanState { ast: st.ast.mark_begin_head(), in_body: false, ..st }
        } else if n == "body"@ {
            ScanState { ast: st.ast.mark_begin_body(), in_body: true, ..st }
        } else if n == "/body"@ {
            ScanState { ast: st.ast.mark_end_body(), in_body: false, ..st }
        } else if n == "html"@ {
            ScanState { in_body: false, ..st }
        } else {
            st
        },
    }
}

/// Whether the word `text` is taken for a proper noun: proper nouns are
/// ignored, the word does not begin a sentence, and its first letter is an
/// upper-case one.
pub open spec fn is_proper_noun(rules: Rules, text: Seq<char>, sentence_start: bool) -> bool {
    rules.ignore_proper && !sentence_start && text.len() > 0 && is_uppercase(text[0])
}

/// The token of the word `text`: untracked outside the counted part,
/// ignored if its lower-case form is an ignored word or if it is taken for
/// a proper noun, and else followed under the stem of its lower-case form.
pub open spec fn word_token(rules: Rules, text: Seq<char>, sentence_start: bool, in_body: bool)
    -> WordView {
    if !in_body {
        WordView::Untracked(text)
    } else if rules.ignored.contains(lowercase(text)) || is_proper_noun(
        rules,
        text,
        sentence_start,
    ) {
        WordView::Ignored(text)
    } else {
        WordView::Followed(
            text,
            stem_under(rules.language, lowercase(text)),
            Ratio { num: 0, den: 1 },
            None,
        )
    }
}

/// The document that the scan of `s` from `i` on gives, begun in the state
/// `st`, or the message of the error that ends it.
///
/// At each place the scan takes the longest token that begins there: a run
/// of letters is a word; in HTML, `<` begins a tag and `&` an escape, which
/// ends at the next `;`; anything else is a run of separators, and a full
/// stop in it begins a sentence.
pub open spec fn tokenize_from(rules: Rules, s: Seq<char>, i: int, st: ScanState) -> Result<
    AstView,
    Seq<char>,
>
    decreases s.len() - i,
    via tokenize_from_decreases
{
    if i < 0 || i >= s.len() {
        Ok(st.ast)
    } else if is_alphabetic(s[i]) {
        let end = word_end(s, i);
        let word = word_token(rules, s.subrange(i, end), st.sentence_start, st.in_body);
        tokenize_from(
            rules,
            s,
            end,
            ScanState { ast: st.ast.push(word), sentence_start: false, in_body: st.in_body },
        )
    } else if rules.html && s[i] == '<' {
        match scan_tag(s, i) {
            TagScan::Tag(end, name) => {
                let next = after_tag(st, name);
                tokenize_from(
                    rules,
                    s,
                    end,
                    ScanState {
                        ast: next.ast.push(WordView::Untracked(s.subrange(i, end))),
                        ..next
                    },
                )
            },
            TagScan::Unclosed => Err(unclosed_message(s.subrange(i, s.len() as int))),
            TagScan::OpenCdata => Err(cdata_message()),
        }
    } else if rules.html && s[i] == '&' {
        match escape_end(s, i) {
            Some(end) => tokenize_from(
                rules,
                s,
                end,
                ScanState { ast: st.ast.push(WordView::Untracked(s.subrange(i, end))), ..st },
            ),
            None => Err(escape_message()),
        }
    } else {
        let end = separator_end(s, i, rules.html);
        tokenize_from(
            rules,
            s,
            end,
            ScanState {
                ast: st.ast.push(WordView::Untracked(s.subrange(i, end))),
                sentence_start: st.sentence_start || s.subrange(i, end).contains('.'),
                in_body: st.in_body,
            },
        )
    }
}

/// A run of separators ends at or after its beginning, inside the text, and
/// after its beginning if the first character is a separator.
pub proof fn lemma_separator_end_bounds(s: Seq<char>, i: int, html: bool)
    requires
        0 <= i <= s.len(),
    ensures
        i <= separator_end(s, i, html) <= s.len(),
        i < s.len() && !ends_separator(s[i], html) ==> i < separator_end(s, i, html),
    decreases s.len() - i,
{
    if i < s.len() && !ends_separator(s[i], html) {
        lemma_separator_end_bounds(s, i + 1, html);
    }
}

/// An escape ends after its beginning, inside the text.
pub proof fn lemma_escape_end_bounds(s: Seq<char>, i: int)
    requires
        0 <= i <= s.len(),
    ensures
        escape_end(s, i) matches Some(end) ==> i < end <= s.len(),
    decreases s.len() - i,
{
    if i < s.len() && s[i] != ';' {
        lemma_escape_end_bounds(s, i + 1);
    }
}

/// Brackets close after the place where the search for `>` begins.
pub proof fn lemma_bracket_close_bounds(s: Seq<char>, i: int, depth: int)
    requires
        0 <= i <= s.len(),
    ensures
        bracket_close(s, i, depth) matches Some(end) ==> i < end <= s.len(),
    decreases s.len() - i,
{
    if i < s.len() {
        if s[i] == '<' {
            lemma_bracket_close_bounds(s, i + 1, depth + 1);
        } else if s[i] == '>' {
            if depth > 1 {
                lemma_bracket_close_bounds(s, i + 1, depth - 1);
            }
        } else {
            lemma_bracket_close_bounds(s, i + 1, depth);
        }
    }
}

/// The search for the name of a tag ends after the place where it begins,
/// or at a name character not before it.
pub proof fn lemma_tag_start_bounds(s: Seq<char>, i: int, depth: int)
    requires
        0 <= i <= s.len(),
    ensures
        tag_start(s, i, depth) matches TagStart::Closed(end) ==> i < end <= s.len(),
        tag_start(s, i, depth) matches TagStart::Name(at, _) ==> i <= at < s.len(),
    decreases s.len() - i,
{
    if i < s.len() && !is_tag_char(s[i]) {
        if s[i] == '<' {
            lemma_tag_start_bounds(s, i + 1, depth + 1);
        } else if s[i] == '>' {
            if depth > 1 {
                lemma_tag_start_bounds(s, i + 1, depth - 1);
            }
        } else {
            lemma_tag_start_bounds(s, i + 1, depth);
        }
    }
}

/// A CDATA section ends after the place where the search for `]]` begins.
pub proof fn lemma_cdata_end_bounds(s: Seq<char>, i: int)
    requires
        0 <= i <= s.len(),
    ensures
        cdata_end(s, i) matches Some(end) ==> i < end <= s.len(),
    decreases s.len() - i,
{
    if i + 1 < s.len() && !(s[i] == ']' && s[i + 1] == ']') {
        lemma_cdata_end_bounds(s, i + 1);
    }
}

/// A tag ends after its `<`, inside the text.
pub proof fn lemma_scan_tag_bounds(s: Seq<char>, i: int)
    requires
        0 <= i < s.len(),
    ensures
        scan_tag(s, i) matches TagScan::Tag(end, _) ==> i < end <= s.len(),
{
    lemma_tag_start_bounds(s, i + 1, 1);
    match tag_start(s, i + 1, 1) {
        TagStart::Name(at, depth) => {
            lemma_bracket_close_bounds(s, at, depth);
            if opens_cdata(s, at) {
                lemma_cdata_end_bounds(s, at + 7);
                match cdata_end(s, at + 7) {
                    Some(after) => {
                        lemma_bracket_close_bounds(s, after, depth);
                    },
                    None => {},
                }
            }
        },
        _ => {},
    }
}

#[via_fn]
proof fn tokenize_from_decreases(rules: Rules, s: Seq<char>, i: int, st: ScanState) {
    if 0 <= i < s.len() {
        lemma_word_end_bounds(s, i);
        lemma_scan_tag_bounds(s, i);
        lemma_escape_end_bounds(s, i);
        lemma_separator_end_bounds(s, i, rules.html);
    }
}

/// The state in which the scan of a text begins: an empty document, at the
/// beginning of a sentence, in the counted part.
pub open spec fn initial_state() -> ScanState {
    ScanState { ast: AstView::empty(), sentence_start: true, in_body: true }
}

/// The document that `s` is cut into under `rules`, or the message of the
/// error that the scan ends on.
pub open spec fn tokenized(rules: Rules, s: Seq<char>) -> Result<AstView, Seq<char>> {
    tokenize_from(rules, s, 0, initial_state())
}


/// The text of a document grows by the text of the token that is appended.
pub proof fn lemma_joined_text_push(words: Seq<WordView>, w: WordView)
    ensures
        joined_text(words.push(w)) == joined_text(words) + w.text(),
{
    assert(words.push(w).drop_last() == words);
}

/// If the tokens read so far spell the text before `i`, the tokens of the
/// whole scan spell the whole text.
pub proof fn lemma_scan_keeps_text(rules: Rules, s: Seq<char>, i: int, st: ScanState)
    requires
        0 <= i <= s.len(),
        joined_text(st.ast.words) == s.subrange(0, i),
    ensures
        tokenize_from(rules, s, i, st) matches Ok(ast) ==> joined_text(ast.words) == s,
    decreases s.len() - i,
{
    if i >= s.len() {
        assert(s.subrange(0, i) == s);
    } else {
        lemma_word_end_bounds(s, i);
        lemma_scan_tag_bounds(s, i);
        lemma_escape_end_bounds(s, i);
        lemma_separator_end_bounds(s, i, rules.html);
        if is_alphabetic(s[i]) {
            let end = word_end(s, i);
            let word = word_token(rules, s.subrange(i, end), st.sentence_start, st.in_body);
            let next = ScanState {
                ast: st.ast.push(word),
                sentence_start: false,
                in_body: st.in_body,
            };
            lemma_joined_text_push(st.ast.words, word);
            assert(s.subrange(0, i) + s.subrange(i, end) == s.subrange(0, end));
            lemma_scan_keeps_text(rules, s, end, next);
        } else if rules.html && s[i] == '<' {
            match scan_tag(s, i) {
                TagScan::Tag(end, name) => {
                    let mid = after_tag(st, name);
                    let word = WordView::Untracked(s.subrange(i, end));
                    let next = ScanState { ast: mid.ast.push(word), ..mid };
                    assert(mid.ast.words == st.ast.words);
                    lemma_joined_text_push(st.ast.words, word);
                    assert(s.subrange(0, i) + s.subrange(i, end) == s.subrange(0, end));
                    lemma_scan_keeps_text(rules, s, end, next);
                },
                _ => {},
            }
        } else if rules.html && s[i] == '&' {
            match escape_end(s, i) {
                Some(end) => {
                    let word = WordView::Untracked(s.subrange(i, end));
                    let next = ScanState { ast: st.ast.push(word), ..st };
                    lemma_joined_text_push(st.ast.words, word);
                    assert(s.subrange(0, i) + s.subrange(i, end) == s.subrange(0, end));
                    lemma_scan_keeps_text(rules, s, end, next);
                },
                None => {},
            }
        } else {
            let end = separator_end(s, i, rules.html);
            let word = WordView::Untracked(s.subrange(i, end));
            let next = ScanState {
                ast: st.ast.push(word),
                sentence_start: st.sentence_start || s.subrange(i, end).contains('.'),
                in_body: st.in_body,
            };
            lemma_joined_text_push(st.ast.words, word);
            assert(s.subrange(0, i) + s.subrange(i, end) == s.subrange(0, end));
            lemma_scan_keeps_text(rules, s, end, next);
        }
    }
}

/// Decides whether `c` can stand in the name of a tag.
fn tag_char(c: char) -> (b: bool)
    ensures
        b == is_tag_char(c),
{
    c == '[' || c == ']' || c == '/' || char_is_alphabetic(c)
}

impl Parser {
    /// What the tokenizer goes by under this parser.
    pub open spec fn rules(&self) -> Rules {
        Rules {
            html: self.html(),
            ignore_proper: self.ignore_proper(),
            ignored: self.ignored(),
            language: self.language(),
        }
    }

    /// Reads the escape that begins at `i`: the text through the next `;`.
    /// A text that ends before any `;` is an error.
    pub fn tokenize_escape(&self, chars: &Vec<char>, i: usize) -> (r: Result<(usize, Word), Error>)
        requires
            i < chars.len(),
        ensures
            match r {
                Ok((end, word)) => {
                    &&& escape_end(chars@, i as int) == Some(end as int)
                    &&& i < end <= chars.len()
                    &&& word@ == WordView::Untracked(chars@.subrange(i as int, end as int))
                },
                Err(e) => escape_end(chars@, i as int) is None && e.content@ == escape_message(),
            },
    {
        let mut j: usize = i;
        while j < chars.len()
            invariant
                i <= j <= chars.len(),
                escape_end(chars@, i as int) == escape_end(chars@, j as int),
            decreases chars.len() - j,
        {
            if chars[j] == ';' {
                let text = string_of(chars, i, j + 1);
                return Ok((j + 1, Word::Untracked(text)));
            }
            j += 1;
        }
        Err(
            Error::new(
                "Error reading HTML: ill-formed escape code. Maybe this is not an HTML file?",
            ),
        )
    }

    /// Reads the tag whose `<` stands at `i`, through the `>` that closes
    /// it, and lets the markers of the document and the counted part follow
    /// the tags `head`, `body`, `/body` and `html`. A text that ends inside
    /// the tag, or inside a CDATA section of it, is an error.
    pub fn tokenize_html(&self, chars: &Vec<char>, i: usize, ast: &mut Ast, in_body: &mut bool) -> (r:
        Result<(usize, Word), Error>)
        requires
            i < chars.len(),
        ensures
            match r {
                Ok((end, word)) => {
                    &&& scan_tag(chars@, i as int) matches TagScan::Tag(e, name)
                    &&& e == end
                    &&& i < end <= chars.len()
                    &&& word@ == WordView::Untracked(chars@.subrange(i as int, end as int))
                    &&& ({
                        let next = after_tag(
                            ScanState {
                                ast: old(ast)@,
                                sentence_start: false,
                                in_body: *old(in_body),
                            },
                            name,
                        );
                        final(ast)@ == next.ast && *final(in_body) == next.in_body
                    })
                },
                Err(e) => {
                    ||| (scan_tag(chars@, i as int) is Unclosed && e.content@ == unclosed_message(
                        chars@.subrange(i as int, chars.len() as int),
                    ))
                    ||| (scan_tag(chars@, i as int) is OpenCdata && e.content@ == cdata_message())
                },
            },
    {
        let len = chars.len();
        let mut j: usize = i + 1;
        let mut depth: usize = 1;
        proof {
            lemma_scan_tag_bounds(chars@, i as int);
        }
        // The search for the name of the tag.
        while j < len && !tag_char(chars[j])
            invariant
                i < j <= len,
                len == chars.len(),
                1 <= depth <= j - i,
                tag_start(chars@, i + 1, 1) == tag_start(chars@, j as int, depth as int),
                *ast == *old(ast),
                *in_body == *old(in_body),
            decreases len - j,
        {
            let c = chars[j];
            j += 1;
            if c == '<' {
                depth += 1;
            } else if c == '>' {
                if depth == 1 {
                    let text = string_of(chars, i, j);
                    return Ok((j, Word::Untracked(text)));
                }
                depth -= 1;
            }
        }
        if j >= len {
            return Err(self.unclosed_tag(chars, i));
        }
        let ghost at = j;
        let ghost name_depth = depth;
        assert(tag_start(chars@, i + 1, 1) == TagStart::Name(at as int, name_depth as int));
        let cdata = len - j >= 7 && same_text(
            lowercase_string(chars, j, j + 7).as_str(),
            "[cdata[",
        );
        assert(cdata == opens_cdata(chars@, at as int));
        let name = if cdata {
            // The search for the end of the CDATA section.
            let mut k: usize = j + 7;
            let mut found = false;
            while !found && len - k > 1
                invariant
                    j + 7 <= k <= len,
                    len == chars.len(),
                    !found ==> cdata_end(chars@, j + 7) == cdata_end(chars@, k as int),
                    found ==> cdata_end(chars@, j + 7) == Some(k as int),
                decreases len - k + if found { 0int } else { 1int },
            {
                if chars[k] == ']' && chars[k + 1] == ']' {
                    k += 2;
                    found = true;
                } else {
                    k += 1;
                }
            }
            if !found {
                return Err(Error::new("CDATA field not terminated properly"));
            }
            j = k;
            let name = "[cdata[".to_owned();
            proof {
                reveal_strlit("[cdata[");
                reveal_strlit("head");
                reveal_strlit("body");
                reveal_strlit("/body");
                reveal_strlit("html");
                assert(name@.len() == 7);
            }
            name
        } else {
            let mut run_end: usize = j;
            while run_end < len && tag_char(chars[run_end])
                invariant
                    j <= run_end <= len,
                    len == chars.len(),
                    tag_run_end(chars@, j as int) == tag_run_end(chars@, run_end as int),
                decreases len - run_end,
            {
                run_end += 1;
            }
            let name = lowercase_string(chars, j, run_end);
            assert(name@ == tag_name(chars@, j as int));
            if same_text(name.as_str(), "head") {
                ast.mark_begin_head();
                *in_body = false;
            } else if same_text(name.as_str(), "body") {
                ast.mark_begin_body();
                *in_body = true;
            } else if same_text(name.as_str(), "/body") {
                ast.mark_end_body();
                *in_body = false;
            } else if same_text(name.as_str(), "html") {
                *in_body = false;
            }
            name
        };
        let ghost from = j as int;
        proof {
            reveal_strlit("[cdata[");
            reveal_strlit("head");
            reveal_strlit("body");
            reveal_strlit("/body");
            reveal_strlit("html");
            let next = after_tag(
                ScanState { ast: old(ast)@, sentence_start: false, in_body: *old(in_body) },
                Some(name@),
            );
            assert(ast@ == next.ast && *in_body == next.in_body);
            assert(scan_tag(chars@, i as int) == match bracket_close(
                chars@,
                from,
                name_depth as int,
            ) {
                Some(end) => TagScan::Tag(end, Some(name@)),
                None => TagScan::Unclosed,
            });
        }
        let ghost marked = ast@;
        let ghost counted_part = *in_body;
        // The search for the end of the tag.
        while j < len
            invariant
                i < j <= len,
                len == chars.len(),
                1 <= depth <= j - i,
                bracket_close(chars@, from, name_depth as int) == bracket_close(
                    chars@,
                    j as int,
                    depth as int,
                ),
                scan_tag(chars@, i as int) == match bracket_close(
                    chars@,
                    from,
                    name_depth as int,
                ) {
                    Some(end) => TagScan::Tag(end, Some(name@)),
                    None => TagScan::Unclosed,
                },
                ast@ == marked,
                *in_body == counted_part,
                marked == after_tag(
                    ScanState { ast: old(ast)@, sentence_start: false, in_body: *old(in_body) },
                    Some(name@),
                ).ast,
                counted_part == after_tag(
                    ScanState { ast: old(ast)@, sentence_start: false, in_body: *old(in_body) },
                    Some(name@),
                ).in_body,
            decreases len - j,
        {
            let c = chars[j];
            j += 1;
            if c == '<' {
                depth += 1;
            } else if c == '>' {
                if depth == 1 {
                    let text = string_of(chars, i, j);
                    return Ok((j, Word::Untracked(text)));
                }
                depth -= 1;
            }
        }
        Err(self.unclosed_tag(chars, i))
    }

    /// The error for the tag at `i`, which the text does not close.
    pub fn unclosed_tag(&self, chars: &Vec<char>, i: usize) -> (e: Error)
        requires
            i <= chars.len(),
        ensures
            e.content@ == unclosed_message(chars@.subrange(i as int, chars.len() as int)),
    {
        let rest = string_of(chars, i, chars.len());
        let mut content =
            "Error reading HTML: unclosed tag. Maybe this is not an HTML file?\nDetails: the following was not closed: ".to_owned();
        content.append(rest.as_str());
        Error { content }
    }
}


impl Parser {
    /// Reads the run of separators that begins at `i`: everything up to the
    /// next letter or, in HTML, the next `<` or `&`. A full stop in the run
    /// begins a sentence.
    pub fn tokenize_whitespace(&self, chars: &Vec<char>, i: usize, is_begin: &mut bool) -> (r: (
        usize,
        Word,
    ))
        requires
            i <= chars.len(),
        ensures
            r.0 == separator_end(chars@, i as int, self.html()),
            i <= r.0 <= chars.len(),
            r.1@ == WordView::Untracked(chars@.subrange(i as int, r.0 as int)),
            *final(is_begin) == (*old(is_begin) || chars@.subrange(i as int, r.0 as int).contains(
                '.',
            )),
    {
        let mut j: usize = i;
        proof {
            self.lemma_settings();
        }
        while j < chars.len() && !(((chars[j] == '<' || chars[j] == '&') && self.html)
            || char_is_alphabetic(chars[j]))
            invariant
                i <= j <= chars.len(),
                separator_end(chars@, i as int, self.html()) == separator_end(
                    chars@,
                    j as int,
                    self.html(),
                ),
                *is_begin == (*old(is_begin) || chars@.subrange(i as int, j as int).contains('.')),
                self.html() == self.html,
            decreases chars.len() - j,
        {
            let ghost before = chars@.subrange(i as int, j as int);
            if chars[j] == '.' {
                *is_begin = true;
            }
            j += 1;
            proof {
                let now = chars@.subrange(i as int, j as int);
                assert(now == before.push(chars@[j - 1]));
                assert(now[now.len() - 1] == chars@[j - 1]);
                if before.contains('.') {
                    let k = choose|k: int| 0 <= k < before.len() && before[k] == '.';
                    assert(now[k] == '.');
                }
                if now.contains('.') && chars@[j - 1] != '.' {
                    let k = choose|k: int| 0 <= k < now.len() && now[k] == '.';
                    assert(before[k] == '.');
                }
            }
        }
        let text = string_of(chars, i, j);
        (j, Word::Untracked(text))
    }

    /// Decides whether the word `s` is taken for a proper noun: only where
    /// proper nouns are ignored, the word does not begin a sentence, and
    /// its first letter is an upper-case one.
    pub fn is_proper_noun(&self, s: &str, is_begin: bool) -> (b: bool)
        ensures
            b == is_proper_noun(self.rules(), s@, is_begin),
    {
        proof {
            self.lemma_settings();
        }
        if self.ignore_proper {
            if !is_begin {
                if s.unicode_len() > 0 {
                    char_is_uppercase(s.get_char(0))
                } else {
                    false
                }
            } else {
                false
            }
        } else {
            false
        }
    }

    /// Reads the word that begins at `i`, a run of letters, and classifies
    /// it: see [`word_token`]. After a word no sentence begins.
    pub fn tokenize_word(&mut self, chars: &Vec<char>, i: usize, is_begin: &mut bool, in_body: bool)
        -> (r: (usize, Word))
        requires
            i <= chars.len(),
        ensures
            r.0 == word_end(chars@, i as int),
            i <= r.0 <= chars.len(),
            r.1@ == word_token(
                old(self).rules(),
                chars@.subrange(i as int, r.0 as int),
                *old(is_begin),
                in_body,
            ),
            !*final(is_begin),
            final(self).same_settings(old(self)),
    {
        let mut j: usize = i;
        while j < chars.len() && char_is_alphabetic(chars[j])
            invariant
                i <= j <= chars.len(),
                word_end(chars@, i as int) == word_end(chars@, j as int),
            decreases chars.len() - j,
        {
            j += 1;
        }
        let text = string_of(chars, i, j);
        let lower = lowercase_string(chars, i, j);
        proof {
            self.lemma_settings();
        }
        let word = if !in_body {
            Word::Untracked(text)
        } else {
            let listed = find_key(&self.ignored, lower.as_str());
            proof {
                if let Some(k) = listed {
                    assert(crate::fuzzy::key_views(self.ignored@)[k as int] == lower@);
                }
            }
            if listed.is_some() || self.is_proper_noun(text.as_str(), *is_begin) {
                Word::Ignored(text)
            } else {
                let stem = stem_with(&mut self.stemmer, lower.as_str());
                Word::Followed(text, stem, Ratio::zero(), None)
            }
        };
        *is_begin = false;
        proof {
            self.lemma_settings();
        }
        (j, word)
    }

    /// Cuts the text `s` into the tokens of a document.
    ///
    /// The tokens are those of [`tokenized`], so that their texts, joined in
    /// order, are the text `s`. In HTML a tag that is not closed, a CDATA
    /// section that is not closed and an escape without its `;` are errors,
    /// and then no document comes back.
    pub fn tokenize(&mut self, s: &str) -> (r: Result<Ast, Error>)
        ensures
            final(self).same_settings(old(self)),
            match r {
                Ok(ast) => {
                    &&& tokenized(old(self).rules(), s@) == Ok::<AstView, Seq<char>>(ast@)
                    &&& joined_text(ast@.words) == s@
                },
                Err(e) => tokenized(old(self).rules(), s@) == Err::<AstView, Seq<char>>(
                    e.content@,
                ),
            },
    {
        let chars = chars_of(s);
        let mut ast = Ast::new();
        let mut is_sentence_beginning = true;
        let mut in_body = true;
        let mut i: usize = 0;
        let ghost rules = self.rules();
        proof {
            assert(joined_text(initial_state().ast.words) == s@.subrange(0, 0));
            lemma_scan_keeps_text(rules, s@, 0, initial_state());
        }
        while i < chars.len()
            invariant
                i <= chars.len(),
                chars@ == s@,
                self.same_settings(old(self)),
                rules == old(self).rules(),
                rules == self.rules(),
                tokenized(rules, s@) == tokenize_from(
                    rules,
                    s@,
                    i as int,
                    ScanState { ast: ast@, sentence_start: is_sentence_beginning, in_body },
                ),
            decreases chars.len() - i,
        {
            let c = chars[i];
            proof {
                self.lemma_settings();
            }
            let (end, word) = if char_is_alphabetic(c) {
                proof {
                    lemma_word_end_bounds(chars@, i as int);
                }
                self.tokenize_word(&chars, i, &mut is_sentence_beginning, in_body)
            } else if self.html && c == '<' {
                is_sentence_beginning = false;
                match self.tokenize_html(&chars, i, &mut ast, &mut in_body) {
                    Ok(found) => found,
                    Err(e) => {
                        return Err(e);
                    },
                }
            } else if self.html && c == '&' {
                match self.tokenize_escape(&chars, i) {
                    Ok(found) => found,
                    Err(e) => {
                        return Err(e);
                    },
                }
            } else {
                proof {
                    lemma_separator_end_bounds(chars@, i as int, rules.html);
                }
                self.tokenize_whitespace(&chars, i, &mut is_sentence_beginning)
            };
            let ghost marked = ast@;
            ast.words.push(word);
            assert(ast@ == marked.push(word@)) by {
                assert(ast@.words =~= marked.words.push(word@));
            }
            i = end;
        }
        Ok(ast)
    }
}

} // verus!
