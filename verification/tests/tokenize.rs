use caribon::Ast;
use caribon::Parser;
use caribon::Word;

fn texts(ast: &Ast) -> String {
    let mut s = String::new();
    for w in &ast.words {
        match w {
            Word::Untracked(t) | Word::Ignored(t) => s.push_str(t),
            Word::Followed(t, _, _, _) => s.push_str(t),
        }
    }
    s
}

fn kinds(ast: &Ast) -> Vec<(char, String)> {
    ast.words
        .iter()
        .map(|w| match w {
            Word::Untracked(t) => ('u', t.clone()),
            Word::Ignored(t) => ('i', t.clone()),
            Word::Followed(t, _, _, _) => ('f', t.clone()),
        })
        .collect()
}

fn pair(kind: char, text: &str) -> (char, String) {
    (kind, text.to_string())
}

#[test]
fn new_accepts_known_languages() {
    assert!(Parser::new("english").is_ok());
    assert!(Parser::new("french").is_ok());
    assert!(Parser::new("no_stemmer").is_ok());
}

#[test]
fn new_rejects_unknown_language() {
    let e = Parser::new("incorrect language").err().unwrap();
    assert!(e.content.starts_with(
        "Language incorrect language is not implemented.\nSupported languages: "
    ));
    assert!(e.content.contains("english"));
    assert!(e.content.contains(", "));
    let listed = Parser::list_languages().join(", ");
    assert_eq!(
        e.content,
        format!(
            "Language incorrect language is not implemented.\nSupported languages: {}",
            listed
        )
    );
}

#[test]
fn new_rejects_a_name_with_nul() {
    assert!(Parser::new("eng\0lish").is_err());
}

#[test]
fn list_languages_holds_english_and_french() {
    let names = Parser::list_languages();
    assert!(names.contains(&"english"));
    assert!(names.contains(&"french"));
    assert!(!names.contains(&"no_stemmer"));
}

#[test]
fn list_languages_gives_the_names_in_order() {
    assert_eq!(
        Parser::list_languages(),
        vec![
            "danish",
            "dutch",
            "english",
            "finnish",
            "french",
            "german",
            "hungarian",
            "italian",
            "norwegian",
            "porter",
            "portuguese",
            "romanian",
            "russian",
            "spanish",
            "swedish",
            "turkish",
        ]
    );
}

#[test]
fn every_listed_language_has_a_parser() {
    for name in Parser::list_languages() {
        assert!(Parser::new(name).is_ok(), "{}", name);
        assert!(!name.contains('\0'), "{}", name);
    }
}

#[test]
fn a_short_name_has_a_parser_and_is_not_listed() {
    assert!(Parser::new("en").is_ok());
    assert!(!Parser::list_languages().contains(&"en"));
}

#[test]
fn tokenize_empty_text() {
    let mut parser = Parser::new("english").unwrap();
    let ast = parser.tokenize("").unwrap();
    assert!(ast.words.is_empty());
    assert_eq!(ast.begin_head, None);
    assert_eq!(ast.begin_body, None);
    assert_eq!(ast.end_body, None);
}

#[test]
fn tokenize_round_trip_plain() {
    let mut parser = Parser::new("english").unwrap().with_html(false);
    let input = "Some text, with <b>signs</b> & an éléphant. The End";
    let ast = parser.tokenize(input).unwrap();
    assert_eq!(texts(&ast), input);
}

#[test]
fn tokenize_round_trip_html() {
    let mut parser = Parser::new("french").unwrap();
    let input = "<html><head><title>Été</title></head><body>L'été &amp; l'hiver.<br/>Fin</body></html>";
    let ast = parser.tokenize(input).unwrap();
    assert_eq!(texts(&ast), input);
}

#[test]
fn tokenize_round_trip_after_detection() {
    let mut parser = Parser::new("english").unwrap().with_html(false);
    let input = "A cat is a cat, and cats are cats.";
    let mut ast = parser.tokenize(input).unwrap();
    parser.detect_local(&mut ast, caribon::Ratio::new(19, 10).unwrap());
    parser.detect_global(&mut ast, caribon::Ratio::new(1, 100).unwrap());
    assert_eq!(texts(&ast), input);
}

#[test]
fn tokenize_stems_words() {
    let mut parser = Parser::new("english").unwrap().with_html(false);
    let ast = parser.tokenize("works work").unwrap();
    assert_eq!(ast.words.len(), 3);
    match (&ast.words[0], &ast.words[2]) {
        (Word::Followed(a, sa, score, None), Word::Followed(b, sb, _, None)) => {
            assert_eq!(a, "works");
            assert_eq!(b, "work");
            assert_eq!(sa, "work");
            assert_eq!(sb, "work");
            assert_eq!(score.num, 0);
        }
        _ => panic!("two followed words expected"),
    }
    assert!(matches!(&ast.words[1], Word::Untracked(t) if t == " "));
}

#[test]
fn tokenize_stems_the_lower_case_form() {
    let mut parser = Parser::new("no_stemmer").unwrap().with_html(false);
    let ast = parser.tokenize("HeLLo").unwrap();
    match &ast.words[0] {
        Word::Followed(text, stem, _, _) => {
            assert_eq!(text, "HeLLo");
            assert_eq!(stem, "hello");
        }
        _ => panic!("a followed word expected"),
    }
}

#[test]
fn tokenize_classifies_tokens() {
    let mut parser = Parser::new("english").unwrap().with_html(false);
    let ast = parser.tokenize("The cat, a dog!").unwrap();
    assert_eq!(
        kinds(&ast),
        vec![
            pair('i', "The"),
            pair('u', " "),
            pair('f', "cat"),
            pair('u', ", "),
            pair('i', "a"),
            pair('u', " "),
            pair('f', "dog"),
            pair('u', "!"),
        ]
    );
}

#[test]
fn tokenize_plain_text_keeps_signs_of_html() {
    let mut parser = Parser::new("no_stemmer").unwrap().with_html(false);
    let ast = parser.tokenize("a <b & c").unwrap();
    assert_eq!(
        kinds(&ast),
        vec![pair('f', "a"), pair('u', " <"), pair('f', "b"), pair('u', " & "), pair('f', "c")]
    );
}

#[test]
fn tokenize_html_tags_and_escapes() {
    let mut parser = Parser::new("no_stemmer").unwrap();
    let ast = parser.tokenize("x<b class=\"y\">z&nbsp;w</b>").unwrap();
    assert_eq!(
        kinds(&ast),
        vec![
            pair('f', "x"),
            pair('u', "<b class=\"y\">"),
            pair('f', "z"),
            pair('u', "&nbsp;"),
            pair('f', "w"),
            pair('u', "</b>"),
        ]
    );
}

#[test]
fn tokenize_html_nested_brackets() {
    let mut parser = Parser::new("no_stemmer").unwrap();
    let ast = parser.tokenize("<a <b> c>d").unwrap();
    assert_eq!(kinds(&ast), vec![pair('u', "<a <b> c>"), pair('f', "d")]);
}

#[test]
fn tokenize_html_cdata() {
    let mut parser = Parser::new("no_stemmer").unwrap();
    let ast = parser.tokenize("<![CDATA[ 1 > 0 ]]>x").unwrap();
    assert_eq!(kinds(&ast), vec![pair('u', "<![CDATA[ 1 > 0 ]]>"), pair('f', "x")]);
}

#[test]
fn tokenize_html_cdata_that_begins_with_a_letter() {
    let mut parser = Parser::new("no_stemmer").unwrap();
    let ast = parser.tokenize("<![CDATA[a>b]]>c").unwrap();
    assert_eq!(kinds(&ast), vec![pair('u', "<![CDATA[a>b]]>"), pair('f', "c")]);
    let ast = parser.tokenize("x<![cdata[Head <body> ]]>y").unwrap();
    assert_eq!(
        kinds(&ast),
        vec![pair('f', "x"), pair('u', "<![cdata[Head <body> ]]>"), pair('f', "y")]
    );
    assert_eq!(ast.begin_head, None);
    assert_eq!(ast.begin_body, None);
}

#[test]
fn tokenize_html_cdata_that_begins_with_a_name_sign() {
    let mut parser = Parser::new("no_stemmer").unwrap();
    let ast = parser.tokenize("<![CDATA[[a>]]>c").unwrap();
    assert_eq!(kinds(&ast), vec![pair('u', "<![CDATA[[a>]]>"), pair('f', "c")]);
    let ast = parser.tokenize("<![CDATA[/a>]]>c").unwrap();
    assert_eq!(kinds(&ast), vec![pair('u', "<![CDATA[/a>]]>"), pair('f', "c")]);
    let ast = parser.tokenize("<![CDATA[]a>]]>c").unwrap();
    assert_eq!(kinds(&ast), vec![pair('u', "<![CDATA[]a>]]>"), pair('f', "c")]);
    let ast = parser.tokenize("<![CDATA[]]>c").unwrap();
    assert_eq!(kinds(&ast), vec![pair('u', "<![CDATA[]]>"), pair('f', "c")]);
}

#[test]
fn tokenize_unclosed_cdata_that_begins_with_a_letter_is_an_error() {
    let mut parser = Parser::new("english").unwrap();
    let e = parser.tokenize("<![CDATA[a>").err().unwrap();
    assert_eq!(e.content, "CDATA field not terminated properly");
    let e = parser.tokenize("<![CDATA[a>b]]").err().unwrap();
    assert_eq!(
        e.content,
        "Error reading HTML: unclosed tag. Maybe this is not an HTML file?\nDetails: the following was not closed: <![CDATA[a>b]]"
    );
}

#[test]
fn tokenize_a_tag_that_is_no_cdata() {
    // Six characters of the seven: a tag of its own name, closed by its `>`.
    let mut parser = Parser::new("no_stemmer").unwrap();
    let ast = parser.tokenize("<![CDATA>x").unwrap();
    assert_eq!(kinds(&ast), vec![pair('u', "<![CDATA>"), pair('f', "x")]);
}

#[test]
fn new_lists_the_languages_in_its_error() {
    let e = Parser::new("klingon").err().unwrap();
    assert_eq!(
        e.content,
        "Language klingon is not implemented.\nSupported languages: danish, dutch, english, \
         finnish, french, german, hungarian, italian, norwegian, porter, portuguese, romanian, \
         russian, spanish, swedish, turkish"
    );
}

#[test]
fn parser_gives_its_window() {
    assert_eq!(Parser::new("english").unwrap().get_max_distance(), 50);
    assert_eq!(Parser::new("english").unwrap().with_max_distance(7).get_max_distance(), 7);
}

#[test]
fn tokenize_html_scoping() {
    let mut parser = Parser::new("english").unwrap();
    let input = "<head><title>Cat</title></head><body>cat cat</body>";
    let mut ast = parser.tokenize(input).unwrap();
    assert_eq!(
        kinds(&ast),
        vec![
            pair('u', "<head>"),
            pair('u', "<title>"),
            pair('u', "Cat"),
            pair('u', "</title>"),
            pair('u', "</head>"),
            pair('u', "<body>"),
            pair('f', "cat"),
            pair('u', " "),
            pair('f', "cat"),
            pair('u', "</body>"),
        ]
    );
    assert_eq!(ast.begin_head, Some(0));
    assert_eq!(ast.begin_body, Some(5));
    assert_eq!(ast.end_body, Some(9));
    let (stats, count) = parser.words_stats(&ast);
    assert_eq!(count, 2);
    assert_eq!(stats, vec![("cat".to_string(), 2)]);
    parser.detect_local(&mut ast, caribon::Ratio::new(19, 10).unwrap());
    let marked: Vec<bool> = ast
        .words
        .iter()
        .map(|w| matches!(w, Word::Followed(_, _, _, Some(_))))
        .collect();
    assert_eq!(
        marked,
        vec![false, false, false, false, false, false, true, false, true, false]
    );
}

#[test]
fn tokenize_html_markers() {
    let mut parser = Parser::new("no_stemmer").unwrap();
    let ast = parser
        .tokenize("<HTML><Head></Head><BODY>a</BODY><body>b</body></HTML>")
        .unwrap();
    assert_eq!(ast.begin_head, Some(1));
    // The first body stays; the last end of a body wins.
    assert_eq!(ast.begin_body, Some(3));
    assert_eq!(ast.end_body, Some(8));
    // After a tag that closes a body, words are not counted.
    let ast = parser.tokenize("a<html>b<body>c</body>d").unwrap();
    assert_eq!(
        kinds(&ast),
        vec![
            pair('f', "a"),
            pair('u', "<html>"),
            pair('u', "b"),
            pair('u', "<body>"),
            pair('f', "c"),
            pair('u', "</body>"),
            pair('u', "d"),
        ]
    );
}

#[test]
fn tokenize_unclosed_tag_is_an_error() {
    let mut parser = Parser::new("english").unwrap();
    let e = parser.tokenize("a <b c").err().unwrap();
    assert_eq!(
        e.content,
        "Error reading HTML: unclosed tag. Maybe this is not an HTML file?\nDetails: the following was not closed: <b c"
    );
    assert_eq!(e.description(), e.content);
}

#[test]
fn tokenize_unclosed_cdata_is_an_error() {
    let mut parser = Parser::new("english").unwrap();
    let e = parser.tokenize("<![CDATA[ x ]").err().unwrap();
    assert_eq!(e.content, "CDATA field not terminated properly");
}

#[test]
fn tokenize_unclosed_escape_is_an_error() {
    let mut parser = Parser::new("english").unwrap();
    let e = parser.tokenize("a &amp b").err().unwrap();
    assert_eq!(
        e.content,
        "Error reading HTML: ill-formed escape code. Maybe this is not an HTML file?"
    );
}

#[test]
fn tokenize_malformed_html_is_fine_as_plain_text() {
    let mut parser = Parser::new("english").unwrap().with_html(false);
    assert!(parser.tokenize("a <b c &amp").is_ok());
}

#[test]
fn tokenize_proper_nouns() {
    let mut parser = Parser::new("no_stemmer").unwrap().with_html(false).with_ignore_proper(true);
    let ast = parser.tokenize("Alice met Bob. Carol met dave").unwrap();
    let words: Vec<(char, String)> = kinds(&ast).into_iter().filter(|(k, _)| *k != 'u').collect();
    assert_eq!(
        words,
        vec![
            pair('f', "Alice"),
            pair('f', "met"),
            pair('i', "Bob"),
            pair('f', "Carol"),
            pair('f', "met"),
            pair('f', "dave"),
        ]
    );
    // Proper nouns are counted unless the parser is told to ignore them.
    let mut parser = Parser::new("no_stemmer").unwrap().with_html(false);
    let ast = parser.tokenize("Alice met Bob").unwrap();
    assert!(kinds(&ast).iter().all(|(k, _)| *k != 'i'));
}

#[test]
fn tokenize_after_a_tag_no_sentence_begins() {
    let mut parser = Parser::new("no_stemmer").unwrap().with_ignore_proper(true);
    let ast = parser.tokenize("<p>Alice").unwrap();
    assert_eq!(kinds(&ast), vec![pair('u', "<p>"), pair('i', "Alice")]);
}

#[test]
fn is_proper_noun_goes_by_the_first_letter() {
    let parser = Parser::new("english").unwrap().with_ignore_proper(true);
    assert!(parser.is_proper_noun("Rust", false));
    assert!(!parser.is_proper_noun("Rust", true));
    assert!(!parser.is_proper_noun("rust", false));
    assert!(!parser.is_proper_noun("", false));
    let parser = Parser::new("english").unwrap();
    assert!(!parser.is_proper_noun("Rust", false));
}

#[test]
fn ignored_words_from_a_string() {
    let v = Parser::get_ignored_from_string("some, words; to ignore");
    assert_eq!(v, vec!["some", "words", "to", "ignore"]);
    assert!(Parser::get_ignored_from_string(" ,;").is_empty());
}

#[test]
fn ignored_words_of_a_language() {
    let en = Parser::get_ignored_from_lang("english");
    assert_eq!(
        en,
        vec!["it", "s", "i", "of", "the", "a", "you", "we", "she", "he", "they", "them", "its", "their"]
    );
    let fr = Parser::get_ignored_from_lang("french");
    assert_eq!(fr.len(), 28);
    assert!(fr.contains(&"à".to_string()));
    assert!(Parser::get_ignored_from_lang("german").is_empty());
}

#[test]
fn with_ignored_replaces_and_with_more_ignored_adds() {
    let mut parser = Parser::new("english").unwrap().with_html(false).with_ignored("cat");
    let ast = parser.tokenize("the cat").unwrap();
    assert_eq!(kinds(&ast), vec![pair('f', "the"), pair('u', " "), pair('i', "cat")]);
    let mut parser = Parser::new("english").unwrap().with_html(false).with_more_ignored("cat, dog");
    let ast = parser.tokenize("the cat Dog").unwrap();
    assert_eq!(
        kinds(&ast),
        vec![pair('i', "the"), pair('u', " "), pair('i', "cat"), pair('u', " "), pair('i', "Dog")]
    );
}

#[test]
fn stem_of_a_word() {
    let mut parser = Parser::new("english").unwrap();
    assert_eq!(parser.stem("repetitions"), parser.stem("repetition"));
    assert_eq!(parser.stem("works"), "work");
    let mut parser = Parser::new("french").unwrap();
    assert_eq!(parser.stem("éternuerai"), "éternu");
    let mut parser = Parser::new("no_stemmer").unwrap();
    assert_eq!(parser.stem("works"), "works");
}

#[test]
fn body_of_a_document() {
    let mut parser = Parser::new("no_stemmer").unwrap();
    let ast = parser.tokenize("x<body>a b</body>y").unwrap();
    assert_eq!(ast.body_range(), (2, 5));
    assert_eq!(ast.get_body().len(), 3);
    let ast = parser.tokenize("x y").unwrap();
    assert_eq!(ast.body_range(), (0, 3));
    assert_eq!(ast.get_body().len(), 3);
    // Markers out of order: all the tokens count.
    let ast = parser.tokenize("</body>a<body>b").unwrap();
    assert_eq!(ast.begin_body, Some(2));
    assert_eq!(ast.end_body, Some(0));
    assert_eq!(ast.body_range(), (0, 4));
}

#[test]
fn ast_markers_by_hand() {
    let mut ast = Ast::new();
    ast.mark_begin_head();
    ast.words.push(Word::Untracked("<head>".to_string()));
    ast.mark_begin_head();
    ast.mark_begin_body();
    ast.words.push(Word::Untracked("<body>".to_string()));
    ast.mark_begin_body();
    ast.mark_end_body();
    ast.words.push(Word::Untracked("</body>".to_string()));
    ast.mark_end_body();
    assert_eq!(ast.begin_head, Some(0));
    assert_eq!(ast.begin_body, Some(1));
    assert_eq!(ast.end_body, Some(3));
}

#[test]
fn word_setters() {
    let mut w = Word::Followed(
        "Cats".to_string(),
        "cats".to_string(),
        caribon::Ratio::zero(),
        None,
    );
    w.set_stemmed("cat".to_string());
    w.set_count(caribon::Ratio::whole(3));
    match &w {
        Word::Followed(text, stem, score, mark) => {
            assert_eq!(text, "Cats");
            assert_eq!(stem, "cat");
            assert_eq!((score.num, score.den), (3, 1));
            assert_eq!(*mark, None);
        }
        _ => panic!("a followed word expected"),
    }
    let mut w = Word::Ignored("the".to_string());
    w.set_stemmed("x".to_string());
    w.set_count(caribon::Ratio::whole(3));
    assert!(matches!(&w, Word::Ignored(t) if t == "the"));
}
