use caribon::display::add_breaks;
use caribon::display::get_shell_colour;
use caribon::display::SHELL_COLOUR_OFF;
use caribon::Parser;
use caribon::Ratio;
use caribon::Tier;

fn ratio(num: u64, den: u64) -> Ratio {
    Ratio::new(num, den).unwrap()
}

#[test]
fn shell_colours() {
    assert_eq!(get_shell_colour("red"), Some("\x1B[4;31m"));
    assert_eq!(get_shell_colour("green"), Some("\x1B[4;32m"));
    assert_eq!(get_shell_colour("cyan"), Some("\x1B[4;36m"));
    assert_eq!(get_shell_colour("brown"), Some("\x1B[4;33m"));
    assert_eq!(get_shell_colour("blue"), Some("\x1B[4;32m"));
    assert_eq!(get_shell_colour("purple"), Some("\x1B[4;35m"));
    assert_eq!(get_shell_colour("orange"), Some("\x1B[4;33m"));
    assert_eq!(get_shell_colour("pink"), None);
    assert_eq!(get_shell_colour(""), None);
    assert_eq!(SHELL_COLOUR_OFF, "\x1B[0m");
}

#[test]
fn colours_of_the_tiers() {
    assert_eq!(Tier::Low.colour(), "green");
    assert_eq!(Tier::Medium.colour(), "orange");
    assert_eq!(Tier::High.colour(), "red");
    assert_eq!(Tier::Global.colour(), "blue");
}

#[test]
fn markdown_of_the_scenario() {
    let mut parser = Parser::new("english").unwrap();
    let mut ast = parser
        .tokenize("Testing whether this repetition detector works or does not work")
        .unwrap();
    parser.detect_local(&mut ast, ratio(19, 10));
    assert_eq!(
        parser.ast_to_markdown(&ast),
        "Testing whether this repetition detector **works** or does not **work**"
    );
}

#[test]
fn markdown_of_fuzzy_words() {
    let mut parser = Parser::new("english").unwrap().with_fuzzy(Some(ratio(1, 4)));
    let mut ast = parser.tokenize("trust Rust").unwrap();
    parser.detect_local(&mut ast, ratio(19, 10));
    assert_eq!(parser.ast_to_markdown(&ast), "**trust** **Rust**");
}

#[test]
fn markdown_of_windows() {
    let mut parser = Parser::new("english").unwrap().with_max_distance(20);
    let mut ast = parser.tokenize("This word is repeated in a few words").unwrap();
    parser.detect_local(&mut ast, ratio(19, 10));
    assert_eq!(
        parser.ast_to_markdown(&ast),
        "This **word** is repeated in a few **words**"
    );
    let mut parser = Parser::new("english").unwrap().with_max_distance(2);
    let mut ast = parser.tokenize("This word is repeated in a few words").unwrap();
    parser.detect_local(&mut ast, ratio(19, 10));
    assert_eq!(parser.ast_to_markdown(&ast), "This word is repeated in a few words");
}

#[test]
fn terminal_colours_marked_words() {
    let mut parser = Parser::new("no_stemmer").unwrap().with_html(false);
    let mut ast = parser.tokenize("a a b").unwrap();
    parser.detect_local(&mut ast, ratio(19, 10));
    assert_eq!(
        parser.ast_to_terminal(&ast),
        "\x1B[4;32ma\x1B[0m \x1B[4;32ma\x1B[0m b"
    );
    let mut ast = parser.tokenize("a a a a b").unwrap();
    parser.detect_local(&mut ast, ratio(2, 1));
    assert_eq!(
        parser.ast_to_terminal(&ast),
        "\x1B[4;31ma\x1B[0m \x1B[4;31ma\x1B[0m \x1B[4;31ma\x1B[0m \x1B[4;31ma\x1B[0m b"
    );
}

#[test]
fn html_fragment() {
    let mut parser = Parser::new("english").unwrap().with_html(false);
    let mut ast = parser.tokenize("Cats, the cat\n").unwrap();
    parser.detect_local(&mut ast, ratio(19, 10));
    let html = parser.ast_to_html(&mut ast, false, "<script></script>");
    assert_eq!(
        html,
        "<span class = \"cat\" onmouseover = 'on(\"cat\")' onmouseout = 'off(\"cat\")' \
         style = \"text-decoration: underline; color: green;\">Cats</span>, the \
         <span class = \"cat\" onmouseover = 'on(\"cat\")' onmouseout = 'off(\"cat\")' \
         style = \"text-decoration: underline; color: green;\">cat</span><br/>\n"
    );
    assert_eq!(ast.words.len(), 6);
}

#[test]
fn html_page_without_a_head() {
    let mut parser = Parser::new("no_stemmer").unwrap();
    let mut ast = parser.tokenize("a").unwrap();
    let html = parser.ast_to_html(&mut ast, true, "SCRIPTS");
    assert_eq!(
        html,
        "<html><head>\n<meta charset = \"UTF-8\">\nSCRIPTS</head>\n<body>\n\
         <span class = \"a\" onmouseover = 'on(\"a\")' onmouseout = 'off(\"a\")' >a</span>\
         </body></html>"
    );
    assert_eq!(ast.words.len(), 1);
}

#[test]
fn html_page_with_a_head() {
    let mut parser = Parser::new("no_stemmer").unwrap();
    let mut ast = parser.tokenize("<head></head><body>a</body>").unwrap();
    let html = parser.ast_to_html(&mut ast, true, "SCRIPTS");
    assert_eq!(
        html,
        "<head>SCRIPTS</head><body>\
         <span class = \"a\" onmouseover = 'on(\"a\")' onmouseout = 'off(\"a\")' >a</span>\
         </body>"
    );
    assert_eq!(ast.words.len(), 6);
}

#[test]
fn html_fragment_is_the_body() {
    let mut parser = Parser::new("no_stemmer").unwrap();
    let mut ast = parser.tokenize("<head></head><body>&amp;</body>").unwrap();
    assert_eq!(parser.ast_to_html(&mut ast, false, "SCRIPTS"), "&amp;");
}

#[test]
fn breaks_before_line_feeds() {
    assert_eq!(add_breaks("a\nb\n\nc"), "a<br/>\nb<br/>\n<br/>\nc");
    assert_eq!(add_breaks(""), "");
}
