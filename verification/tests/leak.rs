use caribon::leak::LeakLink;
use caribon::Parser;
use caribon::Ratio;

fn link(previous: usize, gap: usize) -> Option<LeakLink> {
    Some(LeakLink { previous, gap })
}

#[test]
fn leak_links_of_repeated_words() {
    let mut parser = Parser::new("no_stemmer").unwrap().with_html(false);
    //                          0 1 2 3 4 5 6 7 8
    let ast = parser.tokenize("a b a c a b").unwrap();
    let links = parser.leak_links(&ast);
    assert_eq!(
        links,
        vec![
            None,
            None,
            None,
            None,
            link(0, 2),
            None,
            None,
            None,
            link(4, 2),
            None,
            link(2, 4),
        ]
    );
}

#[test]
fn leak_links_count_ignored_words() {
    let mut parser = Parser::new("english").unwrap().with_html(false);
    let ast = parser.tokenize("cat, the cat").unwrap();
    let links = parser.leak_links(&ast);
    assert_eq!(links, vec![None, None, None, None, link(0, 2)]);
}

#[test]
fn leak_links_with_fuzzy_stems() {
    let mut parser = Parser::new("english").unwrap().with_html(false);
    let ast = parser.tokenize("trust Rust").unwrap();
    assert_eq!(parser.leak_links(&ast), vec![None, None, None]);
    let mut parser = Parser::new("english")
        .unwrap()
        .with_html(false)
        .with_fuzzy(Some(Ratio::new(1, 4).unwrap()));
    let ast = parser.tokenize("trust Rust").unwrap();
    assert_eq!(parser.leak_links(&ast), vec![None, None, link(0, 1)]);
}

#[test]
fn leak_links_keep_to_the_body() {
    let mut parser = Parser::new("no_stemmer").unwrap();
    let ast = parser.tokenize("a<body>a a</body>").unwrap();
    assert_eq!(parser.leak_links(&ast), vec![None, None, link(0, 1)]);
}

#[test]
fn leak_links_do_not_forget() {
    // Unlike the window of the local detector, the links reach any distance.
    let mut parser = Parser::new("no_stemmer").unwrap().with_html(false).with_max_distance(1);
    let ast = parser.tokenize("a b c d a").unwrap();
    let links = parser.leak_links(&ast);
    assert_eq!(links[8], link(0, 4));
}
