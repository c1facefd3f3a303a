use caribon::Ast;
use caribon::Parser;
use caribon::Ratio;
use caribon::Tier;
use caribon::Word;

fn marks_of(ast: &Ast) -> Vec<(String, Option<Tier>)> {
    ast.words
        .iter()
        .filter_map(|w| match w {
            Word::Followed(t, _, _, m) => Some((t.clone(), *m)),
            _ => None,
        })
        .collect()
}

fn ratio(num: u64, den: u64) -> Ratio {
    Ratio::new(num, den).unwrap()
}

#[test]
fn local_marks_works_and_work() {
    let mut parser = Parser::new("english").unwrap();
    let mut ast = parser
        .tokenize("Testing whether this repetition detector works or does not work")
        .unwrap();
    parser.detect_local(&mut ast, ratio(19, 10));
    for (text, mark) in marks_of(&ast) {
        if text == "works" || text == "work" {
            assert_eq!(mark, Some(Tier::Low), "{}", text);
        } else {
            assert_eq!(mark, None, "{}", text);
        }
    }
    let marked = marks_of(&ast).iter().filter(|(_, m)| m.is_some()).count();
    assert_eq!(marked, 2);
}

#[test]
fn local_fuzzy_links_trust_and_rust() {
    let mut parser = Parser::new("english").unwrap().with_fuzzy(Some(ratio(1, 4)));
    let mut ast = parser.tokenize("trust Rust").unwrap();
    parser.detect_local(&mut ast, ratio(19, 10));
    assert_eq!(
        marks_of(&ast),
        vec![("trust".to_string(), Some(Tier::Low)), ("Rust".to_string(), Some(Tier::Low))]
    );
    match &ast.words[2] {
        Word::Followed(_, stem, _, _) => assert_eq!(stem, "trust"),
        _ => panic!("a followed word expected"),
    }
}

#[test]
fn local_exact_does_not_link_trust_and_rust() {
    let mut parser = Parser::new("english").unwrap();
    let mut ast = parser.tokenize("trust Rust").unwrap();
    parser.detect_local(&mut ast, ratio(19, 10));
    assert_eq!(
        marks_of(&ast),
        vec![("trust".to_string(), None), ("Rust".to_string(), None)]
    );
}

#[test]
fn local_window_of_twenty_links_word_and_words() {
    let mut parser = Parser::new("english").unwrap().with_max_distance(20);
    let mut ast = parser.tokenize("This word is repeated in a few words").unwrap();
    parser.detect_local(&mut ast, ratio(19, 10));
    let marked: Vec<String> = marks_of(&ast)
        .into_iter()
        .filter(|(_, m)| m.is_some())
        .map(|(t, _)| t)
        .collect();
    assert_eq!(marked, vec!["word".to_string(), "words".to_string()]);
}

#[test]
fn local_window_of_two_is_too_narrow() {
    let mut parser = Parser::new("english").unwrap().with_max_distance(2);
    let mut ast = parser.tokenize("This word is repeated in a few words").unwrap();
    parser.detect_local(&mut ast, ratio(19, 10));
    assert!(marks_of(&ast).iter().all(|(_, m)| m.is_none()));
}

#[test]
fn local_window_boundary() {
    // "cat" stands three words after "cat": linked in a window of 4, not of 3.
    let text = "cat one two cat";
    let mut parser = Parser::new("no_stemmer").unwrap().with_html(false).with_max_distance(4);
    let mut ast = parser.tokenize(text).unwrap();
    parser.detect_local(&mut ast, ratio(19, 10));
    assert_eq!(marks_of(&ast)[0].1, Some(Tier::Low));
    assert_eq!(marks_of(&ast)[3].1, Some(Tier::Low));

    let mut parser = Parser::new("no_stemmer").unwrap().with_html(false).with_max_distance(3);
    let mut ast = parser.tokenize(text).unwrap();
    parser.detect_local(&mut ast, ratio(19, 10));
    assert!(marks_of(&ast).iter().all(|(_, m)| m.is_none()));
}

#[test]
fn local_tiers_grow_with_the_cluster() {
    let mut parser = Parser::new("no_stemmer").unwrap().with_html(false);
    // Threshold 2: a cluster of two is low, of three medium, of four high.
    let mut ast = parser.tokenize("a a b b b c c c c").unwrap();
    parser.detect_local(&mut ast, ratio(2, 1));
    let marks: Vec<Option<Tier>> = marks_of(&ast).into_iter().map(|(_, m)| m).collect();
    assert_eq!(
        marks,
        vec![
            Some(Tier::Low),
            Some(Tier::Low),
            Some(Tier::Medium),
            Some(Tier::Medium),
            Some(Tier::Medium),
            Some(Tier::High),
            Some(Tier::High),
            Some(Tier::High),
            Some(Tier::High),
        ]
    );
}

#[test]
fn local_resets_scores() {
    let mut parser = Parser::new("no_stemmer").unwrap().with_html(false);
    let mut ast = parser.tokenize("a a b").unwrap();
    parser.detect_local(&mut ast, ratio(19, 10));
    for w in &ast.words {
        if let Word::Followed(_, _, score, _) = w {
            assert_eq!(score.num, 0);
        }
    }
}
