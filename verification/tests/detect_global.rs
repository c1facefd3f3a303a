use caribon::Ast;
use caribon::Parser;
use caribon::Ratio;
use caribon::Tier;
use caribon::Word;

fn marks(ast: &Ast) -> Vec<Option<Tier>> {
    ast.words
        .iter()
        .filter_map(|w| match w {
            Word::Followed(_, _, _, m) => Some(*m),
            _ => None,
        })
        .collect()
}

fn ratio(num: u64, den: u64) -> Ratio {
    Ratio::new(num, den).unwrap()
}

#[test]
fn detect_global_marks_frequent_word() {
    let mut parser = Parser::new("english").unwrap().with_html(false);
    let mut ast = parser.tokenize("cat dog cat bird cat").unwrap();
    parser.detect_global(&mut ast, ratio(1, 2));
    assert_eq!(
        marks(&ast),
        vec![Some(Tier::Global), None, Some(Tier::Global), None, Some(Tier::Global)]
    );
}

#[test]
fn global_threshold_of_a_half_on_three_words() {
    // 1 / 0.5 = 2 is less than 3, so the document is long enough; each word
    // makes up a third of it, which is below the half.
    let mut parser = Parser::new("no_stemmer").unwrap().with_html(false);
    let mut ast = parser.tokenize("one two three").unwrap();
    parser.detect_global(&mut ast, ratio(1, 2));
    assert_eq!(marks(&ast), vec![None, None, None]);
}

#[test]
fn global_guard_at_the_boundary() {
    // 1 / 0.5 = 2 words: too short, though the word makes up all of it.
    let mut parser = Parser::new("no_stemmer").unwrap().with_html(false);
    let mut ast = parser.tokenize("cat cat").unwrap();
    parser.detect_global(&mut ast, ratio(1, 2));
    assert_eq!(marks(&ast), vec![None, None]);
    // With three words the guard lets the detector work.
    let mut ast = parser.tokenize("cat cat cat").unwrap();
    parser.detect_global(&mut ast, ratio(1, 2));
    assert_eq!(marks(&ast), vec![Some(Tier::Global); 3]);
}

#[test]
fn global_guard_leaves_the_scores() {
    let mut parser = Parser::new("no_stemmer").unwrap().with_html(false);
    let mut ast = parser.tokenize("cat cat").unwrap();
    ast.words[0].set_count(Ratio::whole(7));
    parser.detect_global(&mut ast, ratio(1, 2));
    assert!(matches!(&ast.words[0], Word::Followed(_, _, score, None) if score.num == 7));
}

#[test]
fn global_threshold_zero_marks_nothing() {
    let mut parser = Parser::new("no_stemmer").unwrap().with_html(false);
    let mut ast = parser.tokenize("cat cat cat").unwrap();
    parser.detect_global(&mut ast, ratio(0, 1));
    assert_eq!(marks(&ast), vec![None, None, None]);
}

#[test]
fn global_counts_ignored_words_in_the_total() {
    // "the" is ignored: 4 words, "cat" makes up 2 of 4.
    let mut parser = Parser::new("english").unwrap().with_html(false);
    let mut ast = parser.tokenize("the cat the cat").unwrap();
    parser.detect_global(&mut ast, ratio(1, 2));
    assert_eq!(marks(&ast), vec![Some(Tier::Global), Some(Tier::Global)]);
    let mut ast = parser.tokenize("the cat the cat").unwrap();
    parser.detect_global(&mut ast, ratio(51, 100));
    assert_eq!(marks(&ast), vec![None, None]);
}

#[test]
fn global_does_not_overwrite_local_marks() {
    // In a window of two words "dog dog" is a local repetition, "cat" is not.
    let mut parser = Parser::new("no_stemmer").unwrap().with_html(false).with_max_distance(2);
    let mut ast = parser.tokenize("dog dog cat x y z cat").unwrap();
    parser.detect_local(&mut ast, ratio(19, 10));
    assert_eq!(
        marks(&ast),
        vec![Some(Tier::Low), Some(Tier::Low), None, None, None, None, None]
    );
    // Both stems make up two words of seven, over a quarter.
    parser.detect_global(&mut ast, ratio(1, 4));
    assert_eq!(
        marks(&ast),
        vec![
            Some(Tier::Low),
            Some(Tier::Low),
            Some(Tier::Global),
            None,
            None,
            None,
            Some(Tier::Global),
        ]
    );
}

#[test]
fn global_never_marks_a_word_that_occurs_once() {
    // A threshold that one word of six reaches makes the document too short.
    let mut parser = Parser::new("no_stemmer").unwrap().with_html(false);
    let mut ast = parser.tokenize("cat cat dog bird cat fish").unwrap();
    parser.detect_global(&mut ast, ratio(1, 10));
    assert_eq!(marks(&ast), vec![None; 6]);
    parser.detect_global(&mut ast, ratio(1, 6));
    assert_eq!(marks(&ast), vec![None; 6]);
    // Just above a sixth, only "cat" is marked.
    parser.detect_global(&mut ast, ratio(17, 100));
    assert_eq!(
        marks(&ast),
        vec![Some(Tier::Global), Some(Tier::Global), None, None, Some(Tier::Global), None]
    );
}

#[test]
fn global_resets_scores() {
    let mut parser = Parser::new("no_stemmer").unwrap().with_html(false);
    let mut ast = parser.tokenize("a b a c").unwrap();
    parser.detect_global(&mut ast, ratio(1, 3));
    for w in &ast.words {
        if let Word::Followed(_, _, score, _) = w {
            assert_eq!((score.num, score.den), (0, 1));
        }
    }
}

#[test]
fn global_keeps_to_the_body() {
    let mut parser = Parser::new("no_stemmer").unwrap();
    let mut ast = parser.tokenize("dog dog dog<body>cat cat dog bird</body>").unwrap();
    parser.detect_global(&mut ast, ratio(2, 5));
    assert_eq!(
        marks(&ast),
        vec![None, None, None, Some(Tier::Global), Some(Tier::Global), None, None]
    );
}

#[test]
fn words_stats_counts_stems() {
    let mut parser = Parser::new("english").unwrap().with_html(false);
    let ast = parser.tokenize("The cats chase a cat; dogs chased the cats.").unwrap();
    let (stats, count) = parser.words_stats(&ast);
    assert_eq!(count, 9);
    assert_eq!(
        stats,
        vec![("cat".to_string(), 3), ("chase".to_string(), 2), ("dog".to_string(), 1)]
    );
}

#[test]
fn words_stats_of_an_empty_document() {
    let mut parser = Parser::new("english").unwrap();
    let ast = parser.tokenize("").unwrap();
    let (stats, count) = parser.words_stats(&ast);
    assert!(stats.is_empty());
    assert_eq!(count, 0);
}
