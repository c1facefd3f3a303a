use caribon::highlight::global_colour;
use caribon::highlight::value_to_colour;
use caribon::Ast;
use caribon::Parser;
use caribon::Ratio;
use caribon::Tier;
use caribon::Word;

fn ratio(num: u64, den: u64) -> Ratio {
    Ratio::new(num, den).unwrap()
}

fn followed(text: &str, score: Ratio, mark: Option<Tier>) -> Word {
    Word::Followed(text.to_string(), text.to_string(), score, mark)
}

fn state(ast: &Ast) -> Vec<(u64, u64, Option<Tier>)> {
    ast.words
        .iter()
        .filter_map(|w| match w {
            Word::Followed(_, _, s, m) => Some((s.num, s.den, *m)),
            _ => None,
        })
        .collect()
}

fn sample() -> Ast {
    let mut ast = Ast::new();
    ast.words.push(followed("a", ratio(1, 1), None));
    ast.words.push(Word::Untracked(" ".to_string()));
    ast.words.push(followed("b", ratio(2, 1), None));
    ast.words.push(followed("c", ratio(3, 1), None));
    ast.words.push(followed("d", ratio(4, 1), None));
    ast.words.push(followed("e", ratio(9, 1), Some(Tier::Global)));
    ast.words.push(Word::Ignored("f".to_string()));
    ast
}

#[test]
fn value_to_colour_grades_on_three_tiers() {
    let t = ratio(2, 1);
    assert_eq!(value_to_colour(ratio(2, 1), t), Some(Tier::Low));
    assert_eq!(value_to_colour(ratio(29, 10), t), Some(Tier::Low));
    assert_eq!(value_to_colour(ratio(3, 1), t), Some(Tier::Medium));
    assert_eq!(value_to_colour(ratio(39, 10), t), Some(Tier::Medium));
    assert_eq!(value_to_colour(ratio(4, 1), t), Some(Tier::High));
    assert_eq!(value_to_colour(ratio(100, 1), t), Some(Tier::High));
    let t = ratio(19, 10);
    assert_eq!(value_to_colour(ratio(2, 1), t), Some(Tier::Low));
    assert_eq!(value_to_colour(ratio(3, 1), t), Some(Tier::Medium));
    assert_eq!(value_to_colour(ratio(4, 1), t), Some(Tier::High));
}

#[test]
fn value_to_colour_below_the_threshold_gives_no_mark() {
    assert_eq!(value_to_colour(ratio(1, 1), ratio(19, 10)), None);
    assert_eq!(value_to_colour(ratio(0, 1), ratio(1, 100)), None);
    assert_eq!(value_to_colour(ratio(189, 100), ratio(19, 10)), None);
    assert_eq!(value_to_colour(ratio(19, 10), ratio(19, 10)), Some(Tier::Low));
}

#[test]
fn highlight_with_a_grading_that_gives_no_mark() {
    let parser = Parser::new("english").unwrap();
    let mut ast = sample();
    parser.highlight(&mut ast, ratio(2, 1), |_, _| None);
    assert_eq!(
        state(&ast),
        vec![(0, 1, None), (0, 1, None), (0, 1, None), (0, 1, None), (0, 1, Some(Tier::Global))]
    );
}

#[test]
fn value_to_colour_with_large_numbers() {
    let big = u64::MAX;
    assert_eq!(value_to_colour(ratio(big, 1), ratio(big, 1)), Some(Tier::Low));
    assert_eq!(value_to_colour(ratio(big, 1), ratio(big / 2, 1)), Some(Tier::High));
    // u64::MAX is a multiple of 3, so this score is one and a half thresholds.
    assert_eq!(value_to_colour(ratio(big, 2), ratio(big / 3, 1)), Some(Tier::Medium));
    assert_eq!(value_to_colour(ratio(big, 2), ratio(big / 3 + 1, 1)), Some(Tier::Low));
}

#[test]
fn global_colour_is_one_mark() {
    assert_eq!(global_colour(ratio(1, 1), ratio(1, 2)), Some(Tier::Global));
    assert_eq!(global_colour(ratio(0, 1), ratio(5, 1)), Some(Tier::Global));
}

#[test]
fn highlight_marks_and_resets() {
    let parser = Parser::new("english").unwrap();
    let mut ast = sample();
    parser.highlight(&mut ast, ratio(2, 1), value_to_colour);
    assert_eq!(
        state(&ast),
        vec![
            (0, 1, None),
            (0, 1, Some(Tier::Low)),
            (0, 1, Some(Tier::Medium)),
            (0, 1, Some(Tier::High)),
            (0, 1, Some(Tier::Global)),
        ]
    );
    assert!(matches!(&ast.words[1], Word::Untracked(t) if t == " "));
    assert!(matches!(&ast.words[6], Word::Ignored(t) if t == "f"));
}

#[test]
fn highlight_twice_changes_nothing() {
    let parser = Parser::new("english").unwrap();
    let mut ast = sample();
    parser.highlight(&mut ast, ratio(2, 1), value_to_colour);
    let once = state(&ast);
    parser.highlight(&mut ast, ratio(2, 1), value_to_colour);
    assert_eq!(state(&ast), once);
}

#[test]
fn highlight_twice_with_threshold_zero() {
    let parser = Parser::new("english").unwrap();
    let mut ast = sample();
    parser.highlight(&mut ast, ratio(0, 1), |_, _| Some(Tier::Global));
    let once = state(&ast);
    assert!(once.iter().all(|(_, _, m)| m.is_some()));
    parser.highlight(&mut ast, ratio(0, 1), |_, _| Some(Tier::Low));
    assert_eq!(state(&ast), once);
}

#[test]
fn highlight_twice_differs_only_for_a_grading_without_marks_at_threshold_zero() {
    // At the threshold zero every score is graded. A grading that gives no
    // mark to some of them leaves words that a second pass grades anew.
    let parser = Parser::new("english").unwrap();
    let grade = |score: Ratio, _: Ratio| if score.num == 0 { Some(Tier::Low) } else { None };
    let mut ast = sample();
    parser.highlight(&mut ast, ratio(0, 1), grade);
    assert_eq!(
        state(&ast),
        vec![(0, 1, None), (0, 1, None), (0, 1, None), (0, 1, None), (0, 1, Some(Tier::Global))]
    );
    parser.highlight(&mut ast, ratio(0, 1), grade);
    assert_eq!(
        state(&ast),
        vec![
            (0, 1, Some(Tier::Low)),
            (0, 1, Some(Tier::Low)),
            (0, 1, Some(Tier::Low)),
            (0, 1, Some(Tier::Low)),
            (0, 1, Some(Tier::Global)),
        ]
    );
}

#[test]
fn highlight_keeps_to_the_body() {
    let parser = Parser::new("english").unwrap();
    let mut ast = sample();
    ast.begin_body = Some(1);
    ast.end_body = Some(4);
    parser.highlight(&mut ast, ratio(2, 1), value_to_colour);
    assert_eq!(
        state(&ast),
        vec![
            (1, 1, None),
            (0, 1, Some(Tier::Low)),
            (0, 1, Some(Tier::Medium)),
            (4, 1, None),
            (9, 1, Some(Tier::Global)),
        ]
    );
}

#[test]
fn ratio_comparisons() {
    assert!(Ratio::new(1, 0).is_none());
    let r = Ratio::new(3, 4).unwrap();
    assert_eq!((r.num, r.den), (3, 4));
    assert!(ratio(3, 4).at_least(&ratio(3, 4)));
    assert!(ratio(3, 4).at_least(&ratio(2, 3)));
    assert!(!ratio(2, 3).at_least(&ratio(3, 4)));
    assert!(ratio(5, 2).is_below_one_and_a_half(&ratio(2, 1)));
    assert!(!ratio(3, 1).is_below_one_and_a_half(&ratio(2, 1)));
    assert!(ratio(7, 2).is_below_twice(&ratio(2, 1)));
    assert!(!ratio(4, 1).is_below_twice(&ratio(2, 1)));
    assert_eq!((Ratio::whole(5).num, Ratio::whole(5).den), (5, 1));
    assert_eq!((Ratio::zero().num, Ratio::zero().den), (0, 1));
    assert_eq!(caribon::ratio::product(u64::MAX, u64::MAX), (u64::MAX as u128) * (u64::MAX as u128));
}
