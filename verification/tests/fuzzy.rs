use caribon::fuzzy::find_key;
use caribon::fuzzy::fuzzy_get;
use caribon::fuzzy::is_within_budget;
use caribon::Parser;
use caribon::Ratio;

fn ratio(num: u64, den: u64) -> Ratio {
    Ratio::new(num, den).unwrap()
}

fn keys(list: &[&str]) -> Vec<String> {
    list.iter().map(|s| s.to_string()).collect()
}

#[test]
fn fuzzy_off_gives_the_stem() {
    assert_eq!(fuzzy_get(&keys(&["trust"]), "rust", None), "rust");
}

#[test]
fn fuzzy_finds_a_key_at_distance_one() {
    assert_eq!(fuzzy_get(&keys(&["trust"]), "rust", Some(ratio(1, 4))), "trust");
}

#[test]
fn fuzzy_short_stem_stays() {
    assert_eq!(fuzzy_get(&keys(&["ab", "b"]), "a", Some(ratio(1, 1))), "a");
}

#[test]
fn fuzzy_exact_key_wins() {
    assert_eq!(fuzzy_get(&keys(&["trust", "rust"]), "rust", Some(ratio(1, 4))), "rust");
}

#[test]
fn fuzzy_skips_short_keys() {
    // "r" is at distance 1 of "ru" but has less than two characters.
    assert_eq!(fuzzy_get(&keys(&["r"]), "ru", Some(ratio(1, 1))), "ru");
}

#[test]
fn fuzzy_budget_limits_the_distance() {
    // The budget of "house" is 0.25 * 5 = 1.25: one change, not two.
    assert_eq!(fuzzy_get(&keys(&["mouse"]), "house", Some(ratio(1, 4))), "mouse");
    assert_eq!(fuzzy_get(&keys(&["moose"]), "house", Some(ratio(1, 4))), "house");
    assert_eq!(fuzzy_get(&keys(&["moose"]), "house", Some(ratio(2, 5))), "moose");
}

#[test]
fn fuzzy_budget_limits_the_lengths() {
    // "abcdefgh" against "abcdefghij": the lengths differ by 2, over 0.2 * 8.
    assert_eq!(
        fuzzy_get(&keys(&["abcdefghij"]), "abcdefgh", Some(ratio(1, 5))),
        "abcdefgh"
    );
    assert_eq!(
        fuzzy_get(&keys(&["abcdefghij"]), "abcdefgh", Some(ratio(1, 4))),
        "abcdefghij"
    );
}

#[test]
fn fuzzy_takes_the_closest_key() {
    let dictionary = keys(&["abcdxy", "abcdex", "zzzzzz"]);
    assert_eq!(fuzzy_get(&dictionary, "abcdef", Some(ratio(1, 2))), "abcdex");
}

#[test]
fn fuzzy_first_of_two_keys_as_close() {
    let dictionary = keys(&["abcdxy", "abcdyx"]);
    assert_eq!(fuzzy_get(&dictionary, "abcdef", Some(ratio(1, 2))), "abcdxy");
    let dictionary = keys(&["abcdyx", "abcdxy"]);
    assert_eq!(fuzzy_get(&dictionary, "abcdef", Some(ratio(1, 2))), "abcdyx");
}

#[test]
fn fuzzy_stops_at_distance_one() {
    let dictionary = keys(&["abcdex", "abcdey"]);
    assert_eq!(fuzzy_get(&dictionary, "abcdef", Some(ratio(1, 2))), "abcdex");
}

#[test]
fn fuzzy_counts_characters() {
    // Two characters, though more bytes: "éé" can be matched.
    assert_eq!(fuzzy_get(&keys(&["éa"]), "éé", Some(ratio(1, 2))), "éa");
}

#[test]
fn fuzzy_budget_zero_matches_nothing() {
    assert_eq!(fuzzy_get(&keys(&["trust"]), "trusts", Some(ratio(0, 1))), "trusts");
}

#[test]
fn fuzzy_empty_dictionary() {
    assert_eq!(fuzzy_get(&keys(&[]), "rust", Some(ratio(1, 4))), "rust");
}

#[test]
fn parser_fuzzy_get_goes_by_its_settings() {
    let parser = Parser::new("english").unwrap();
    assert_eq!(parser.fuzzy_get(&keys(&["trust"]), "rust"), "rust");
    let parser = parser.with_fuzzy(Some(ratio(1, 4)));
    assert_eq!(parser.fuzzy_get(&keys(&["trust"]), "rust"), "trust");
}

#[test]
fn find_key_gives_the_first_index() {
    let dictionary = keys(&["a", "b", "a"]);
    assert_eq!(find_key(&dictionary, "a"), Some(0));
    assert_eq!(find_key(&dictionary, "b"), Some(1));
    assert_eq!(find_key(&dictionary, "c"), None);
}

#[test]
fn within_budget_is_exact() {
    let quarter = ratio(1, 4);
    assert!(is_within_budget(1, 4, &quarter));
    assert!(!is_within_budget(2, 7, &quarter));
    assert!(is_within_budget(2, 8, &quarter));
    assert!(is_within_budget(0, 0, &quarter));
}
