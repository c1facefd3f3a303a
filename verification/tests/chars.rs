use caribon::chars::chars_of;
use caribon::chars::has_char;
use caribon::chars::lowercase_string;
use caribon::chars::same_text;
use caribon::chars::string_of;
use caribon::stem::has_nul;

#[test]
fn chars_of_a_text() {
    assert_eq!(chars_of("aé€"), vec!['a', 'é', '€']);
    assert!(chars_of("").is_empty());
}

#[test]
fn string_of_a_range() {
    let v = chars_of("hello world");
    assert_eq!(string_of(&v, 6, 11), "world");
    assert_eq!(string_of(&v, 3, 3), "");
    assert_eq!(string_of(&v, 0, 11), "hello world");
}

#[test]
fn lowercase_of_a_range() {
    let v = chars_of("Hello ÉTÉ İ");
    assert_eq!(lowercase_string(&v, 0, 5), "hello");
    assert_eq!(lowercase_string(&v, 6, 9), "été");
    // One character may become two.
    assert_eq!(lowercase_string(&v, 10, 11), "i\u{307}");
}

#[test]
fn has_char_finds_a_character() {
    let v = chars_of("a.b");
    assert!(has_char(&v, '.'));
    assert!(!has_char(&v, ','));
    assert!(has_nul("a\0b"));
    assert!(!has_nul("ab"));
}

#[test]
fn same_text_compares_the_texts() {
    assert!(same_text("head", "head"));
    assert!(!same_text("head", "Head"));
    assert!(!same_text("head", "header"));
}
