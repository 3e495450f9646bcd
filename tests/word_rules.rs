use vocab::{Str, Voc, Word};

#[test]
fn store_test() {
    let store = Voc::store();
    for rank in Word::min()..Word::max() {
        assert_eq!(store.get(&rank), Some(&vec![]));
    }
}

#[test]
fn get_word_test() {
    let max_letter = "a".repeat(Word::max() + 1);
    let min_letter = "a".repeat(Word::min() - 1);
    assert!(Str::get_word(&max_letter).is_none());
    assert!(Str::get_word(&min_letter).is_none());
    assert_eq!(Str::get_word("hello"), Some("hello"));
}

#[test]
fn is_plural_test() {
    assert!(!Str::is_plural("es"));
    assert!(!Str::is_plural("discuss"));
    assert!(Str::is_plural("houses"));
}

#[test]
fn is_ed_test() {
    assert!(Str::is_ed("worked"));
    assert!(!Str::is_ed("ed"));
}

#[test]
fn is_ing_test() {
    assert!(Str::is_ing("working"));
    assert!(!Str::is_ing("worknng"));
    assert!(!Str::is_ing(""));
}

#[test]
fn valid_english_test() {
    assert!(Str::valid_english("z"));
    assert!(Str::valid_english("ab"));
    assert!(!Str::valid_english(""));
}

#[test]
fn rm_start_end_test() {
    assert_eq!(Str::rm_start_end("  "), "");
    assert_eq!(Str::rm_start_end(" hello "), "hello");
    assert_eq!(Str::rm_start_end("1/#*hello1/#*"), "hello");
}

#[test]
fn rm_start_test() {
    assert_eq!(Str::rm_start("  "), "");
    assert_eq!(Str::rm_start(" hello"), "hello");
    assert_eq!(Str::rm_start("1/#*hello"), "hello");
}

#[test]
fn rm_end_test() {
    assert_eq!(Str::rm_end("  "), "");
    assert_eq!(Str::rm_end("hello "), "hello");
    assert_eq!(Str::rm_end("hello1/#*"), "hello");
}
