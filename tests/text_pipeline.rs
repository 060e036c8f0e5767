use intern::text::{is_punct, stem_word, tokenize};

#[test]
fn tokenize_splits_on_punctuation_and_space() {
    assert_eq!(tokenize("The quick, brown fox!"), vec!["The", "quick", "brown", "fox"]);
}

#[test]
fn tokenize_keeps_apostrophes() {
    assert_eq!(tokenize("don't stop-now"), vec!["don't", "stop", "now"]);
}

#[test]
fn tokenize_splits_on_unicode_space() {
    assert_eq!(tokenize("caf\u{e9}\u{a0}cr\u{e8}me"), vec!["caf\u{e9}", "cr\u{e8}me"]);
}

#[test]
fn tokenize_empty_and_only_punctuation() {
    assert!(tokenize("").is_empty());
    assert!(tokenize("  ,;!? \n\t").is_empty());
}

#[test]
fn punctuation_class_bounds() {
    assert!(is_punct('\u{0}'));
    assert!(is_punct('&'));
    assert!(!is_punct('\''));
    assert!(is_punct('/'));
    assert!(!is_punct('0'));
    assert!(is_punct('@'));
    assert!(!is_punct('Z'));
    assert!(is_punct('`'));
    assert!(!is_punct('z'));
    assert!(is_punct('\u{7f}'));
    assert!(!is_punct('\u{e9}'));
}

#[test]
fn stem_folds_accents() {
    assert_eq!(stem_word("caf\u{e9}"), stem_word("cafe"));
    assert_eq!(stem_word("cafe\u{301}"), stem_word("cafe"));
}

#[test]
fn stem_folds_case() {
    assert_eq!(stem_word("Running"), stem_word("running"));
    assert_eq!(stem_word("RUNNING"), "run");
}

#[test]
fn stem_applies_english_stemmer() {
    assert_eq!(stem_word("running"), "run");
    assert_eq!(stem_word("jumps"), "jump");
    assert_eq!(stem_word("quick"), "quick");
}

#[test]
fn stem_of_marks_only_is_empty() {
    assert_eq!(stem_word("\u{301}\u{302}"), "");
}

#[test]
fn stem_is_stable_on_its_own_output() {
    for w in ["running", "caresses", "generously", "The", "caf\u{e9}", "jumps"] {
        let s = stem_word(w);
        assert_eq!(stem_word(&s), s);
    }
}
