use wordcount::text::{is_break_char, is_space_char, tokenize};

fn strings(words: &[&str]) -> Vec<String> {
    words.iter().map(|w| w.to_string()).collect()
}

#[test]
fn tokenize_splits_on_spaces() {
    assert_eq!(tokenize("the quick fox"), strings(&["the", "quick", "fox"]));
}

#[test]
fn tokenize_discards_empty_tokens() {
    assert_eq!(tokenize("  a \t\n b   "), strings(&["a", "b"]));
}

#[test]
fn tokenize_of_nothing_is_nothing() {
    assert_eq!(tokenize(""), Vec::<String>::new());
    assert_eq!(tokenize(" \n\t "), Vec::<String>::new());
}

#[test]
fn tokenize_single_word() {
    assert_eq!(tokenize("word"), strings(&["word"]));
}

#[test]
fn tokenize_keeps_case_and_punctuation() {
    assert_eq!(tokenize("The the, THE"), strings(&["The", "the,", "THE"]));
}

#[test]
fn tokenize_splits_on_unicode_whitespace() {
    assert_eq!(tokenize("a\u{a0}b\u{2003}c\u{3000}d"), strings(&["a", "b", "c", "d"]));
}

#[test]
fn tokenize_keeps_characters_beyond_ascii() {
    assert_eq!(tokenize("über naïve 日本語"), strings(&["über", "naïve", "日本語"]));
}

#[test]
fn tokenize_agrees_with_split_whitespace() {
    let text = " one\ttwo\r\nthree\u{85}four\u{1680}five\u{2028}six\u{202f}seven\u{205f}eight ";
    let expected: Vec<String> = text.split_whitespace().map(|w| w.to_string()).collect();
    assert_eq!(tokenize(text), expected);
    assert_eq!(expected.len(), 8);
}

#[test]
fn space_is_the_unicode_white_space() {
    for code in 0u32..0x3100 {
        if let Some(c) = char::from_u32(code) {
            assert_eq!(is_space_char(c), c.is_whitespace(), "U+{:04X}", code);
        }
    }
    assert!(!is_space_char('\u{200b}'));
    assert!(!is_space_char('a'));
}

#[test]
fn break_is_the_ascii_whitespace() {
    for code in 0u32..0x3100 {
        if let Some(c) = char::from_u32(code) {
            assert_eq!(is_break_char(c), c.is_ascii_whitespace(), "U+{:04X}", code);
        }
    }
    assert!(is_break_char(' '));
    assert!(is_break_char('\n'));
    assert!(!is_break_char('\u{a0}'));
    assert!(!is_break_char('\u{0b}'));
}

#[test]
fn every_break_is_a_space() {
    for c in [' ', '\t', '\n', '\x0c', '\r'] {
        assert!(is_break_char(c));
        assert!(is_space_char(c));
    }
}
