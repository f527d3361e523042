use wordcount::coordinator::Coordinator;
use wordcount::splitter::{normalize, Splitter};
use wordcount::text::tokenize;

fn strings(words: &[&str]) -> Vec<String> {
    words.iter().map(|w| w.to_string()).collect()
}

#[test]
fn normalize_puts_in_lower_case() {
    assert_eq!(normalize(b"The QUICK Fox"), "the quick fox");
    assert_eq!(normalize("ÄÖÜ Éa".as_bytes()), "äöü éa");
}

#[test]
fn normalize_replaces_invalid_bytes() {
    assert_eq!(normalize(&[b'H', 0xff, b'I']), "h\u{fffd}i");
    assert_eq!(normalize(&[0xe2, 0x82]), "\u{fffd}");
}

#[test]
fn normalize_of_nothing_is_empty() {
    assert_eq!(normalize(b""), "");
}

#[test]
fn splitter_holds_back_an_unfinished_word() {
    let mut s = Splitter::new();
    s.absorb("hello wor");
    s.absorb("ld again ");
    assert_eq!(s.finish(), strings(&["hello ", "world again "]));
}

#[test]
fn splitter_emits_the_leftover_at_the_end() {
    let mut s = Splitter::new();
    s.absorb("one two");
    assert_eq!(s.finish(), strings(&["one ", "two"]));
}

#[test]
fn splitter_block_that_ends_in_a_break_is_one_chunk() {
    let mut s = Splitter::new();
    s.absorb("one two\n");
    assert_eq!(s.finish(), strings(&["one two\n"]));
}

#[test]
fn splitter_block_without_a_break_emits_nothing_yet() {
    let mut s = Splitter::new();
    s.absorb("abc");
    s.absorb("def");
    s.absorb("ghi jk");
    assert_eq!(s.finish(), strings(&["abcdefghi ", "jk"]));
}

#[test]
fn splitter_without_text_has_no_chunk() {
    let s = Splitter::new();
    assert_eq!(s.finish(), Vec::<String>::new());
    let mut s = Splitter::new();
    s.absorb("");
    assert_eq!(s.finish(), Vec::<String>::new());
}

#[test]
fn splitter_cuts_only_at_ascii_whitespace() {
    let mut s = Splitter::new();
    s.absorb("a\u{a0}b c\u{a0}d");
    assert_eq!(s.finish(), strings(&["a\u{a0}b ", "c\u{a0}d"]));
}

#[test]
fn splitter_feed_normalizes_the_block() {
    let mut s = Splitter::new();
    s.feed(b"Hello Wor");
    s.feed(b"LD");
    assert_eq!(s.finish(), strings(&["hello ", "world"]));
}

#[test]
fn split_one_fold_of_text_that_ends_in_a_break() {
    let c = Coordinator { folds: 1 };
    assert_eq!(c.split(b"The quick fox\n"), strings(&["the quick fox\n"]));
}

#[test]
fn split_one_fold_of_a_single_word() {
    let c = Coordinator { folds: 1 };
    assert_eq!(c.split(b"Word"), strings(&["word"]));
}

#[test]
fn split_one_fold_cuts_behind_the_last_break() {
    let c = Coordinator { folds: 1 };
    assert_eq!(
        c.split(b"the quick fox the quick the"),
        strings(&["the quick fox the quick ", "the"])
    );
}

#[test]
fn split_of_nothing_has_no_chunk() {
    let c = Coordinator { folds: 4 };
    assert_eq!(c.split(b""), Vec::<String>::new());
}

#[test]
fn split_rounds_the_block_size_up() {
    let c = Coordinator { folds: 2 };
    assert_eq!(c.split(b"ab cd ef gh"), strings(&["ab cd ", "ef ", "gh"]));
}

#[test]
fn split_with_more_folds_than_bytes() {
    let c = Coordinator { folds: 10 };
    assert_eq!(c.split(b"a b"), strings(&["a ", "b"]));
}

#[test]
fn split_keeps_a_word_that_lies_across_blocks() {
    let c = Coordinator { folds: 3 };
    assert_eq!(
        c.split(b"aa bbbbbbbbbbbb cc"),
        strings(&["aa ", "bbbbbbbbbbbb ", "cc"])
    );
}

#[test]
fn split_loses_no_character() {
    let source = b"It was the best of times, it was the worst of times,\nit was the age of wisdom";
    for folds in 1..=source.len() + 2 {
        let chunks = Coordinator { folds }.split(source);
        assert_eq!(chunks.concat(), String::from_utf8_lossy(source).to_lowercase());
    }
}

#[test]
fn split_gives_at_most_one_chunk_more_than_folds() {
    let source = b"a bb ccc dddd eeeee ffffff ggggggg hhhhhhhh iiiiiiiii";
    for folds in 1..=source.len() + 2 {
        let chunks = Coordinator { folds }.split(source);
        assert!(chunks.len() >= 1);
        assert!(chunks.len() <= folds + 1);
    }
}

#[test]
fn split_cuts_at_breaks_only() {
    let source = b"a bb ccc dddd eeeee ffffff ggggggg hhhhhhhh iiiiiiiii";
    for folds in 1..=source.len() + 2 {
        let chunks = Coordinator { folds }.split(source);
        for (i, chunk) in chunks.iter().enumerate() {
            assert!(!chunk.is_empty());
            if i + 1 < chunks.len() {
                assert!(chunk.ends_with(' '));
            }
        }
    }
}

#[test]
fn split_splits_no_word() {
    let source = b"It was the best of times, it was the worst of times,\nit was the age of wisdom";
    let whole = tokenize(&String::from_utf8_lossy(source).to_lowercase());
    for folds in 1..=source.len() + 2 {
        let chunks = Coordinator { folds }.split(source);
        let mut words = Vec::new();
        for chunk in chunks.iter() {
            words.extend(tokenize(chunk));
        }
        assert_eq!(words, whole);
    }
}

#[test]
fn split_decodes_each_block_by_itself() {
    // "é" is two bytes; with two folds the cut falls between them.
    let c = Coordinator { folds: 2 };
    assert_eq!(c.split("aé".as_bytes().get(0..3).unwrap()), strings(&["a\u{fffd}\u{fffd}"]));
}

#[test]
fn coordinator_is_copy() {
    let c = Coordinator { folds: 3 };
    let d = c;
    assert_eq!(c.folds, 3);
    assert_eq!(d.folds, 3);
}
