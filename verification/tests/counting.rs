use wordcount::coordinator::Coordinator;
use wordcount::frequency::FrequencyMap;

fn counts_of(pairs: &[(&str, usize)]) -> FrequencyMap {
    let mut m = FrequencyMap::new();
    for (word, n) in pairs {
        m.add(word.to_string(), *n);
    }
    m
}

fn sorted_entries(m: &FrequencyMap) -> Vec<(String, usize)> {
    let mut entries = m.entries().clone();
    entries.sort();
    entries
}

#[test]
fn new_map_is_empty() {
    let m = FrequencyMap::new();
    assert!(m.is_empty());
    assert_eq!(m.len(), 0);
    assert_eq!(m.count("the"), 0);
    assert!(m.entries().is_empty());
}

#[test]
fn add_counts_occurrences() {
    let mut m = FrequencyMap::new();
    m.add("the".to_string(), 2);
    m.add("fox".to_string(), 1);
    m.add("the".to_string(), 3);
    assert_eq!(m.count("the"), 5);
    assert_eq!(m.count("fox"), 1);
    assert_eq!(m.count("dog"), 0);
    assert_eq!(m.len(), 2);
    assert!(!m.is_empty());
}

#[test]
fn add_of_nothing_changes_nothing() {
    let mut m = FrequencyMap::new();
    m.add("the".to_string(), 0);
    assert!(m.is_empty());
    assert_eq!(m.len(), 0);
    assert_eq!(m.count("the"), 0);
}

#[test]
fn entries_list_each_word_once() {
    let m = counts_of(&[("b", 2), ("a", 1), ("b", 1), ("c", 7)]);
    assert_eq!(
        sorted_entries(&m),
        vec![("a".to_string(), 1), ("b".to_string(), 3), ("c".to_string(), 7)]
    );
    let mut owned = m.into_entries();
    owned.sort();
    assert_eq!(
        owned,
        vec![("a".to_string(), 1), ("b".to_string(), 3), ("c".to_string(), 7)]
    );
}

#[test]
fn fits_tells_whether_counts_can_be_merged() {
    let big = counts_of(&[("a", usize::MAX - 1), ("b", 5)]);
    assert!(big.fits(&counts_of(&[("a", 1), ("b", 1), ("c", usize::MAX)])));
    assert!(!big.fits(&counts_of(&[("a", 2)])));
    assert!(!counts_of(&[("a", 2)]).fits(&big));
    assert!(big.fits(&FrequencyMap::new()));
}

#[test]
fn map_counts_the_words_of_a_chunk() {
    let m = wordcount::map::map("the quick fox the quick the".to_string());
    assert_eq!(m.count("the"), 3);
    assert_eq!(m.count("quick"), 2);
    assert_eq!(m.count("fox"), 1);
    assert_eq!(m.count("dog"), 0);
    assert_eq!(m.len(), 3);
}

#[test]
fn map_of_an_empty_chunk_is_empty() {
    assert!(wordcount::map::map(String::new()).is_empty());
    assert!(wordcount::map::map("  \n\t ".to_string()).is_empty());
}

#[test]
fn map_takes_words_as_they_stand() {
    let m = wordcount::map::map("The the THE the, the".to_string());
    assert_eq!(m.count("the"), 2);
    assert_eq!(m.count("The"), 1);
    assert_eq!(m.count("THE"), 1);
    assert_eq!(m.count("the,"), 1);
    assert_eq!(m.len(), 4);
}

#[test]
fn map_separates_words_at_any_whitespace() {
    let m = wordcount::map::map("a\tb\na\u{a0}b\r\na".to_string());
    assert_eq!(m.count("a"), 3);
    assert_eq!(m.count("b"), 2);
    assert_eq!(m.len(), 2);
}

#[test]
fn shuffle_adds_the_counts() {
    let c = Coordinator { folds: 2 };
    let mut main = counts_of(&[("the", 2), ("fox", 1)]);
    c.shuffle(&mut main, counts_of(&[("the", 1), ("dog", 4)]));
    assert_eq!(
        sorted_entries(&main),
        vec![("dog".to_string(), 4), ("fox".to_string(), 1), ("the".to_string(), 3)]
    );
}

#[test]
fn shuffle_of_an_empty_map_changes_nothing() {
    let c = Coordinator { folds: 2 };
    let mut main = counts_of(&[("the", 2)]);
    c.shuffle(&mut main, FrequencyMap::new());
    assert_eq!(sorted_entries(&main), vec![("the".to_string(), 2)]);
    let mut empty = FrequencyMap::new();
    c.shuffle(&mut empty, counts_of(&[("the", 2)]));
    assert_eq!(sorted_entries(&empty), vec![("the".to_string(), 2)]);
}

#[test]
fn shuffle_up_to_the_largest_count() {
    let c = Coordinator { folds: 1 };
    let mut main = counts_of(&[("a", usize::MAX - 1)]);
    let more = counts_of(&[("a", 1)]);
    assert!(main.fits(&more));
    c.shuffle(&mut main, more);
    assert_eq!(main.count("a"), usize::MAX);
}

#[test]
fn shuffle_in_any_order_gives_the_same() {
    let parts: [&[(&str, usize)]; 3] = [
        &[("a", 1), ("b", 2)],
        &[("b", 3), ("c", 4)],
        &[("a", 5), ("c", 6), ("d", 7)],
    ];
    let orders = [[0, 1, 2], [0, 2, 1], [1, 0, 2], [1, 2, 0], [2, 0, 1], [2, 1, 0]];
    let expected = vec![
        ("a".to_string(), 6),
        ("b".to_string(), 5),
        ("c".to_string(), 10),
        ("d".to_string(), 7),
    ];
    let c = Coordinator { folds: 3 };
    for order in orders {
        let mut main = FrequencyMap::new();
        for i in order {
            c.shuffle(&mut main, counts_of(parts[i]));
        }
        assert_eq!(sorted_entries(&main), expected);
    }
}

#[test]
fn merged_chunk_counts_are_the_counts_of_the_text() {
    let source = b"to be or not to be that is the question to be";
    let whole = wordcount::map::map(String::from_utf8_lossy(source).to_string());
    for folds in 1..=source.len() {
        let c = Coordinator { folds };
        let mut main = FrequencyMap::new();
        for chunk in c.split(source) {
            c.shuffle(&mut main, wordcount::map::map(chunk));
        }
        assert_eq!(sorted_entries(&main), sorted_entries(&whole));
    }
}
