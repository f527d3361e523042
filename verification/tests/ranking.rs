use wordcount::frequency::FrequencyMap;
use wordcount::reduce::reduce;

fn counts_of(pairs: &[(&str, usize)]) -> FrequencyMap {
    let mut m = FrequencyMap::new();
    for (word, n) in pairs {
        m.add(word.to_string(), *n);
    }
    m
}

fn entries(pairs: &[(&str, usize)]) -> Vec<(String, usize)> {
    pairs.iter().map(|(w, n)| (w.to_string(), *n)).collect()
}

#[test]
fn reduce_ranks_by_count() {
    let m = counts_of(&[("fox", 1), ("the", 3), ("quick", 2)]);
    assert_eq!(reduce(m, 2), entries(&[("the", 3), ("quick", 2)]));
}

#[test]
fn reduce_with_zero_is_empty() {
    let m = counts_of(&[("fox", 1), ("the", 3)]);
    assert_eq!(reduce(m, 0), entries(&[]));
}

#[test]
fn reduce_with_more_than_there_are_gives_all() {
    let m = counts_of(&[("fox", 1), ("the", 3), ("quick", 2)]);
    assert_eq!(reduce(m, 100), entries(&[("the", 3), ("quick", 2), ("fox", 1)]));
}

#[test]
fn reduce_with_exactly_as_many_as_there_are() {
    let m = counts_of(&[("fox", 1), ("the", 3), ("quick", 2)]);
    assert_eq!(reduce(m, 3), entries(&[("the", 3), ("quick", 2), ("fox", 1)]));
}

#[test]
fn reduce_of_an_empty_map_is_empty() {
    assert_eq!(reduce(FrequencyMap::new(), 5), entries(&[]));
    assert_eq!(reduce(FrequencyMap::new(), 0), entries(&[]));
}

#[test]
fn reduce_breaks_ties_by_the_order_of_the_words() {
    let m = counts_of(&[("pear", 2), ("apple", 2), ("fig", 2), ("kiwi", 5), ("app", 2)]);
    assert_eq!(
        reduce(m, 4),
        entries(&[("kiwi", 5), ("app", 2), ("apple", 2), ("fig", 2)])
    );
}

#[test]
fn reduce_orders_words_as_strings_are_ordered() {
    let words = ["b", "a", "", "ab", "B", "é", "z", "日本", "a\u{0}", "aa", "\u{10ffff}", "~"];
    let mut m = FrequencyMap::new();
    for w in words {
        m.add(w.to_string(), 1);
    }
    let mut expected: Vec<(String, usize)> = words.iter().map(|w| (w.to_string(), 1)).collect();
    expected.sort();
    assert_eq!(reduce(m, words.len()), expected);
}

#[test]
fn reduce_does_not_depend_on_the_order_of_counting() {
    let a = counts_of(&[("x", 1), ("y", 1), ("z", 2), ("w", 1)]);
    let b = counts_of(&[("w", 1), ("z", 1), ("y", 1), ("x", 1), ("z", 1)]);
    assert_eq!(reduce(a, 3), reduce(b, 3));
}

#[test]
fn reduce_of_its_own_result_changes_nothing() {
    let m = counts_of(&[("a", 4), ("b", 4), ("c", 9), ("d", 1), ("e", 2)]);
    let top = reduce(m, 3);
    assert_eq!(top, entries(&[("c", 9), ("a", 4), ("b", 4)]));
    let mut again = FrequencyMap::new();
    for (word, n) in top.iter() {
        again.add(word.clone(), *n);
    }
    assert_eq!(reduce(again, 3), top);
}

#[test]
fn reduce_lists_each_word_once() {
    let m = counts_of(&[("a", 1), ("b", 1), ("a", 1), ("c", 1), ("b", 1)]);
    let top = reduce(m, 10);
    assert_eq!(top, entries(&[("a", 2), ("b", 2), ("c", 1)]));
}

#[test]
fn reduce_sorts_many_words() {
    let mut m = FrequencyMap::new();
    let mut expected = Vec::new();
    for i in 0..200usize {
        let word = format!("w{:03}", (i * 37) % 200);
        let count = ((i * 37) % 200) / 10 + 1;
        m.add(word.clone(), count);
        expected.push((word, count));
    }
    expected.sort_by(|a, b| b.1.cmp(&a.1).then(a.0.cmp(&b.0)));
    assert_eq!(reduce(m, 200), expected);
}
