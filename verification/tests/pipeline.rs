use wordcount::coordinator::Coordinator;
use wordcount::frequency::FrequencyMap;
use wordcount::pipeline::{run, Collector, Delivery, PipelineError, Warning};

fn counts_of(pairs: &[(&str, usize)]) -> FrequencyMap {
    let mut m = FrequencyMap::new();
    for (word, n) in pairs {
        m.add(word.to_string(), *n);
    }
    m
}

fn entries(pairs: &[(&str, usize)]) -> Vec<(String, usize)> {
    pairs.iter().map(|(w, n)| (w.to_string(), *n)).collect()
}

#[test]
fn run_end_to_end_one_fold() {
    assert_eq!(
        run(b"the quick fox the quick the", 1, 2),
        Ok(entries(&[("the", 3), ("quick", 2)]))
    );
}

#[test]
fn run_counts_a_word_across_blocks_once() {
    assert_eq!(
        run(b"aa bbbbbbbbbbbb cc", 3, 10),
        Ok(entries(&[("aa", 1), ("bbbbbbbbbbbb", 1), ("cc", 1)]))
    );
}

#[test]
fn run_gives_the_same_for_any_number_of_folds() {
    let source = b"to be or not to be that is the question to be";
    let expected = entries(&[("be", 3), ("to", 3), ("is", 1), ("not", 1)]);
    for folds in 1..=source.len() + 1 {
        assert_eq!(run(source, folds, 4), Ok(expected.clone()));
    }
}

#[test]
fn run_puts_words_in_lower_case() {
    assert_eq!(run(b"The THE the Fox", 2, 5), Ok(entries(&[("the", 3), ("fox", 1)])));
}

#[test]
fn run_on_nothing_gives_nothing() {
    assert_eq!(run(b"", 3, 5), Ok(entries(&[])));
    assert_eq!(run(b" \n ", 3, 5), Ok(entries(&[])));
}

#[test]
fn run_with_zero_gives_nothing() {
    assert_eq!(run(b"a b c", 2, 0), Ok(entries(&[])));
}

#[test]
fn run_never_fails_on_malformed_input() {
    assert_eq!(
        run(&[b'a', b' ', 0xff, b' ', b'a'], 1, 5),
        Ok(entries(&[("a", 2), ("\u{fffd}", 1)]))
    );
}

#[test]
fn pipeline_error_is_comparable() {
    assert_eq!(PipelineError::CountOverflow, PipelineError::CountOverflow);
    assert_eq!(format!("{:?}", PipelineError::CountOverflow), "CountOverflow");
}

#[test]
fn collector_merges_what_arrives() {
    let mut c = Collector::new(Coordinator { folds: 2 }, 2);
    assert!(!c.is_done());
    assert_eq!(c.record(Delivery::Arrived(counts_of(&[("a", 1), ("b", 2)]))), None);
    assert!(!c.is_done());
    assert_eq!(c.record(Delivery::Arrived(counts_of(&[("b", 1)]))), None);
    assert!(c.is_done());
    assert_eq!(c.counts().count("b"), 3);
    assert_eq!(c.finish(5), entries(&[("b", 3), ("a", 1)]));
}

#[test]
fn collector_goes_on_after_a_timeout() {
    let mut c = Collector::new(Coordinator { folds: 3 }, 3);
    assert_eq!(c.record(Delivery::Arrived(counts_of(&[("a", 1)]))), None);
    assert_eq!(c.record(Delivery::TimedOut), Some(Warning::TimedOut));
    assert_eq!(c.record(Delivery::Arrived(counts_of(&[("a", 1), ("c", 1)]))), None);
    assert!(c.is_done());
    assert_eq!(c.finish(5), entries(&[("a", 2), ("c", 1)]));
}

#[test]
fn collector_goes_on_after_a_failed_worker() {
    let mut c = Collector::new(Coordinator { folds: 2 }, 2);
    assert_eq!(c.record(Delivery::Failed), Some(Warning::WorkerFailed));
    assert_eq!(c.record(Delivery::Arrived(counts_of(&[("a", 4)]))), None);
    assert!(c.is_done());
    assert_eq!(c.finish(5), entries(&[("a", 4)]));
}

#[test]
fn collector_drops_counts_that_do_not_fit() {
    let mut c = Collector::new(Coordinator { folds: 3 }, 3);
    assert_eq!(c.record(Delivery::Arrived(counts_of(&[("a", usize::MAX), ("b", 1)]))), None);
    assert_eq!(
        c.record(Delivery::Arrived(counts_of(&[("a", 1), ("b", 1)]))),
        Some(Warning::CountOverflow)
    );
    assert_eq!(c.record(Delivery::Arrived(counts_of(&[("b", 1)]))), None);
    assert_eq!(c.finish(5), entries(&[("a", usize::MAX), ("b", 2)]));
}

#[test]
fn collector_without_attempts_is_done() {
    let c = Collector::new(Coordinator { folds: 1 }, 0);
    assert!(c.is_done());
    assert_eq!(c.finish(5), entries(&[]));
}

#[test]
fn collector_with_all_timeouts_gives_an_empty_result() {
    let mut c = Collector::new(Coordinator { folds: 2 }, 2);
    assert_eq!(c.record(Delivery::TimedOut), Some(Warning::TimedOut));
    assert_eq!(c.record(Delivery::TimedOut), Some(Warning::TimedOut));
    assert!(c.is_done());
    assert_eq!(c.finish(5), entries(&[]));
}

#[test]
fn a_lost_chunk_leaves_the_others_counted() {
    let coordinator = Coordinator { folds: 3 };
    let chunks = coordinator.split(b"aa bbbbbbbbbbbb cc");
    assert_eq!(chunks.len(), 3);
    let mut c = Collector::new(coordinator, chunks.len());
    for (i, chunk) in chunks.into_iter().enumerate() {
        let delivery = if i == 1 {
            Delivery::TimedOut
        } else {
            Delivery::Arrived(wordcount::map::map(chunk))
        };
        c.record(delivery);
    }
    assert!(c.is_done());
    assert_eq!(c.finish(10), entries(&[("aa", 1), ("cc", 1)]));
}
