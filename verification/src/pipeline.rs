//! The pipeline: split, map, merge, reduce.
//!
//! Workers count the chunks at the same time, and their results arrive in any
//! order or not at all. What is done with them is decided here: a
//! [`Collector`] takes one [`Delivery`] after the other and says what to warn
//! of. [`run`] is the whole pipeline on one thread, where nothing is lost.

use crate::coordinator::{lemma_split_source, source_text, split_source, Coordinator};
use crate::frequency::{can_merge, lemma_lists_fit, merged, FrequencyMap};
use crate::reduce::{is_top, reduce};
use crate::text::words;
use vstd::multiset::Multiset;
use vstd::prelude::*;

verus! {

broadcast use {vstd::multiset::group_multiset_axioms, vstd::seq_lib::group_to_multiset_ensures};

/// What one attempt to collect a worker's result has brought.
pub enum Delivery {
    /// The counts of one chunk.
    Arrived(FrequencyMap),
    /// Nothing, within the time allowed.
    TimedOut,
    /// The news that a worker has failed.
    Failed,
}

/// Why the counts of a chunk are missing from the result.
#[derive(Clone, Copy, Debug, PartialEq, Eq, Structural)]
pub enum Warning {
    /// No result arrived within the time allowed.
    TimedOut,
    /// A worker failed.
    WorkerFailed,
    /// The counts arrived, but a sum of counts would not fit a `usize`.
    CountOverflow,
}

/// Why a run has no result.
#[derive(Clone, Copy, Debug, PartialEq, Eq, Structural)]
pub enum PipelineError {
    /// A word occurs more often than a `usize` can say.
    CountOverflow,
}

/// Whether every count of the multiset fits a `usize`.
pub open spec fn countable(bag: Multiset<Seq<char>>) -> bool {
    forall|w: Seq<char>| bag.count(w) <= usize::MAX
}

/// The counts of each chunk by itself.
pub open spec fn chunk_counts(chunks: Seq<Seq<char>>) -> Seq<Multiset<Seq<char>>> {
    chunks.map_values(|c: Seq<char>| words(c).to_multiset())
}

/// The words of the input with their numbers of occurrences.
pub open spec fn source_counts(source: Seq<u8>, folds: nat) -> Multiset<Seq<char>> {
    words(source_text(source, folds)).to_multiset()
}

/// The counts of the chunks, merged, are the counts of the words of all the
/// chunks, chunk after chunk.
pub proof fn lemma_chunk_counts(chunks: Seq<Seq<char>>)
    ensures
        merged(chunk_counts(chunks)) == chunks.map_values(
            |c: Seq<char>| words(c),
        ).flatten().to_multiset(),
    decreases chunks.len(),
{
    let per_chunk = chunks.map_values(|c: Seq<char>| words(c));
    if chunks.len() == 0 {
        assert(per_chunk.flatten() =~= Seq::<Seq<char>>::empty());
    } else {
        let init = chunks.drop_last();
        let last = chunks.last();
        lemma_chunk_counts(init);
        let init_words = init.map_values(|c: Seq<char>| words(c));
        assert(per_chunk == init_words.push(words(last)));
        init_words.lemma_flatten_push(words(last));
        vstd::seq_lib::lemma_multiset_commutative(init_words.flatten(), words(last));
        assert(chunk_counts(chunks).drop_last() == chunk_counts(init));
        assert(chunk_counts(chunks).last() == words(last).to_multiset());
    }
}

/// Counting the chunks one by one and merging the counts gives the counts of
/// the words of the input: every occurrence of a word is counted, and counted
/// once, wherever the input was cut.
pub proof fn lemma_counts_of_chunks(source: Seq<u8>, folds: nat)
    requires
        folds >= 1,
    ensures
        merged(chunk_counts(split_source(source, folds))) == source_counts(source, folds),
{
    lemma_split_source(source, folds);
    lemma_chunk_counts(split_source(source, folds));
}

/// Gathers the counts of the chunks as they arrive.
pub struct Collector {
    coordinator: Coordinator,
    counts: FrequencyMap,
    pending: usize,
}

impl Collector {
    /// The counts merged so far.
    pub closed spec fn aggregate(&self) -> Multiset<Seq<char>> {
        self.counts@
    }

    /// The number of attempts still to be made.
    pub closed spec fn pending(&self) -> nat {
        self.pending as nat
    }

    /// A collector that will make `attempts` attempts, one for each chunk
    /// handed to a worker.
    pub fn new(coordinator: Coordinator, attempts: usize) -> (c: Self)
        ensures
            c.aggregate() == Multiset::<Seq<char>>::empty(),
            c.pending() == attempts,
    {
        Collector { coordinator, counts: FrequencyMap::new(), pending: attempts }
    }

    /// Whether all attempts have been made.
    pub fn is_done(&self) -> (done: bool)
        ensures
            done == (self.pending() == 0),
    {
        self.pending == 0
    }

    /// The counts merged so far.
    pub fn counts(&self) -> (counts: &FrequencyMap)
        ensures
            counts@ == self.aggregate(),
    {
        &self.counts
    }

    /// Takes what one attempt has brought. Counts that arrive are merged into
    /// the aggregate, unless a sum would not fit a `usize`; in every other
    /// case the aggregate stays as it is and a warning says why. Either way
    /// the attempt is used up, and no attempt is made again.
    pub fn record(&mut self, delivery: Delivery) -> (warning: Option<Warning>)
        requires
            old(self).pending() > 0,
        ensures
            final(self).pending() == old(self).pending() - 1,
            match delivery {
                Delivery::Arrived(counts) => if can_merge(old(self).aggregate(), counts@) {
                    &&& warning.is_none()
                    &&& final(self).aggregate() == old(self).aggregate().add(counts@)
                } else {
                    &&& warning == Some(Warning::CountOverflow)
                    &&& final(self).aggregate() == old(self).aggregate()
                },
                Delivery::TimedOut => {
                    &&& warning == Some(Warning::TimedOut)
                    &&& final(self).aggregate() == old(self).aggregate()
                },
                Delivery::Failed => {
                    &&& warning == Some(Warning::WorkerFailed)
                    &&& final(self).aggregate() == old(self).aggregate()
                },
            },
    {
        self.pending = self.pending - 1;
        match delivery {
            Delivery::Arrived(counts) => {
                if self.counts.fits(&counts) {
                    let coordinator = self.coordinator;
                    coordinator.shuffle(&mut self.counts, counts);
                    None
                } else {
                    Some(Warning::CountOverflow)
                }
            },
            Delivery::TimedOut => Some(Warning::TimedOut),
            Delivery::Failed => Some(Warning::WorkerFailed),
        }
    }

    /// The `k` most frequent words of what was merged, the most frequent
    /// first.
    pub fn finish(self, k: usize) -> (top: Vec<(String, usize)>)
        ensures
            is_top(self.aggregate(), k as nat, top.deep_view()),
    {
        reduce(self.counts, k)
    }
}

/// The `k` most frequent words of the input with their counts, the most
/// frequent first. The input is cut into chunks as for `folds` workers, and
/// the chunks are counted one after the other. There is no result only where
/// a word occurs more often than a `usize` can say.
pub fn run(source: &[u8], folds: usize, k: usize) -> (result: Result<
    Vec<(String, usize)>,
    PipelineError,
>)
    requires
        folds >= 1,
    ensures
        match result {
            Ok(top) => countable(source_counts(source@, folds as nat)) && is_top(
                source_counts(source@, folds as nat),
                k as nat,
                top.deep_view(),
            ),
            Err(e) => e == PipelineError::CountOverflow && !countable(
                source_counts(source@, folds as nat),
            ),
        },
{
    let coordinator = Coordinator { folds };
    let mut chunks = coordinator.split(source);
    let ghost all = source_counts(source@, folds as nat);
    proof {
        lemma_counts_of_chunks(source@, folds as nat);
    }
    let mut collector = Collector::new(coordinator, chunks.len());
    assert(collector.aggregate().add(merged(chunk_counts(chunks.deep_view()))) =~= all);
    while chunks.len() > 0
        invariant
            all == source_counts(source@, folds as nat),
            collector.pending() == chunks.len(),
            collector.aggregate().add(merged(chunk_counts(chunks.deep_view()))) == all,
        decreases chunks.len(),
    {
        let ghost rest = chunks.deep_view();
        let ghost so_far = collector.aggregate();
        assert(so_far.add(merged(chunk_counts(rest))) == all);
        let chunk = chunks.pop().unwrap();
        let counts = crate::map::map(chunk);
        proof {
            assert(chunks.deep_view() =~= rest.drop_last());
            assert(chunk@ == rest.last());
            assert(chunk_counts(rest).drop_last() == chunk_counts(rest.drop_last()));
            assert(chunk_counts(rest).last() == counts@);
            assert(merged(chunk_counts(rest)) == merged(chunk_counts(rest.drop_last())).add(
                counts@,
            ));
        }
        let warning = collector.record(Delivery::Arrived(counts));
        if warning.is_some() {
            proof {
                assert(!can_merge(so_far, counts@));
                let w = choose|w: Seq<char>| so_far.count(w) + counts@.count(w) > usize::MAX;
                assert(merged(chunk_counts(rest)).count(w) >= counts@.count(w));
                assert(all.count(w) == so_far.count(w) + merged(chunk_counts(rest)).count(w));
                assert(all.count(w) > usize::MAX);
                assert(!countable(all));
            }
            return Err(PipelineError::CountOverflow);
        }
        proof {
            assert(collector.aggregate().add(merged(chunk_counts(chunks.deep_view()))) =~= so_far.add(
                merged(chunk_counts(rest)),
            ));
        }
    }
    proof {
        assert(chunk_counts(chunks.deep_view()) =~= Seq::<Multiset<Seq<char>>>::empty());
        assert(collector.aggregate().add(Multiset::<Seq<char>>::empty()) =~= collector.aggregate());
    }
    let listed = collector.counts().entries();
    proof {
        lemma_lists_fit(listed.deep_view(), all);
    }
    Ok(collector.finish(k))
}

} // verus!
