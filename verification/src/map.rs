//! The mapper: it counts the words of one chunk.

use crate::frequency::{copies, lemma_copies, FrequencyMap};
use crate::text::{tokenize, words};
use vstd::multiset::Multiset;
use vstd::prelude::*;

verus! {

broadcast use {vstd::multiset::group_multiset_axioms, vstd::seq_lib::group_to_multiset_ensures};

/// Counts the words of a chunk: the result holds each word as often as it
/// occurs in the chunk. Words are taken as they stand; two words are the same
/// only if they agree character by character.
pub fn map(chunk: String) -> (counts: FrequencyMap)
    ensures
        counts@ == words(chunk@).to_multiset(),
{
    let mut tokens = tokenize(chunk.as_str());
    let ghost all = tokens.deep_view();
    let mut counts = FrequencyMap::new();
    assert(all.len() == tokens.len());
    assert(counts@.add(all.to_multiset()) =~= all.to_multiset());
    while tokens.len() > 0
        invariant
            all.len() <= usize::MAX,
            counts@.add(tokens.deep_view().to_multiset()) == all.to_multiset(),
        decreases tokens.len(),
    {
        let ghost rest = tokens.deep_view();
        let ghost seen = counts@;
        let word = tokens.pop().unwrap();
        proof {
            assert(tokens.deep_view() =~= rest.drop_last());
            assert(word@ == rest.last());
            assert(rest == rest.drop_last().push(rest.last()));
            assert(rest.to_multiset() =~= rest.drop_last().to_multiset().insert(word@));
            assert(seen.len() + rest.to_multiset().len() == all.to_multiset().len());
            assert(seen.count(word@) <= seen.len());
            lemma_copies(word@, 1);
        }
        counts.add(word, 1);
        proof {
            assert(counts@.add(tokens.deep_view().to_multiset()) =~= seen.add(
                rest.to_multiset(),
            ));
        }
    }
    proof {
        assert(tokens.deep_view() =~= Seq::<Seq<char>>::empty());
        assert(counts@.add(Seq::<Seq<char>>::empty().to_multiset()) =~= counts@);
    }
    counts
}

} // verus!
