//! The coordinator: it cuts the input into chunks for the workers.

use crate::frequency::{can_merge, copies, lemma_copies, lemma_lists_tally, tally};
use crate::frequency::FrequencyMap;
use crate::splitter::{cut_at_breaks, last_break, lemma_last_break, normalized, split_text};
use crate::splitter::{lemma_split_count, lemma_split_cuts_at_breaks, lemma_split_keeps_text};
use crate::splitter::{lemma_split_keeps_words, lemma_split_one_block, SplitState, Splitter};
use crate::text::{is_break, words};
use vstd::arithmetic::div_mod::lemma_fundamental_div_mod;
use vstd::prelude::*;
use vstd::slice::slice_subrange;

verus! {

broadcast use vstd::multiset::group_multiset_axioms;

/// Coordinates one run over one input.
#[derive(Clone, Copy)]
pub struct Coordinator {
    /// The number of ways to split the input.
    pub folds: usize,
}

/// The size of a block for an input of `total` bytes that is to be read in
/// `folds` blocks: `total / folds`, rounded up.
pub open spec fn block_size(total: nat, folds: nat) -> nat {
    if folds == 0 {
        0
    } else if total % folds == 0 {
        total / folds
    } else {
        total / folds + 1
    }
}

/// The input in blocks of `size` bytes. The last block holds what is left and
/// may be shorter.
pub open spec fn blocks(source: Seq<u8>, size: nat) -> Seq<Seq<u8>>
    decreases source.len(),
{
    if size == 0 || source.len() == 0 {
        Seq::empty()
    } else if source.len() <= size {
        seq![source]
    } else {
        seq![source.take(size as int)] + blocks(source.skip(size as int), size)
    }
}

/// The blocks of the input as the splitter sees them: each decoded and put in
/// lower case by itself.
pub open spec fn source_blocks(source: Seq<u8>, folds: nat) -> Seq<Seq<char>> {
    blocks(source, block_size(source.len(), folds)).map_values(|b: Seq<u8>| normalized(b))
}

/// The text of the input: its normalized blocks put end to end.
pub open spec fn source_text(source: Seq<u8>, folds: nat) -> Seq<char> {
    source_blocks(source, folds).flatten()
}

/// The chunks into which the input is cut when it is read in `folds` blocks.
pub open spec fn split_source(source: Seq<u8>, folds: nat) -> Seq<Seq<char>> {
    split_text(source_blocks(source, folds))
}

/// An input that fits into `k` blocks of `size` bytes has at most `k` blocks.
proof fn lemma_blocks_len(source: Seq<u8>, size: nat, k: nat)
    requires
        size > 0,
        source.len() <= k * size,
    ensures
        blocks(source, size).len() <= k,
    decreases source.len(),
{
    if source.len() == 0 {
    } else {
        assert(k >= 1) by (nonlinear_arith)
            requires
                source.len() > 0,
                source.len() <= k * size,
        ;
        if source.len() > size {
            let rest = source.skip(size as int);
            assert(rest.len() <= (k - 1) * size) by (nonlinear_arith)
                requires
                    rest.len() == source.len() - size,
                    source.len() <= k * size,
            ;
            lemma_blocks_len(rest, size, (k - 1) as nat);
        }
    }
}

/// `folds` blocks of the block size hold an input that is not empty, and the
/// block size is not zero.
proof fn lemma_block_size(total: nat, folds: nat)
    requires
        folds >= 1,
        total > 0,
    ensures
        block_size(total, folds) > 0,
        total <= folds * block_size(total, folds),
{
    let size = block_size(total, folds);
    lemma_fundamental_div_mod(total as int, folds as int);
    let q = total as int / folds as int;
    let r = total as int % folds as int;
    assert(0 <= r < folds);
    assert(q >= 0) by (nonlinear_arith)
        requires
            total == folds * q + r,
            0 <= r < folds,
            total > 0,
    ;
    assert(total <= folds * size && size > 0) by (nonlinear_arith)
        requires
            total == folds * q + r,
            0 <= r < folds,
            total > 0,
            q >= 0,
            size == if r == 0 {
                q
            } else {
                q + 1
            },
    ;
}

/// An input read in `folds` blocks has at most `folds` blocks.
pub proof fn lemma_block_count(source: Seq<u8>, folds: nat)
    requires
        folds >= 1,
    ensures
        blocks(source, block_size(source.len(), folds)).len() <= folds,
{
    if source.len() > 0 {
        lemma_block_size(source.len(), folds);
        lemma_blocks_len(source, block_size(source.len(), folds), folds);
    }
}

/// What holds of the chunks of every input, read in any number of blocks:
/// - they are at most one more than the blocks, and none only where the text
///   is empty;
/// - none is empty, and each but the last ends in a break;
/// - put end to end they are the text;
/// - their words, chunk after chunk, are the words of the text.
pub proof fn lemma_split_source(source: Seq<u8>, folds: nat)
    requires
        folds >= 1,
    ensures
        split_source(source, folds).len() <= folds + 1,
        split_source(source, folds).len() == 0 <==> source_text(source, folds).len() == 0,
        cut_at_breaks(split_source(source, folds)),
        split_source(source, folds).flatten() == source_text(source, folds),
        split_source(source, folds).map_values(|c: Seq<char>| words(c)).flatten() == words(
            source_text(source, folds),
        ),
{
    let blocks = source_blocks(source, folds);
    lemma_block_count(source, folds);
    lemma_split_count(blocks);
    lemma_split_cuts_at_breaks(blocks);
    lemma_split_keeps_text(blocks);
    lemma_split_keeps_words(blocks);
}

/// An input read in one block: where it is not empty, and its text holds no
/// break or ends in one, the text is the one chunk.
pub proof fn lemma_split_one_fold(source: Seq<u8>)
    requires
        source.len() > 0,
        normalized(source).len() > 0,
        last_break(normalized(source)) is None || is_break(normalized(source).last()),
    ensures
        split_source(source, 1) == seq![normalized(source)],
{
    let text = normalized(source);
    assert(block_size(source.len(), 1) == source.len());
    assert(blocks(source, source.len()) == seq![source]);
    assert(source_blocks(source, 1) == seq![text]);
    lemma_split_one_block(text);
    lemma_last_break(text);
}

impl Coordinator {
    /// Cuts the input into chunks. The input is read in `folds` blocks of
    /// equal size, each block is decoded and put in lower case, and the text
    /// is cut behind the last break of each block.
    pub fn split(self, source: &[u8]) -> (chunks: Vec<String>)
        requires
            self.folds >= 1,
        ensures
            chunks.deep_view() == split_source(source@, self.folds as nat),
    {
        let total = source.len();
        let size = if total % self.folds == 0 {
            total / self.folds
        } else {
            proof {
                lemma_fundamental_div_mod(total as int, self.folds as int);
                let q = total as int / self.folds as int;
                let r = total as int % self.folds as int;
                assert(q < total) by (nonlinear_arith)
                    requires
                        total == self.folds * q + r,
                        0 < r < self.folds,
                ;
            }
            total / self.folds + 1
        };
        assert(size == block_size(total as nat, self.folds as nat));
        proof {
            if total > 0 {
                lemma_block_size(total as nat, self.folds as nat);
            }
        }
        let mut splitter = Splitter::new();
        let mut off: usize = 0;
        let ghost mut done: Seq<Seq<u8>> = Seq::empty();
        proof {
            assert(source@.skip(0) == source@);
            assert(done + blocks(source@, size as nat) == blocks(source@, size as nat));
            assert(done.map_values(|b: Seq<u8>| normalized(b)) == Seq::<Seq<char>>::empty());
        }
        while off < total
            invariant
                total == source@.len(),
                off <= total,
                total > 0 ==> size > 0,
                blocks(source@, size as nat) == done + blocks(source@.skip(off as int), size as nat),
                splitter@ == SplitState::start().absorb_all(
                    done.map_values(|b: Seq<u8>| normalized(b)),
                ),
            decreases total - off,
        {
            let end = if total - off <= size {
                total
            } else {
                off + size
            };
            let block = slice_subrange(source, off, end);
            splitter.feed(block);
            proof {
                let rest = source@.skip(off as int);
                if rest.len() <= size {
                    assert(block@ == rest);
                    assert(source@.skip(end as int).len() == 0);
                } else {
                    assert(block@ == rest.take(size as int));
                    assert(rest.skip(size as int) == source@.skip(end as int));
                }
                assert(blocks(rest, size as nat) == seq![block@] + blocks(
                    source@.skip(end as int),
                    size as nat,
                ));
                let next = done.push(block@);
                assert(done + (seq![block@] + blocks(source@.skip(end as int), size as nat))
                    == next + blocks(source@.skip(end as int), size as nat));
                let texts = next.map_values(|b: Seq<u8>| normalized(b));
                assert(texts.drop_last() == done.map_values(|b: Seq<u8>| normalized(b)));
                assert(texts.last() == normalized(block@));
                done = next;
            }
            off = end;
        }
        proof {
            assert(blocks(source@.skip(off as int), size as nat) == Seq::<Seq<u8>>::empty());
            assert(done + Seq::<Seq<u8>>::empty() == done);
        }
        splitter.finish()
    }

    /// Merges the counts of one chunk into the counts gathered so far: the
    /// count of every word grows by its count in `received`.
    pub fn shuffle(self, main_map: &mut FrequencyMap, received: FrequencyMap)
        requires
            can_merge(old(main_map)@, received@),
        ensures
            final(main_map)@ == old(main_map)@.add(received@),
    {
        let ghost start = main_map@;
        let ghost sum = start.add(received@);
        let mut entries = received.into_entries();
        proof {
            lemma_lists_tally(entries.deep_view(), received@);
        }
        while entries.len() > 0
            invariant
                forall|w: Seq<char>| sum.count(w) <= usize::MAX,
                main_map@.add(tally(entries.deep_view())) == sum,
            decreases entries.len(),
        {
            let ghost rest = entries.deep_view();
            let ghost merged = main_map@;
            let (word, count) = entries.pop().unwrap();
            proof {
                assert(entries.deep_view() =~= rest.drop_last());
                assert(rest.last() == (word@, count));
                lemma_copies(word@, count as nat);
                assert(tally(rest) == tally(rest.drop_last()).add(copies(word@, count as nat)));
                assert(merged.count(word@) + tally(rest).count(word@) == sum.count(word@));
            }
            main_map.add(word, count);
            proof {
                assert(main_map@.add(tally(entries.deep_view())) =~= merged.add(tally(rest)));
            }
        }
        proof {
            assert(tally(entries.deep_view()) == vstd::multiset::Multiset::<Seq<char>>::empty());
            assert(main_map@.add(vstd::multiset::Multiset::<Seq<char>>::empty()) =~= main_map@);
        }
    }
}

} // verus!
