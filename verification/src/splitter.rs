//! Cutting a text into chunks that end at whitespace.
//!
//! The text arrives block by block. A block need not end where a word ends, so
//! the splitter holds back what follows the last break of a block and puts it
//! in front of the next one. [`SplitState`] is the mathematical model of that
//! process, [`Splitter`] the executable one.

use crate::text::{is_break, is_break_char, lemma_break_is_space, lemma_words_concat, words};
use vstd::prelude::*;
use vstd::string::StringExecFns;

verus! {

/// The text that `String::from_utf8_lossy` makes of `bytes`: the characters
/// that the bytes encode in UTF-8, with U+FFFD in place of what is no valid
/// encoding.
pub uninterp spec fn utf8_lossy(bytes: Seq<u8>) -> Seq<char>;

/// The text that `str::to_lowercase` makes of `text`: its lower-case form
/// according to Unicode.
pub uninterp spec fn lowercase(text: Seq<char>) -> Seq<char>;

/// A block of bytes as the text the splitter works on: decoded, then put in
/// lower case.
pub open spec fn normalized(bytes: Seq<u8>) -> Seq<char> {
    lowercase(utf8_lossy(bytes))
}

/// Decodes bytes as UTF-8 and never fails.
///
/// Trusted: this is `String::from_utf8_lossy`. Only that its result depends on
/// the bytes alone is claimed.
#[verifier::external_body]
fn decode_lossy(bytes: &[u8]) -> (text: String)
    ensures
        text@ == utf8_lossy(bytes@),
{
    String::from_utf8_lossy(bytes).into_owned()
}

/// Puts a text in lower case.
///
/// Trusted: this is `str::to_lowercase`. Only that its result depends on the
/// text alone is claimed.
#[verifier::external_body]
fn to_lowercase(text: &str) -> (lower: String)
    ensures
        lower@ == lowercase(text@),
{
    text.to_lowercase()
}

/// Turns a block of bytes into the text the splitter works on.
pub fn normalize(bytes: &[u8]) -> (text: String)
    ensures
        text@ == normalized(bytes@),
{
    let decoded = decode_lossy(bytes);
    to_lowercase(decoded.as_str())
}

/// The index of the last break in `s`, if there is one.
pub open spec fn last_break(s: Seq<char>) -> Option<int>
    decreases s.len(),
{
    if s.len() == 0 {
        None
    } else if is_break(s.last()) {
        Some(s.len() - 1)
    } else {
        last_break(s.drop_last())
    }
}

/// `s` without the breaks at its start.
pub open spec fn trim_start(s: Seq<char>) -> Seq<char>
    decreases s.len(),
{
    if s.len() > 0 && is_break(s[0]) {
        trim_start(s.drop_first())
    } else {
        s
    }
}

/// What a splitter holds between two blocks.
pub struct SplitState {
    /// The chunks cut so far.
    pub chunks: Seq<Seq<char>>,
    /// The end of the text seen so far that is not yet part of a chunk.
    pub leftover: Seq<char>,
}

impl SplitState {
    /// The state before the first block.
    pub open spec fn start() -> SplitState {
        SplitState { chunks: Seq::empty(), leftover: Seq::empty() }
    }

    /// The state after one more block. The block is put behind the leftover.
    /// If the result holds a break, it is cut behind its last break: what
    /// stands before the cut is a new chunk, what stands behind it, without
    /// breaks at its start, is the new leftover. If it holds none, all of it
    /// is the new leftover.
    pub open spec fn absorb(self, block: Seq<char>) -> SplitState {
        let text = self.leftover + block;
        match last_break(text) {
            Some(i) => if i + 1 < text.len() {
                SplitState {
                    chunks: self.chunks.push(text.take(i + 1)),
                    leftover: trim_start(text.skip(i + 1)),
                }
            } else {
                SplitState { chunks: self.chunks.push(text), leftover: Seq::empty() }
            },
            None => SplitState { chunks: self.chunks, leftover: text },
        }
    }

    /// The state after a sequence of blocks.
    pub open spec fn absorb_all(self, blocks: Seq<Seq<char>>) -> SplitState
        decreases blocks.len(),
    {
        if blocks.len() == 0 {
            self
        } else {
            self.absorb_all(blocks.drop_last()).absorb(blocks.last())
        }
    }

    /// The chunks once the text has ended: a leftover that is not empty is the
    /// last chunk.
    pub open spec fn finish(self) -> Seq<Seq<char>> {
        if self.leftover.len() > 0 {
            self.chunks.push(self.leftover)
        } else {
            self.chunks
        }
    }

    /// All the text that went in: the chunks in order, then the leftover.
    pub open spec fn text(self) -> Seq<char> {
        self.chunks.flatten() + self.leftover
    }

    /// Every chunk ends in a break, and the leftover holds none.
    pub open spec fn settled(self) -> bool {
        &&& forall|i: int|
            0 <= i < self.chunks.len() ==> (#[trigger] self.chunks[i]).len() > 0 && is_break(
                self.chunks[i].last(),
            )
        &&& forall|j: int| 0 <= j < self.leftover.len() ==> !is_break(#[trigger] self.leftover[j])
    }
}

/// The chunks into which a text is cut that arrives as `blocks`.
pub open spec fn split_text(blocks: Seq<Seq<char>>) -> Seq<Seq<char>> {
    SplitState::start().absorb_all(blocks).finish()
}

/// No chunk is empty, and every chunk but the last ends in a break.
pub open spec fn cut_at_breaks(chunks: Seq<Seq<char>>) -> bool {
    &&& forall|i: int| 0 <= i < chunks.len() ==> (#[trigger] chunks[i]).len() > 0
    &&& forall|i: int| 0 <= i < chunks.len() - 1 ==> is_break((#[trigger] chunks[i]).last())
}

/// Where `last_break` finds a break, it is the last one; where it finds none,
/// there is none.
pub proof fn lemma_last_break(s: Seq<char>)
    ensures
        match last_break(s) {
            Some(i) => 0 <= i < s.len() && is_break(s[i]) && forall|j: int|
                i < j < s.len() ==> !is_break(#[trigger] s[j]),
            None => forall|j: int| 0 <= j < s.len() ==> !is_break(#[trigger] s[j]),
        },
    decreases s.len(),
{
    if s.len() > 0 && !is_break(s.last()) {
        let t = s.drop_last();
        lemma_last_break(t);
        match last_break(t) {
            Some(i) => {
                assert forall|j: int| i < j < s.len() implies !is_break(#[trigger] s[j]) by {
                    if j < t.len() {
                        assert(s[j] == t[j]);
                    }
                }
            },
            None => {
                assert forall|j: int| 0 <= j < s.len() implies !is_break(#[trigger] s[j]) by {
                    if j < t.len() {
                        assert(s[j] == t[j]);
                    }
                }
            },
        }
    }
}

/// One more block adds its text to the text held, and a settled state stays
/// settled. In particular nothing is lost where the leftover is trimmed: it
/// has no break at its start.
pub proof fn lemma_absorb(st: SplitState, block: Seq<char>)
    requires
        st.settled(),
    ensures
        st.absorb(block).settled(),
        st.absorb(block).text() == st.text() + block,
        st.chunks.len() <= st.absorb(block).chunks.len() <= st.chunks.len() + 1,
{
    let text = st.leftover + block;
    let next = st.absorb(block);
    lemma_last_break(text);
    match last_break(text) {
        Some(i) => {
            if i + 1 < text.len() {
                let head = text.take(i + 1);
                let tail = text.skip(i + 1);
                assert(!is_break(tail[0])) by {
                    assert(tail[0] == text[i + 1]);
                }
                assert(trim_start(tail) == tail);
                assert(head.last() == text[i]);
                assert forall|j: int| 0 <= j < tail.len() implies !is_break(#[trigger] tail[j]) by {
                    assert(tail[j] == text[i + 1 + j]);
                }
                assert(head + tail == text);
                assert(next.chunks.flatten() == st.chunks.flatten() + head) by {
                    st.chunks.lemma_flatten_push(head);
                }
                assert(next.text() == (st.chunks.flatten() + head) + tail);
                assert((st.chunks.flatten() + head) + tail == st.chunks.flatten() + (head + tail));
                assert(st.chunks.flatten() + (st.leftover + block) == (st.chunks.flatten()
                    + st.leftover) + block);
            } else {
                assert(text.last() == text[i]);
                assert(next.chunks.flatten() == st.chunks.flatten() + text) by {
                    st.chunks.lemma_flatten_push(text);
                }
                assert(next.text() == st.chunks.flatten() + text);
                assert(st.chunks.flatten() + (st.leftover + block) == (st.chunks.flatten()
                    + st.leftover) + block);
            }
        },
        None => {
            assert(st.chunks.flatten() + (st.leftover + block) == (st.chunks.flatten()
                + st.leftover) + block);
        },
    }
}

/// After any blocks the state is settled and holds their text in order; each
/// block has added at most one chunk.
pub proof fn lemma_absorb_all(blocks: Seq<Seq<char>>)
    ensures
        SplitState::start().absorb_all(blocks).settled(),
        SplitState::start().absorb_all(blocks).text() == blocks.flatten(),
        SplitState::start().absorb_all(blocks).chunks.len() <= blocks.len(),
    decreases blocks.len(),
{
    let start = SplitState::start();
    if blocks.len() == 0 {
        assert(start.text() == Seq::<char>::empty());
        assert(blocks.flatten() == Seq::<char>::empty());
    } else {
        let init = blocks.drop_last();
        lemma_absorb_all(init);
        lemma_absorb(start.absorb_all(init), blocks.last());
        assert(blocks.flatten() == init.flatten() + blocks.last()) by {
            init.lemma_flatten_push(blocks.last());
            assert(init.push(blocks.last()) == blocks);
        }
    }
}

/// The chunks of a text are cut at breaks: none is empty, and each but the
/// last ends in a break.
pub proof fn lemma_split_cuts_at_breaks(blocks: Seq<Seq<char>>)
    ensures
        cut_at_breaks(split_text(blocks)),
{
    lemma_absorb_all(blocks);
}

/// The chunks of a text, put end to end, are the text: no character is lost,
/// added or moved.
pub proof fn lemma_split_keeps_text(blocks: Seq<Seq<char>>)
    ensures
        split_text(blocks).flatten() == blocks.flatten(),
{
    lemma_absorb_all(blocks);
    let st = SplitState::start().absorb_all(blocks);
    if st.leftover.len() > 0 {
        st.chunks.lemma_flatten_push(st.leftover);
    } else {
        assert(st.chunks.flatten() + st.leftover == st.chunks.flatten());
    }
}

/// There is at most one chunk more than there are blocks, and there is no
/// chunk only where the text is empty.
pub proof fn lemma_split_count(blocks: Seq<Seq<char>>)
    ensures
        split_text(blocks).len() <= blocks.len() + 1,
        split_text(blocks).len() == 0 <==> blocks.flatten().len() == 0,
{
    lemma_absorb_all(blocks);
    lemma_split_keeps_text(blocks);
    lemma_split_cuts_at_breaks(blocks);
    let chunks = split_text(blocks);
    if chunks.len() > 0 {
        lemma_flatten_last(chunks);
    } else {
        assert(chunks.flatten().len() == 0);
    }
}

/// Where the last of some sequences is not empty, they end, put end to end,
/// in what the last of them ends in.
pub proof fn lemma_flatten_last(chunks: Seq<Seq<char>>)
    requires
        chunks.len() > 0,
        chunks.last().len() > 0,
    ensures
        chunks.flatten().len() > 0,
        chunks.flatten().last() == chunks.last().last(),
{
    let init = chunks.drop_last();
    init.lemma_flatten_push(chunks.last());
    assert(init.push(chunks.last()) == chunks);
}

/// Where chunks are cut at breaks, their words, chunk after chunk, are the
/// words of the chunks put end to end: no word lies across a cut.
pub proof fn lemma_words_of_chunks(chunks: Seq<Seq<char>>)
    requires
        cut_at_breaks(chunks),
    ensures
        chunks.map_values(|c: Seq<char>| words(c)).flatten() == words(chunks.flatten()),
    decreases chunks.len(),
{
    let per_chunk = chunks.map_values(|c: Seq<char>| words(c));
    if chunks.len() == 0 {
        assert(chunks.flatten() == Seq::<char>::empty());
        assert(per_chunk.flatten() == Seq::<Seq<char>>::empty());
    } else {
        let init = chunks.drop_last();
        let last = chunks.last();
        lemma_words_of_chunks(init);
        let init_words = init.map_values(|c: Seq<char>| words(c));
        assert(per_chunk == init_words.push(words(last)));
        init_words.lemma_flatten_push(words(last));
        init.lemma_flatten_push(last);
        assert(init.push(last) == chunks);
        if init.len() > 0 {
            assert(init.last() == chunks[chunks.len() - 2]);
            lemma_flatten_last(init);
            lemma_break_is_space(init.flatten().last());
        } else {
            assert(init.flatten() == Seq::<char>::empty());
        }
        lemma_words_concat(init.flatten(), last);
    }
}

/// The words of the chunks, chunk after chunk, are the words of the text:
/// cutting the text moves no word, splits none and drops none.
pub proof fn lemma_split_keeps_words(blocks: Seq<Seq<char>>)
    ensures
        split_text(blocks).map_values(|c: Seq<char>| words(c)).flatten() == words(
            blocks.flatten(),
        ),
{
    lemma_split_cuts_at_breaks(blocks);
    lemma_split_keeps_text(blocks);
    lemma_words_of_chunks(split_text(blocks));
}

/// A text that arrives as one block is cut behind its last break. Where that
/// break is its last character, or where it holds none, the text is its own
/// single chunk.
pub proof fn lemma_split_one_block(text: Seq<char>)
    ensures
        split_text(seq![text]) == match last_break(text) {
            Some(i) => if i + 1 < text.len() {
                seq![text.take(i + 1), text.skip(i + 1)]
            } else {
                seq![text]
            },
            None => if text.len() > 0 {
                seq![text]
            } else {
                Seq::<Seq<char>>::empty()
            },
        },
{
    let start = SplitState::start();
    let blocks = seq![text];
    assert(blocks.drop_last() == Seq::<Seq<char>>::empty());
    assert(start.absorb_all(blocks.drop_last()) == start);
    assert(blocks.last() == text);
    assert(start.absorb_all(blocks) == start.absorb(text));
    assert(start.leftover + text == text);
    lemma_last_break(text);
    match last_break(text) {
        Some(i) => {
            if i + 1 < text.len() {
                let tail = text.skip(i + 1);
                assert(!is_break(tail[0])) by {
                    assert(tail[0] == text[i + 1]);
                }
                assert(trim_start(tail) == tail);
                assert(start.chunks.push(text.take(i + 1)).push(tail) == seq![
                    text.take(i + 1),
                    tail,
                ]);
            } else {
                assert(start.chunks.push(text) == seq![text]);
            }
        },
        None => {
            if text.len() > 0 {
                assert(start.chunks.push(text) == seq![text]);
            }
        },
    }
}

/// Cuts a text that arrives in blocks into chunks that end at whitespace.
pub struct Splitter {
    chunks: Vec<String>,
    leftover: String,
}

impl View for Splitter {
    type V = SplitState;

    closed spec fn view(&self) -> SplitState {
        SplitState { chunks: self.chunks.deep_view(), leftover: self.leftover@ }
    }
}

impl Splitter {
    /// A splitter that has seen no text yet.
    pub fn new() -> (s: Self)
        ensures
            s@ == SplitState::start(),
    {
        let s = Splitter { chunks: Vec::new(), leftover: String::new() };
        assert(s.chunks.deep_view() == Seq::<Seq<char>>::empty());
        s
    }

    /// Takes in the next block of text.
    pub fn absorb(&mut self, block: &str)
        ensures
            final(self)@ == old(self)@.absorb(block@),
    {
        let ghost before = self@;
        self.leftover.append(block);
        let ghost text = self.leftover@;
        let (found, len) = find_last_break(self.leftover.as_str());
        proof {
            lemma_last_break(text);
        }
        match found {
            Some(i) => {
                if i + 1 < len {
                    let head = self.leftover.as_str().substring_char(0, i + 1).to_owned();
                    let tail = self.leftover.as_str().substring_char(i + 1, len).to_owned();
                    // The tail starts behind the last break, so it has no
                    // break at its start and trimming would change nothing.
                    proof {
                        assert(!is_break(tail@[0])) by {
                            assert(tail@[0] == text[i + 1]);
                        }
                        assert(trim_start(tail@) == tail@);
                    }
                    self.chunks.push(head);
                    self.leftover = tail;
                    assert(self.chunks.deep_view() =~= before.chunks.push(text.take(i + 1)));
                } else {
                    let mut whole = String::new();
                    std::mem::swap(&mut whole, &mut self.leftover);
                    self.chunks.push(whole);
                    assert(self.chunks.deep_view() =~= before.chunks.push(text));
                }
            },
            None => {},
        }
    }

    /// Takes in the next block of bytes: normalizes it, then absorbs the text.
    pub fn feed(&mut self, bytes: &[u8])
        ensures
            final(self)@ == old(self)@.absorb(normalized(bytes@)),
    {
        let text = normalize(bytes);
        self.absorb(text.as_str());
    }

    /// Ends the text and hands out the chunks.
    pub fn finish(self) -> (chunks: Vec<String>)
        ensures
            chunks.deep_view() == self@.finish(),
    {
        let ghost before = self@;
        let mut chunks = self.chunks;
        if !self.leftover.as_str().is_empty() {
            chunks.push(self.leftover);
            assert(chunks.deep_view() =~= before.chunks.push(before.leftover));
        }
        chunks
    }
}

/// Finds the last break of a text, and counts the text's characters.
fn find_last_break(text: &str) -> (r: (Option<usize>, usize))
    ensures
        r.1 == text@.len(),
        match r.0 {
            Some(i) => last_break(text@) == Some(i as int),
            None => last_break(text@) is None,
        },
{
    let len = text.unicode_len();
    let mut found: Option<usize> = None;
    let mut i: usize = 0;
    assert(text@.take(0).len() == 0);
    for c in it: text.chars()
        invariant
            it.seq() == text@,
            len == text@.len(),
            i == it.index(),
            match found {
                Some(k) => last_break(text@.take(i as int)) == Some(k as int),
                None => last_break(text@.take(i as int)) is None,
            },
    {
        proof {
            let next = text@.take(i + 1);
            assert(next.last() == c);
            assert(next.drop_last() == text@.take(i as int));
        }
        if is_break_char(c) {
            found = Some(i);
        }
        i = i + 1;
    }
    assert(text@.take(i as int) == text@);
    (found, len)
}

} // verus!
