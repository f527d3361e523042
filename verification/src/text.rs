//! Characters, whitespace and words.
//!
//! A text is a sequence of characters. Two whitespace tests are in use: the
//! narrow one ([`is_break`]) tells where a text may be cut into chunks, the
//! wide one ([`is_space`]) tells where one word ends and the next begins.
//! Every break is a space, so a cut never falls inside a word.

use vstd::prelude::*;

verus! {

/// The characters at which a text may be cut: space, tab, line feed, form
/// feed and carriage return.
pub open spec fn is_break(c: char) -> bool {
    c == ' ' || c == '\t' || c == '\n' || c == '\x0C' || c == '\r'
}

/// Executable form of [`is_break`].
pub fn is_break_char(c: char) -> (r: bool)
    ensures
        r == is_break(c),
{
    c == ' ' || c == '\t' || c == '\n' || c == '\x0C' || c == '\r'
}

/// The characters that separate words: those with the Unicode property
/// `White_Space`.
pub open spec fn is_space(c: char) -> bool {
    let u = c as u32;
    ||| 0x09 <= u <= 0x0D
    ||| u == 0x20
    ||| u == 0x85
    ||| u == 0xA0
    ||| u == 0x1680
    ||| 0x2000 <= u <= 0x200A
    ||| u == 0x2028
    ||| u == 0x2029
    ||| u == 0x202F
    ||| u == 0x205F
    ||| u == 0x3000
}

/// Executable form of [`is_space`].
pub fn is_space_char(c: char) -> (r: bool)
    ensures
        r == is_space(c),
{
    let u: u32 = c as u32;
    (0x09 <= u && u <= 0x0D) || u == 0x20 || u == 0x85 || u == 0xA0 || u == 0x1680 || (0x2000 <= u
        && u <= 0x200A) || u == 0x2028 || u == 0x2029 || u == 0x202F || u == 0x205F || u == 0x3000
}

/// Every character at which a text may be cut also separates words.
pub proof fn lemma_break_is_space(c: char)
    ensures
        is_break(c) ==> is_space(c),
{
}

/// The length of the longest prefix of `s` that holds no space.
pub open spec fn word_len(s: Seq<char>) -> nat
    decreases s.len(),
{
    if s.len() == 0 || is_space(s[0]) {
        0
    } else {
        1 + word_len(s.drop_first())
    }
}

/// The words of a text, in order. Leading spaces are skipped; after them a
/// word runs up to the next space or the end of the text.
pub open spec fn words(s: Seq<char>) -> Seq<Seq<char>>
    decreases s.len(),
    via words_decreases
{
    if s.len() == 0 {
        Seq::empty()
    } else if is_space(s[0]) {
        words(s.drop_first())
    } else {
        seq![s.take(word_len(s) as int)] + words(s.skip(word_len(s) as int))
    }
}

#[via_fn]
proof fn words_decreases(s: Seq<char>) {
    lemma_word_len(s);
}

/// `word_len(s)` stays within `s`, covers no space, and stops at a space or
/// at the end of `s`.
pub proof fn lemma_word_len(s: Seq<char>)
    ensures
        word_len(s) <= s.len(),
        forall|j: int| 0 <= j < word_len(s) ==> !is_space(#[trigger] s[j]),
        word_len(s) < s.len() ==> is_space(s[word_len(s) as int]),
        s.len() > 0 && !is_space(s[0]) ==> word_len(s) >= 1,
    decreases s.len(),
{
    if s.len() == 0 || is_space(s[0]) {
    } else {
        let t = s.drop_first();
        lemma_word_len(t);
        assert forall|j: int| 0 <= j < word_len(s) implies !is_space(#[trigger] s[j]) by {
            if j > 0 {
                assert(s[j] == t[j - 1]);
            }
        }
        if word_len(s) < s.len() {
            assert(s[word_len(s) as int] == t[word_len(t) as int]);
        }
    }
}

/// A run of `n` characters without a space, followed by a space or by the end
/// of the text, is the first word.
pub proof fn lemma_first_word(s: Seq<char>, n: int)
    requires
        0 <= n <= s.len(),
        forall|j: int| 0 <= j < n ==> !is_space(#[trigger] s[j]),
        n == s.len() || is_space(s[n]),
    ensures
        word_len(s) == n,
    decreases n,
{
    if n > 0 {
        let t = s.drop_first();
        assert forall|j: int| 0 <= j < n - 1 implies !is_space(#[trigger] t[j]) by {
            assert(t[j] == s[j + 1]);
        }
        lemma_first_word(t, n - 1);
    }
}

/// No word is empty, and no word holds a space.
pub proof fn lemma_words_are_words(s: Seq<char>)
    ensures
        forall|i: int| 0 <= i < words(s).len() ==> (#[trigger] words(s)[i]).len() > 0,
        forall|i: int, j: int|
            0 <= i < words(s).len() && 0 <= j < words(s)[i].len() ==> !is_space(
                #[trigger] words(s)[i][j],
            ),
    decreases s.len(),
{
    if s.len() == 0 {
        assert(words(s).len() == 0);
    } else if is_space(s[0]) {
        lemma_words_are_words(s.drop_first());
        assert(words(s) == words(s.drop_first()));
    } else {
        let n = word_len(s) as int;
        lemma_word_len(s);
        lemma_words_are_words(s.skip(n));
        let rest = words(s.skip(n));
        let w = words(s);
        assert(w == seq![s.take(n)] + rest);
        assert(w[0] == s.take(n));
        assert forall|i: int| 0 <= i < w.len() implies (#[trigger] w[i]).len() > 0 by {
            if i > 0 {
                assert(w[i] == rest[i - 1]);
            }
        }
        assert forall|i: int, j: int| 0 <= i < w.len() && 0 <= j < w[i].len() implies !is_space(
            #[trigger] w[i][j],
        ) by {
            if i > 0 {
                assert(w[i] == rest[i - 1]);
            } else {
                assert(w[0][j] == s[j]);
            }
        }
    }
}

/// Where the first text is empty or ends in a space, the words of two texts
/// joined are the words of the first followed by the words of the second.
pub proof fn lemma_words_concat(a: Seq<char>, b: Seq<char>)
    requires
        a.len() == 0 || is_space(a.last()),
    ensures
        words(a + b) == words(a) + words(b),
    decreases a.len(),
{
    if a.len() == 0 {
        assert(a + b == b);
        assert(words(a) + words(b) == words(b));
    } else if is_space(a[0]) {
        let a1 = a.drop_first();
        assert((a + b).drop_first() == a1 + b);
        if a1.len() > 0 {
            assert(a1.last() == a.last());
        }
        lemma_words_concat(a1, b);
    } else {
        let n = word_len(a) as int;
        lemma_word_len(a);
        assert(n < a.len()) by {
            if n == a.len() {
                assert(!is_space(a[a.len() - 1]));
            }
        }
        assert forall|j: int| 0 <= j < n implies !is_space(#[trigger] (a + b)[j]) by {
            assert((a + b)[j] == a[j]);
        }
        assert((a + b)[n] == a[n]);
        lemma_first_word(a + b, n);
        let a1 = a.skip(n);
        assert((a + b).skip(n) == a1 + b);
        assert((a + b).take(n) == a.take(n));
        assert(a1.last() == a.last());
        lemma_words_concat(a1, b);
        assert(seq![a.take(n)] + (words(a1) + words(b)) == (seq![a.take(n)] + words(a1)) + words(
            b,
        ));
    }
}

/// Appends one character to a string.
///
/// Trusted: this is `String::push`, which puts the character at the end of the
/// string and leaves what was there as it was.
#[verifier::external_body]
pub(crate) fn push_char(s: &mut String, c: char)
    ensures
        final(s)@ == old(s)@.push(c),
{
    s.push(c);
}

/// Cuts a text into its words.
pub fn tokenize(text: &str) -> (out: Vec<String>)
    ensures
        out.deep_view() == words(text@),
{
    let mut out: Vec<String> = Vec::new();
    let mut cur = String::new();
    let ghost mut start: int = 0;
    assert(text@.skip(0) == text@);
    assert(out.deep_view() == Seq::<Seq<char>>::empty());
    assert(Seq::<Seq<char>>::empty() + words(text@) == words(text@));
    for c in it: text.chars()
        invariant
            it.seq() == text@,
            0 <= start <= it.index(),
            cur@ == text@.subrange(start, it.index() as int),
            forall|j: int| start <= j < it.index() ==> !is_space(#[trigger] text@[j]),
            words(text@) == out.deep_view() + words(text@.skip(start)),
    {
        let ghost i = it.index() as int;
        assert(c == text@[i]);
        if is_space_char(c) {
            if !cur.as_str().is_empty() {
                proof {
                    lemma_cut_word(text@, start, i);
                }
                let ghost before = out.deep_view();
                out.push(cur);
                assert(out.deep_view() =~= before.push(text@.subrange(start, i)));
                cur = String::new();
            } else {
                proof {
                    assert(start == i);
                    assert(text@.skip(i).drop_first() == text@.skip(i + 1));
                }
            }
            proof {
                start = i + 1;
                assert(cur@ == text@.subrange(start, i + 1));
            }
        } else {
            push_char(&mut cur, c);
            assert(cur@ == text@.subrange(start, i + 1));
        }
    }
    if !cur.as_str().is_empty() {
        proof {
            lemma_cut_word(text@, start, text@.len() as int);
        }
        let ghost before = out.deep_view();
        out.push(cur);
        assert(out.deep_view() =~= before.push(text@.subrange(start, text@.len() as int)));
    } else {
        proof {
            assert(text@.skip(start).len() == 0);
            assert(out.deep_view() + Seq::<Seq<char>>::empty() == out.deep_view());
        }
    }
    out
}

/// In `text`, from `start` on: a word that runs up to `end`, where a space or
/// the end of the text follows, comes first, and the words from just after
/// that space follow it.
proof fn lemma_cut_word(text: Seq<char>, start: int, end: int)
    requires
        0 <= start < end <= text.len(),
        forall|j: int| start <= j < end ==> !is_space(#[trigger] text[j]),
        end == text.len() || is_space(text[end]),
    ensures
        words(text.skip(start)) == seq![text.subrange(start, end)] + words(
            text.skip(if end == text.len() {
                end
            } else {
                end + 1
            }),
        ),
{
    let s = text.skip(start);
    let n = end - start;
    assert forall|j: int| 0 <= j < n implies !is_space(#[trigger] s[j]) by {
        assert(s[j] == text[start + j]);
    }
    lemma_first_word(s, n);
    assert(!is_space(s[0])) by {
        assert(s[0] == text[start]);
    }
    assert(words(s) == seq![s.take(n)] + words(s.skip(n)));
    assert(s.take(n) == text.subrange(start, end));
    assert(s.skip(n) == text.skip(end));
    if end < text.len() {
        let t = text.skip(end);
        assert(t[0] == text[end]);
        assert(t.drop_first() == text.skip(end + 1));
        assert(words(t) == words(t.drop_first()));
    }
}

} // verus!
