//! The reducer: the most frequent words of a frequency map.
//!
//! Words are ranked by their counts, the higher count first. Words with the
//! same count are ranked by their UTF-8 encodings, compared byte by byte, the
//! lesser first: this is the order of `str` and `String`. So the ranking of a
//! frequency map is one fixed sequence, whatever order its words were counted
//! in.

use crate::frequency::{distinct_words, lemma_lists_len, lemma_tally_lists};
use crate::frequency::{lists, tally, Entry, FrequencyMap};
use vstd::multiset::Multiset;
use vstd::prelude::*;
use vstd::string::StringSliceAdditionalSpecFns;
use vstd::utf8::{encode_utf8, encode_utf8_decode_utf8};

verus! {

broadcast use {vstd::multiset::group_multiset_axioms, vstd::seq_lib::group_to_multiset_ensures};

/// Whether `a` comes before `b` in the dictionary order of byte strings.
pub open spec fn bytes_before(a: Seq<u8>, b: Seq<u8>) -> bool
    decreases a.len(),
{
    if b.len() == 0 {
        false
    } else if a.len() == 0 {
        true
    } else if a[0] != b[0] {
        a[0] < b[0]
    } else {
        bytes_before(a.drop_first(), b.drop_first())
    }
}

/// Whether the word `a` comes before the word `b`: the order of their UTF-8
/// encodings.
pub open spec fn word_before(a: Seq<char>, b: Seq<char>) -> bool {
    bytes_before(encode_utf8(a), encode_utf8(b))
}

/// Whether the entry `a` ranks before the entry `b`: it has the higher count,
/// or the same count and the word that comes first.
pub open spec fn outranks(a: Entry, b: Entry) -> bool {
    a.1 > b.1 || (a.1 == b.1 && word_before(a.0, b.0))
}

/// Whether in `bag` the word `v` ranks before the word `w`.
pub open spec fn ranks_before(bag: Multiset<Seq<char>>, v: Seq<char>, w: Seq<char>) -> bool {
    bag.count(v) > bag.count(w) || (bag.count(v) == bag.count(w) && word_before(v, w))
}

/// Whether one of the entries has the word `w`.
pub open spec fn has_word(entries: Seq<Entry>, w: Seq<char>) -> bool {
    exists|i: int| 0 <= i < entries.len() && (#[trigger] entries[i]).0 == w
}

/// Whether `top` is the ranking of `bag`, cut off after `k` entries:
/// - it has `k` entries, or as many as the bag has words if those are fewer;
/// - each entry is a word of the bag with its count;
/// - each entry ranks before those behind it;
/// - each entry ranks before every word of the bag that has no entry.
pub open spec fn is_top(bag: Multiset<Seq<char>>, k: nat, top: Seq<Entry>) -> bool {
    &&& top.len() == if k <= bag.dom().len() {
        k
    } else {
        bag.dom().len()
    }
    &&& forall|i: int|
        0 <= i < top.len() ==> (#[trigger] top[i]).1 >= 1 && bag.count(top[i].0) == top[i].1
    &&& forall|i: int, j: int|
        0 <= i < j < top.len() ==> ranks_before(bag, (#[trigger] top[i]).0, (#[trigger] top[j]).0)
    &&& forall|i: int, w: Seq<char>|
        0 <= i < top.len() && bag.count(w) > 0 && !has_word(top, w) ==> #[trigger] ranks_before(
            bag,
            top[i].0,
            w,
        )
}

/// No byte string comes before itself.
pub proof fn lemma_bytes_irreflexive(a: Seq<u8>)
    ensures
        !bytes_before(a, a),
    decreases a.len(),
{
    if a.len() > 0 {
        lemma_bytes_irreflexive(a.drop_first());
    }
}

/// Of two different byte strings one comes before the other.
pub proof fn lemma_bytes_total(a: Seq<u8>, b: Seq<u8>)
    requires
        a != b,
    ensures
        bytes_before(a, b) || bytes_before(b, a),
    decreases a.len(),
{
    if a.len() > 0 && b.len() > 0 && a[0] == b[0] {
        let a1 = a.drop_first();
        let b1 = b.drop_first();
        if a1 == b1 {
            assert(a =~= seq![a[0]] + a1);
            assert(b =~= seq![b[0]] + b1);
        }
        lemma_bytes_total(a1, b1);
    } else if a.len() == 0 && b.len() == 0 {
        assert(a =~= b);
    }
}

/// The order of byte strings is transitive.
pub proof fn lemma_bytes_transitive(a: Seq<u8>, b: Seq<u8>, c: Seq<u8>)
    requires
        bytes_before(a, b),
        bytes_before(b, c),
    ensures
        bytes_before(a, c),
    decreases a.len(),
{
    if a.len() > 0 && b.len() > 0 && c.len() > 0 && a[0] == b[0] && b[0] == c[0] {
        lemma_bytes_transitive(a.drop_first(), b.drop_first(), c.drop_first());
    }
}

/// The ranking of entries is a strict total order: no entry ranks before
/// itself, of two different entries one ranks before the other, and the
/// ranking is transitive.
pub proof fn lemma_outranks_order(a: Entry, b: Entry, c: Entry)
    ensures
        !outranks(a, a),
        a != b ==> outranks(a, b) || outranks(b, a),
        !(outranks(a, b) && outranks(b, a)),
        outranks(a, b) && outranks(b, c) ==> outranks(a, c),
        !outranks(b, a) && !outranks(c, b) ==> !outranks(c, a),
{
    let ea = encode_utf8(a.0);
    let eb = encode_utf8(b.0);
    let ec = encode_utf8(c.0);
    lemma_bytes_irreflexive(ea);
    lemma_bytes_irreflexive(eb);
    if ea == eb {
        encode_utf8_decode_utf8(a.0);
        encode_utf8_decode_utf8(b.0);
        assert(a.0 == b.0);
    } else {
        lemma_bytes_total(ea, eb);
    }
    if eb == ec {
        encode_utf8_decode_utf8(b.0);
        encode_utf8_decode_utf8(c.0);
        assert(b.0 == c.0);
    } else {
        lemma_bytes_total(eb, ec);
    }
    if bytes_before(ea, eb) && bytes_before(eb, ea) {
        lemma_bytes_transitive(ea, eb, ea);
    }
    if bytes_before(ea, eb) && bytes_before(eb, ec) {
        lemma_bytes_transitive(ea, eb, ec);
    }
    if bytes_before(ea, ec) && bytes_before(ec, ea) {
        lemma_bytes_transitive(ea, ec, ea);
    }
    if bytes_before(eb, ec) && bytes_before(ec, eb) {
        lemma_bytes_transitive(eb, ec, eb);
    }
}

/// For every bag and number there is one ranking at most.
pub proof fn lemma_top_unique(bag: Multiset<Seq<char>>, k: nat, a: Seq<Entry>, b: Seq<Entry>)
    requires
        is_top(bag, k, a),
        is_top(bag, k, b),
    ensures
        a == b,
{
    assert forall|i: int| 0 <= i < a.len() implies a[i] == b[i] by {
        lemma_top_agree(bag, k, a, b, i);
    }
    assert(a =~= b);
}

/// Two rankings of one bag agree up to any position.
proof fn lemma_top_agree(bag: Multiset<Seq<char>>, k: nat, a: Seq<Entry>, b: Seq<Entry>, n: int)
    requires
        is_top(bag, k, a),
        is_top(bag, k, b),
        0 <= n < a.len(),
    ensures
        forall|i: int| 0 <= i <= n ==> a[i] == b[i],
    decreases n,
{
    if n > 0 {
        lemma_top_agree(bag, k, a, b, n - 1);
    }
    lemma_top_not_first(bag, k, a, b, n);
    lemma_top_not_first(bag, k, b, a, n);
    lemma_outranks_order(a[n], b[n], a[n]);
}

/// Where two rankings agree before position `n`, the entry of the one at `n`
/// does not rank before the entry of the other: else the other ranking would
/// have it further back, or not at all, behind an entry of lower rank.
proof fn lemma_top_not_first(bag: Multiset<Seq<char>>, k: nat, a: Seq<Entry>, b: Seq<Entry>, n: int)
    requires
        is_top(bag, k, a),
        is_top(bag, k, b),
        0 <= n < a.len(),
        forall|i: int| 0 <= i < n ==> a[i] == b[i],
    ensures
        !outranks(a[n], b[n]),
{
    if outranks(a[n], b[n]) {
        let w = a[n].0;
        lemma_outranks_order(a[n], b[n], a[n]);
        assert(ranks_before(bag, w, b[n].0));
        assert(!ranks_before(bag, b[n].0, w));
        if has_word(b, w) {
            let j = choose|j: int| 0 <= j < b.len() && (#[trigger] b[j]).0 == w;
            if j < n {
                assert(a[j] == b[j]);
                assert(ranks_before(bag, a[j].0, a[n].0));
                lemma_outranks_order(a[j], a[n], a[j]);
                assert(false);
            } else if j == n {
                assert(false);
            } else {
                assert(ranks_before(bag, b[n].0, b[j].0));
                assert(false);
            }
        } else {
            assert(ranks_before(bag, b[n].0, w));
            assert(false);
        }
    }
}

/// With the number 0 the ranking is empty.
pub proof fn lemma_top_none(bag: Multiset<Seq<char>>, top: Seq<Entry>)
    requires
        is_top(bag, 0, top),
    ensures
        top == Seq::<Entry>::empty(),
{
    assert(top =~= Seq::<Entry>::empty());
}

/// The counts of a ranking never rise, and no word occurs in it twice.
pub proof fn lemma_top_descends(bag: Multiset<Seq<char>>, k: nat, top: Seq<Entry>)
    requires
        is_top(bag, k, top),
    ensures
        forall|i: int, j: int|
            0 <= i < j < top.len() ==> (#[trigger] top[i]).1 >= (#[trigger] top[j]).1,
        distinct_words(top),
{
    assert forall|i: int, j: int| 0 <= i < j < top.len() implies (#[trigger] top[i]).1 >= (
    #[trigger] top[j]).1 && top[i].0 != top[j].0 by {
        assert(ranks_before(bag, top[i].0, top[j].0));
        lemma_bytes_irreflexive(encode_utf8(top[i].0));
    }
}

/// With a number that is not less than the number of the bag's words, the
/// ranking lists the bag: every word of the bag stands in it exactly once.
pub proof fn lemma_top_all(bag: Multiset<Seq<char>>, k: nat, top: Seq<Entry>)
    requires
        is_top(bag, k, top),
        k >= bag.dom().len(),
    ensures
        lists(top, bag),
{
    lemma_top_descends(bag, k, top);
    let listed = top.map_values(|e: Entry| e.0);
    assert(listed.no_duplicates()) by {
        assert forall|i: int, j: int|
            0 <= i < listed.len() && 0 <= j < listed.len() && i != j implies listed[i]
            != listed[j] by {
            if i < j {
                assert(top[i].0 != top[j].0);
            } else {
                assert(top[j].0 != top[i].0);
            }
        }
    }
    listed.unique_seq_to_set();
    assert(listed.to_set().subset_of(bag.dom())) by {
        assert forall|w: Seq<char>| listed.to_set().contains(w) implies bag.dom().contains(w) by {
            let i = choose|i: int| 0 <= i < listed.len() && listed[i] == w;
            assert(top[i].0 == w);
        }
    }
    vstd::set_lib::lemma_set_subset_finite(bag.dom(), listed.to_set());
    vstd::set_lib::lemma_subset_equality(listed.to_set(), bag.dom());
    assert forall|w: Seq<char>| bag.count(w) > 0 implies exists|i: int|
        0 <= i < top.len() && (#[trigger] top[i]).0 == w by {
        assert(bag.dom().contains(w));
        assert(listed.to_set().contains(w));
        let i = choose|i: int| 0 <= i < listed.len() && listed[i] == w;
        assert(top[i].0 == w);
    }
}

/// A ranking is the ranking of its own entries: to rank them again changes
/// nothing.
pub proof fn lemma_top_idempotent(bag: Multiset<Seq<char>>, k: nat, top: Seq<Entry>)
    requires
        is_top(bag, k, top),
    ensures
        is_top(tally(top), top.len(), top),
{
    lemma_top_descends(bag, k, top);
    lemma_tally_lists(top);
    let own = tally(top);
    lemma_lists_len(top, own);
    assert forall|i: int, j: int| 0 <= i < j < top.len() implies ranks_before(
        own,
        (#[trigger] top[i]).0,
        (#[trigger] top[j]).0,
    ) by {
        assert(ranks_before(bag, top[i].0, top[j].0));
    }
}

/// Compares two byte strings in dictionary order.
fn bytes_less(a: &[u8], b: &[u8]) -> (r: bool)
    ensures
        r == bytes_before(a@, b@),
{
    let mut i: usize = 0;
    assert(a@.skip(0) == a@ && b@.skip(0) == b@);
    while i < a.len() && i < b.len()
        invariant
            i <= a.len(),
            i <= b.len(),
            bytes_before(a@, b@) == bytes_before(a@.skip(i as int), b@.skip(i as int)),
        decreases a.len() - i,
    {
        proof {
            assert(a@.skip(i as int)[0] == a@[i as int]);
            assert(b@.skip(i as int)[0] == b@[i as int]);
            assert(a@.skip(i as int).drop_first() == a@.skip(i + 1));
            assert(b@.skip(i as int).drop_first() == b@.skip(i + 1));
        }
        if a[i] != b[i] {
            return a[i] < b[i];
        }
        i = i + 1;
    }
    i < b.len()
}

/// Whether the entry `a` ranks before the entry `b`.
fn entry_outranks(a: &(String, usize), b: &(String, usize)) -> (r: bool)
    ensures
        r == outranks((a.0@, a.1), (b.0@, b.1)),
{
    a.1 > b.1 || (a.1 == b.1 && bytes_less(a.0.as_str().as_bytes(), b.0.as_str().as_bytes()))
}

/// Whether `order` names entries such that none ranks before one named
/// earlier.
spec fn in_order(entries: Seq<Entry>, order: Seq<usize>) -> bool {
    &&& forall|i: int| 0 <= i < order.len() ==> (#[trigger] order[i]) < entries.len()
    &&& forall|i: int, j: int|
        0 <= i < j < order.len() ==> !outranks(
            entries[(#[trigger] order[j]) as int],
            entries[(#[trigger] order[i]) as int],
        )
}

/// Merges two orders into one.
fn merge(entries: &Vec<(String, usize)>, left: &Vec<usize>, right: &Vec<usize>) -> (out: Vec<
    usize,
>)
    requires
        in_order(entries.deep_view(), left@),
        in_order(entries.deep_view(), right@),
    ensures
        in_order(entries.deep_view(), out@),
        out@.to_multiset() == left@.to_multiset().add(right@.to_multiset()),
{
    let ghost e = entries.deep_view();
    let mut out: Vec<usize> = Vec::new();
    let mut i: usize = 0;
    let mut j: usize = 0;
    proof {
        assert(left@.take(0) =~= Seq::<usize>::empty());
        assert(right@.take(0) =~= Seq::<usize>::empty());
        assert(out@.to_multiset() =~= left@.take(0).to_multiset().add(
            right@.take(0).to_multiset(),
        ));
    }
    while i < left.len() || j < right.len()
        invariant
            e == entries.deep_view(),
            i <= left.len(),
            j <= right.len(),
            in_order(e, left@),
            in_order(e, right@),
            in_order(e, out@),
            out@.to_multiset() == left@.take(i as int).to_multiset().add(
                right@.take(j as int).to_multiset(),
            ),
            forall|a: int, b: int|
                0 <= a < out.len() && i <= b < left.len() ==> !outranks(
                    e[(#[trigger] left[b]) as int],
                    e[(#[trigger] out[a]) as int],
                ),
            forall|a: int, b: int|
                0 <= a < out.len() && j <= b < right.len() ==> !outranks(
                    e[(#[trigger] right[b]) as int],
                    e[(#[trigger] out[a]) as int],
                ),
        decreases left.len() - i + right.len() - j,
    {
        let from_left = if i == left.len() {
            false
        } else if j == right.len() {
            true
        } else {
            let l = &entries[left[i]];
            let r = &entries[right[j]];
            assert(e[left[i as int] as int] == (l.0@, l.1));
            assert(e[right[j as int] as int] == (r.0@, r.1));
            !entry_outranks(r, l)
        };
        let ghost before = out@;
        if from_left {
            let x = left[i];
            out.push(x);
            proof {
                assert(left@.take(i + 1) =~= left@.take(i as int).push(x));
                assert(out@.to_multiset() =~= left@.take(i + 1).to_multiset().add(
                    right@.take(j as int).to_multiset(),
                ));
                assert forall|a: int, b: int|
                    0 <= a < out.len() && i + 1 <= b < left.len() implies !outranks(
                    e[(#[trigger] left[b]) as int],
                    e[(#[trigger] out[a]) as int],
                ) by {
                    if a < before.len() {
                        assert(out[a] == before[a]);
                    }
                }
                assert forall|a: int, b: int|
                    0 <= a < out.len() && j <= b < right.len() implies !outranks(
                    e[(#[trigger] right[b]) as int],
                    e[(#[trigger] out[a]) as int],
                ) by {
                    if a < before.len() {
                        assert(out[a] == before[a]);
                    } else {
                        lemma_outranks_order(
                            e[x as int],
                            e[right[j as int] as int],
                            e[right[b] as int],
                        );
                    }
                }
                assert(in_order(e, out@)) by {
                    assert forall|a: int, b: int| 0 <= a < b < out.len() implies !outranks(
                        e[(#[trigger] out[b]) as int],
                        e[(#[trigger] out[a]) as int],
                    ) by {
                        assert(out[a] == before[a]);
                        if b < before.len() {
                            assert(out[b] == before[b]);
                        }
                    }
                }
            }
            i = i + 1;
        } else {
            let x = right[j];
            out.push(x);
            proof {
                assert(right@.take(j + 1) =~= right@.take(j as int).push(x));
                assert(out@.to_multiset() =~= left@.take(i as int).to_multiset().add(
                    right@.take(j + 1).to_multiset(),
                ));
                assert forall|a: int, b: int|
                    0 <= a < out.len() && j + 1 <= b < right.len() implies !outranks(
                    e[(#[trigger] right[b]) as int],
                    e[(#[trigger] out[a]) as int],
                ) by {
                    if a < before.len() {
                        assert(out[a] == before[a]);
                    }
                }
                assert forall|a: int, b: int|
                    0 <= a < out.len() && i <= b < left.len() implies !outranks(
                    e[(#[trigger] left[b]) as int],
                    e[(#[trigger] out[a]) as int],
                ) by {
                    if a < before.len() {
                        assert(out[a] == before[a]);
                    } else {
                        lemma_outranks_order(
                            e[x as int],
                            e[left[i as int] as int],
                            e[left[b] as int],
                        );
                    }
                }
                assert(in_order(e, out@)) by {
                    assert forall|a: int, b: int| 0 <= a < b < out.len() implies !outranks(
                        e[(#[trigger] out[b]) as int],
                        e[(#[trigger] out[a]) as int],
                    ) by {
                        assert(out[a] == before[a]);
                        if b < before.len() {
                            assert(out[b] == before[b]);
                        }
                    }
                }
            }
            j = j + 1;
        }
    }
    proof {
        assert(left@.take(i as int) =~= left@);
        assert(right@.take(j as int) =~= right@);
    }
    out
}

/// Puts `order` in the order of the ranking, by merge sort.
fn sort(entries: &Vec<(String, usize)>, order: Vec<usize>) -> (sorted: Vec<usize>)
    requires
        forall|i: int| 0 <= i < order.len() ==> (#[trigger] order[i]) < entries.len(),
    ensures
        in_order(entries.deep_view(), sorted@),
        sorted@.to_multiset() == order@.to_multiset(),
    decreases order.len(),
{
    let n = order.len();
    if n <= 1 {
        return order;
    }
    let mid = n / 2;
    let mut left: Vec<usize> = Vec::new();
    let mut right: Vec<usize> = Vec::new();
    let mut i: usize = 0;
    while i < mid
        invariant
            i <= mid <= n,
            n == order.len(),
            left@ == order@.subrange(0, i as int),
        decreases mid - i,
    {
        left.push(order[i]);
        assert(left@ =~= order@.subrange(0, i + 1));
        i = i + 1;
    }
    while i < n
        invariant
            mid <= i <= n,
            n == order.len(),
            right@ == order@.subrange(mid as int, i as int),
        decreases n - i,
    {
        right.push(order[i]);
        assert(right@ =~= order@.subrange(mid as int, i + 1));
        i = i + 1;
    }
    proof {
        assert(order@ =~= left@ + right@);
        vstd::seq_lib::lemma_multiset_commutative(left@, right@);
    }
    let left = sort(entries, left);
    let right = sort(entries, right);
    merge(entries, &left, &right)
}

/// The positions `0`, `1`, ... up to `n`, each once.
spec fn positions(n: nat) -> Seq<usize> {
    Seq::new(n, |i: int| i as usize)
}

/// Entries that list a bag, taken in an order that names each of them once
/// and none before one that ranks higher, are the ranking of the bag.
proof fn lemma_sorted_is_top(
    bag: Multiset<Seq<char>>,
    entries: Seq<Entry>,
    order: Seq<usize>,
    top: Seq<Entry>,
)
    requires
        lists(entries, bag),
        entries.len() <= usize::MAX,
        in_order(entries, order),
        order.to_multiset() == positions(entries.len()).to_multiset(),
        top.len() <= order.len(),
        forall|i: int| 0 <= i < top.len() ==> top[i] == entries[order[i] as int],
    ensures
        is_top(bag, top.len(), top),
        order.len() == bag.dom().len(),
{
    let n = entries.len();
    let all = positions(n);
    lemma_lists_len(entries, bag);
    assert(order.len() == n) by {
        vstd::seq_lib::to_multiset_len(order);
        vstd::seq_lib::to_multiset_len(all);
    }
    assert(all.no_duplicates());
    all.lemma_multiset_has_no_duplicates();
    order.lemma_multiset_has_no_duplicates_conv();
    assert forall|i: int, j: int| 0 <= i < j < order.len() implies outranks(
        entries[(#[trigger] order[i]) as int],
        entries[(#[trigger] order[j]) as int],
    ) by {
        let a = entries[order[i] as int];
        let b = entries[order[j] as int];
        assert(order[i] != order[j]);
        if order[i] < order[j] {
            assert(a.0 != b.0);
        } else {
            assert(b.0 != a.0);
        }
        lemma_outranks_order(a, b, a);
    }
    assert forall|i: int, j: int| 0 <= i < j < top.len() implies ranks_before(
        bag,
        (#[trigger] top[i]).0,
        (#[trigger] top[j]).0,
    ) by {
        assert(outranks(entries[order[i] as int], entries[order[j] as int]));
    }
    assert forall|i: int, w: Seq<char>|
        0 <= i < top.len() && bag.count(w) > 0 && !has_word(top, w) implies #[trigger] ranks_before(
        bag,
        top[i].0,
        w,
    ) by {
        let p = choose|p: int| 0 <= p < entries.len() && (#[trigger] entries[p]).0 == w;
        assert(all[p] == p as usize);
        assert(all.contains(p as usize));
        assert(order.contains(p as usize)) by {
            vstd::seq_lib::to_multiset_contains(all, p as usize);
            vstd::seq_lib::to_multiset_contains(order, p as usize);
        }
        let j = choose|j: int| 0 <= j < order.len() && order[j] == p as usize;
        if j < top.len() {
            assert(top[j].0 == w);
        } else {
            assert(outranks(entries[order[i] as int], entries[order[j] as int]));
        }
    }
}

/// The `most_freq` most frequent words with their counts, the most frequent
/// first; all the words, where there are no more than `most_freq`.
pub fn reduce(mapped: FrequencyMap, most_freq: usize) -> (top: Vec<(String, usize)>)
    ensures
        is_top(mapped@, most_freq as nat, top.deep_view()),
{
    let entries = mapped.into_entries();
    let n = entries.len();
    let mut order: Vec<usize> = Vec::new();
    let mut i: usize = 0;
    while i < n
        invariant
            i <= n,
            order@ == positions(i as nat),
        decreases n - i,
    {
        order.push(i);
        assert(order@ =~= positions((i + 1) as nat));
        i = i + 1;
    }
    let sorted = sort(&entries, order);
    let k = if most_freq < n {
        most_freq
    } else {
        n
    };
    let mut top: Vec<(String, usize)> = Vec::new();
    let mut i: usize = 0;
    assert(sorted@.len() == n) by {
        assert(sorted@.to_multiset().len() == positions(n as nat).to_multiset().len());
    }
    while i < k
        invariant
            i <= k <= n,
            n == entries.len(),
            sorted@.len() == n,
            in_order(entries.deep_view(), sorted@),
            top.len() == i,
            forall|a: int|
                0 <= a < i ==> (#[trigger] top.deep_view()[a]) == entries.deep_view()[sorted[a] as int],
        decreases k - i,
    {
        let entry = &entries[sorted[i]];
        let ghost before = top.deep_view();
        top.push((entry.0.clone(), entry.1));
        proof {
            assert(top.deep_view() =~= before.push((entry.0@, entry.1)));
            assert(entries.deep_view()[sorted[i as int] as int] == (entry.0@, entry.1));
        }
        i = i + 1;
    }
    proof {
        lemma_sorted_is_top(mapped@, entries.deep_view(), sorted@, top.deep_view());
    }
    top
}

} // verus!
