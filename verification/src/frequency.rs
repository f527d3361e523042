//! Frequency maps: how often each word occurs.
//!
//! Mathematically a frequency map is a multiset of words: the count of a word
//! is the number of times the multiset holds it, and a word that does not
//! occur has the count 0.

use vstd::hash_map::StringHashMap;
use vstd::multiset::Multiset;
use vstd::prelude::*;

verus! {

broadcast use vstd::multiset::group_multiset_axioms;

/// A word with the number of times it occurs.
pub type Entry = (Seq<char>, usize);

/// The multiset that holds `word` `n` times and nothing else.
pub open spec fn copies(word: Seq<char>, n: nat) -> Multiset<Seq<char>>
    decreases n,
{
    if n == 0 {
        Multiset::empty()
    } else {
        copies(word, (n - 1) as nat).insert(word)
    }
}

/// The multiset that holds, for each entry, the entry's word as often as the
/// entry says.
pub open spec fn tally(entries: Seq<Entry>) -> Multiset<Seq<char>>
    decreases entries.len(),
{
    if entries.len() == 0 {
        Multiset::empty()
    } else {
        tally(entries.drop_last()).add(copies(entries.last().0, entries.last().1 as nat))
    }
}

/// No two entries have the same word.
pub open spec fn distinct_words(entries: Seq<Entry>) -> bool {
    forall|i: int, j: int|
        0 <= i < j < entries.len() ==> (#[trigger] entries[i]).0 != (#[trigger] entries[j]).0
}

/// `entries` lists `bag`: every word of the bag stands in exactly one entry,
/// with its count, and no entry has the count 0.
pub open spec fn lists(entries: Seq<Entry>, bag: Multiset<Seq<char>>) -> bool {
    &&& distinct_words(entries)
    &&& forall|i: int|
        0 <= i < entries.len() ==> (#[trigger] entries[i]).1 >= 1 && bag.count(entries[i].0)
            == entries[i].1
    &&& forall|w: Seq<char>|
        bag.count(w) > 0 ==> exists|i: int| 0 <= i < entries.len() && (#[trigger] entries[i]).0 == w
}

/// `copies(word, n)` holds `word` `n` times and no other word.
pub proof fn lemma_copies(word: Seq<char>, n: nat)
    ensures
        copies(word, n).count(word) == n,
        forall|w: Seq<char>| w != word ==> copies(word, n).count(w) == 0,
        copies(word, n).len() == n,
    decreases n,
{
    if n > 0 {
        lemma_copies(word, (n - 1) as nat);
    }
}

/// A word that stands in no entry is not in the tally.
pub proof fn lemma_tally_absent(entries: Seq<Entry>, w: Seq<char>)
    requires
        forall|i: int| 0 <= i < entries.len() ==> (#[trigger] entries[i]).0 != w,
    ensures
        tally(entries).count(w) == 0,
    decreases entries.len(),
{
    if entries.len() > 0 {
        let init = entries.drop_last();
        assert forall|i: int| 0 <= i < init.len() implies (#[trigger] init[i]).0 != w by {
            assert(init[i] == entries[i]);
        }
        lemma_tally_absent(init, w);
        assert(entries.last() == entries[entries.len() - 1]);
        lemma_copies(entries.last().0, entries.last().1 as nat);
    }
}

/// Where no two entries have the same word, the tally holds the word of an
/// entry as often as the entry says.
pub proof fn lemma_tally_at(entries: Seq<Entry>, p: int)
    requires
        distinct_words(entries),
        0 <= p < entries.len(),
    ensures
        tally(entries).count(entries[p].0) == entries[p].1,
    decreases entries.len(),
{
    let init = entries.drop_last();
    let last = entries.last();
    let w = entries[p].0;
    assert(last == entries[entries.len() - 1]);
    lemma_copies(last.0, last.1 as nat);
    if p == entries.len() - 1 {
        assert forall|i: int| 0 <= i < init.len() implies (#[trigger] init[i]).0 != w by {
            assert(init[i] == entries[i]);
        }
        lemma_tally_absent(init, w);
    } else {
        assert(distinct_words(init)) by {
            assert forall|i: int, j: int| 0 <= i < j < init.len() implies (#[trigger] init[i]).0 != (
            #[trigger] init[j]).0 by {
                assert(init[i] == entries[i]);
                assert(init[j] == entries[j]);
            }
        }
        assert(init[p] == entries[p]);
        lemma_tally_at(init, p);
    }
}

/// Entries with different words and without the count 0 list their tally.
pub proof fn lemma_tally_lists(entries: Seq<Entry>)
    requires
        distinct_words(entries),
        forall|i: int| 0 <= i < entries.len() ==> (#[trigger] entries[i]).1 >= 1,
    ensures
        lists(entries, tally(entries)),
{
    let bag = tally(entries);
    assert forall|i: int| 0 <= i < entries.len() implies bag.count((#[trigger] entries[i]).0)
        == entries[i].1 by {
        lemma_tally_at(entries, i);
    }
    assert forall|w: Seq<char>| bag.count(w) > 0 implies exists|i: int|
        0 <= i < entries.len() && (#[trigger] entries[i]).0 == w by {
        if !(exists|i: int| 0 <= i < entries.len() && (#[trigger] entries[i]).0 == w) {
            lemma_tally_absent(entries, w);
        }
    }
}

/// Entries that list a multiset have it as their tally: a multiset has one
/// listing at most, up to the order of the entries.
pub proof fn lemma_lists_tally(entries: Seq<Entry>, bag: Multiset<Seq<char>>)
    requires
        lists(entries, bag),
    ensures
        tally(entries) == bag,
{
    assert forall|w: Seq<char>| tally(entries).count(w) == bag.count(w) by {
        if exists|i: int| 0 <= i < entries.len() && (#[trigger] entries[i]).0 == w {
            let i = choose|i: int| 0 <= i < entries.len() && (#[trigger] entries[i]).0 == w;
            lemma_tally_at(entries, i);
        } else {
            lemma_tally_absent(entries, w);
        }
    }
    assert(tally(entries) =~= bag);
}

/// A listing has as many entries as the multiset has different words.
pub proof fn lemma_lists_len(entries: Seq<Entry>, bag: Multiset<Seq<char>>)
    requires
        lists(entries, bag),
    ensures
        entries.len() == bag.dom().len(),
    decreases entries.len(),
{
    if entries.len() == 0 {
        assert(bag.dom() =~= Set::<Seq<char>>::empty());
    } else {
        let init = entries.drop_last();
        let last = entries.last();
        assert(last == entries[entries.len() - 1]);
        assert forall|i: int| 0 <= i < init.len() implies (#[trigger] init[i]) == entries[i] by {}
        assert(distinct_words(init));
        lemma_tally_lists(init);
        lemma_lists_len(init, tally(init));
        lemma_lists_tally(entries, bag);
        lemma_copies(last.0, last.1 as nat);
        assert(tally(init).count(last.0) == 0) by {
            lemma_tally_absent(init, last.0);
        }
        assert(bag.dom() =~= tally(init).dom().insert(last.0)) by {
            assert forall|w: Seq<char>| bag.dom().contains(w) <==> tally(init).dom().insert(
                last.0,
            ).contains(w) by {
                assert(bag.count(w) == tally(init).count(w) + copies(last.0, last.1 as nat).count(
                    w,
                ));
            }
        }
    }
}

/// No count of a multiset that has a listing is too large for a `usize`.
pub proof fn lemma_lists_fit(entries: Seq<Entry>, bag: Multiset<Seq<char>>)
    requires
        lists(entries, bag),
    ensures
        forall|w: Seq<char>| bag.count(w) <= usize::MAX,
{
    assert forall|w: Seq<char>| bag.count(w) <= usize::MAX by {
        if bag.count(w) > 0 {
            let i = choose|i: int| 0 <= i < entries.len() && (#[trigger] entries[i]).0 == w;
            assert(bag.count(w) == entries[i].1);
        }
    }
}

/// Whether two multisets can be merged: no count of the sum is too large for
/// a `usize`.
pub open spec fn can_merge(a: Multiset<Seq<char>>, b: Multiset<Seq<char>>) -> bool {
    forall|w: Seq<char>| a.count(w) + b.count(w) <= usize::MAX
}

/// The sum of some multisets: what merging them one after the other into an
/// empty frequency map gives.
pub open spec fn merged(parts: Seq<Multiset<Seq<char>>>) -> Multiset<Seq<char>>
    decreases parts.len(),
{
    if parts.len() == 0 {
        Multiset::empty()
    } else {
        merged(parts.drop_last()).add(parts.last())
    }
}

/// The sum of some multisets is the sum of all but one of them, plus that one.
pub proof fn lemma_merged_remove(parts: Seq<Multiset<Seq<char>>>, j: int)
    requires
        0 <= j < parts.len(),
    ensures
        merged(parts) == merged(parts.remove(j)).add(parts[j]),
    decreases parts.len(),
{
    let init = parts.drop_last();
    if j == parts.len() - 1 {
        assert(parts.remove(j) =~= init);
    } else {
        lemma_merged_remove(init, j);
        let rest = parts.remove(j);
        assert(rest.drop_last() =~= init.remove(j));
        assert(rest.last() == parts.last());
        assert(init[j] == parts[j]);
        assert(merged(parts) =~= merged(rest).add(parts[j]));
    }
}

/// Merging is independent of the order: two sequences that hold the same
/// multisets, each as often in the one as in the other, have the same sum.
pub proof fn lemma_merge_order(a: Seq<Multiset<Seq<char>>>, b: Seq<Multiset<Seq<char>>>)
    requires
        a.to_multiset() == b.to_multiset(),
    ensures
        merged(a) == merged(b),
    decreases a.len(),
{
    vstd::seq_lib::to_multiset_len(a);
    vstd::seq_lib::to_multiset_len(b);
    if a.len() > 0 {
        let x = a.last();
        let init = a.drop_last();
        assert(a == init.push(x));
        vstd::seq_lib::to_multiset_build(init, x);
        assert(a.contains(x)) by {
            assert(a[a.len() - 1] == x);
        }
        vstd::seq_lib::to_multiset_contains(a, x);
        vstd::seq_lib::to_multiset_contains(b, x);
        let j = choose|j: int| 0 <= j < b.len() && b[j] == x;
        vstd::seq_lib::to_multiset_remove(b, j);
        assert(b.remove(j).to_multiset() =~= init.to_multiset());
        lemma_merge_order(init, b.remove(j));
        lemma_merged_remove(b, j);
    }
}

/// Merging two multisets in either order gives the same, and so does merging
/// three of them in either grouping.
pub proof fn lemma_merge_commutes(
    a: Multiset<Seq<char>>,
    b: Multiset<Seq<char>>,
    c: Multiset<Seq<char>>,
)
    ensures
        a.add(b) == b.add(a),
        a.add(b).add(c) == a.add(b.add(c)),
{
    assert(a.add(b) =~= b.add(a));
    assert(a.add(b).add(c) =~= a.add(b.add(c)));
}

/// How often each word occurs.
pub struct FrequencyMap {
    /// For each word, the position of its entry.
    index: StringHashMap<usize>,
    /// The words, each once, with their counts.
    entries: Vec<(String, usize)>,
}

impl View for FrequencyMap {
    type V = Multiset<Seq<char>>;

    closed spec fn view(&self) -> Multiset<Seq<char>> {
        tally(self.entries.deep_view())
    }
}

impl FrequencyMap {
    #[verifier::type_invariant]
    spec fn inv(self) -> bool {
        &&& self.index@.dom().finite()
        &&& forall|i: int|
            0 <= i < self.entries.len() ==> {
                &&& (#[trigger] self.entries[i]).1 >= 1
                &&& self.index@.contains_key(self.entries[i].0@)
                &&& self.index@[self.entries[i].0@] == i
            }
        &&& forall|w: Seq<char>| #[trigger]
            self.index@.contains_key(w) ==> {
                &&& self.index@[w] < self.entries.len()
                &&& self.entries[self.index@[w] as int].0@ == w
            }
    }

    /// The invariant in terms of the view: the entries list the multiset.
    proof fn lemma_inv(self)
        requires
            self.inv(),
        ensures
            lists(self.entries.deep_view(), self@),
    {
        let entries = self.entries.deep_view();
        assert forall|i: int, j: int| 0 <= i < j < entries.len() implies (#[trigger] entries[i]).0
            != (#[trigger] entries[j]).0 by {
            assert(entries[i].0 == self.entries[i].0@);
            assert(entries[j].0 == self.entries[j].0@);
        }
        assert forall|i: int| 0 <= i < entries.len() implies (#[trigger] entries[i]).1 >= 1 by {
            assert(entries[i].1 == self.entries[i].1);
        }
        lemma_tally_lists(entries);
    }

    /// A map in which no word occurs.
    pub fn new() -> (m: Self)
        ensures
            m@ == Multiset::<Seq<char>>::empty(),
    {
        let m = FrequencyMap { index: StringHashMap::new(), entries: Vec::new() };
        assert(m.entries.deep_view() == Seq::<Entry>::empty());
        m
    }

    /// The number of different words.
    pub fn len(&self) -> (n: usize)
        ensures
            n == self@.dom().len(),
    {
        proof {
            use_type_invariant(self);
            self.lemma_inv();
            lemma_lists_len(self.entries.deep_view(), self@);
        }
        self.entries.len()
    }

    /// Whether no word occurs.
    pub fn is_empty(&self) -> (b: bool)
        ensures
            b == (self@ == Multiset::<Seq<char>>::empty()),
    {
        proof {
            use_type_invariant(self);
            self.lemma_inv();
            let entries = self.entries.deep_view();
            if entries.len() > 0 {
                assert(self@.count(entries[0].0) > 0);
            } else {
                assert(self@ == Multiset::<Seq<char>>::empty());
            }
        }
        self.entries.len() == 0
    }

    /// How often `word` occurs.
    pub fn count(&self, word: &str) -> (n: usize)
        ensures
            n == self@.count(word@),
    {
        proof {
            use_type_invariant(self);
            self.lemma_inv();
        }
        let ghost entries = self.entries.deep_view();
        match self.index.get(word) {
            Some(p) => {
                assert(entries[*p as int].0 == word@);
                self.entries[*p].1
            },
            None => {
                proof {
                    assert forall|i: int| 0 <= i < entries.len() implies (#[trigger] entries[i]).0
                        != word@ by {
                        assert(entries[i].0 == self.entries[i].0@);
                    }
                    lemma_tally_absent(entries, word@);
                }
                0
            },
        }
    }

    /// Counts `n` more occurrences of `word`.
    pub fn add(&mut self, word: String, n: usize)
        requires
            old(self)@.count(word@) + n <= usize::MAX,
        ensures
            final(self)@ == old(self)@.add(copies(word@, n as nat)),
    {
        proof {
            use_type_invariant(&*self);
            self.lemma_inv();
            lemma_copies(word@, n as nat);
        }
        let ghost before = self.entries.deep_view();
        if n == 0 {
            assert(self@ =~= self@.add(copies(word@, 0)));
            return ;
        }
        let mut taken = FrequencyMap::new();
        std::mem::swap(self, &mut taken);
        let FrequencyMap { mut index, mut entries } = taken;
        let found: Option<usize> = match index.get(word.as_str()) {
            Some(p) => Some(*p),
            None => None,
        };
        match found {
            Some(p) => {
                let c = entries[p].1;
                assert(before[p as int].0 == word@);
                assert(before[p as int].1 == c);
                entries.set(p, (word, c + n));
                proof {
                    let after = entries.deep_view();
                    assert(after =~= before.update(p as int, (word@, (c + n) as usize)));
                    lemma_update_entry(before, p as int, n);
                }
            },
            None => {
                let key = word.clone();
                index.insert(key, entries.len());
                entries.push((word, n));
                proof {
                    let after = entries.deep_view();
                    assert(after =~= before.push((word@, n)));
                    assert(after.drop_last() == before);
                }
            },
        }
        *self = FrequencyMap { index, entries };
    }

    /// The words, each once, with their counts, in no particular order.
    pub fn entries(&self) -> (entries: &Vec<(String, usize)>)
        ensures
            lists(entries.deep_view(), self@),
    {
        proof {
            use_type_invariant(self);
            self.lemma_inv();
        }
        &self.entries
    }

    /// Whether `other` can be merged into this map.
    pub fn fits(&self, other: &FrequencyMap) -> (r: bool)
        ensures
            r == can_merge(self@, other@),
    {
        let theirs = other.entries();
        let ghost listed = theirs.deep_view();
        proof {
            use_type_invariant(self);
            self.lemma_inv();
            lemma_lists_fit(self.entries.deep_view(), self@);
        }
        let mut i: usize = 0;
        while i < theirs.len()
            invariant
                i <= theirs.len(),
                listed == theirs.deep_view(),
                lists(listed, other@),
                forall|w: Seq<char>| self@.count(w) <= usize::MAX,
                forall|j: int|
                    0 <= j < i ==> self@.count((#[trigger] listed[j]).0) + listed[j].1
                        <= usize::MAX,
            decreases theirs.len() - i,
        {
            let entry = &theirs[i];
            assert(listed[i as int] == (entry.0@, entry.1));
            let ours = self.count(entry.0.as_str());
            if ours > usize::MAX - entry.1 {
                assert(self@.count(entry.0@) + other@.count(entry.0@) > usize::MAX);
                return false;
            }
            i = i + 1;
        }
        proof {
            assert forall|w: Seq<char>| self@.count(w) + other@.count(w) <= usize::MAX by {
                if other@.count(w) > 0 {
                    let j = choose|j: int| 0 <= j < listed.len() && (#[trigger] listed[j]).0 == w;
                    assert(other@.count(w) == listed[j].1);
                }
            }
        }
        true
    }

    /// The words, each once, with their counts, in no particular order; the
    /// map is used up.
    pub fn into_entries(self) -> (entries: Vec<(String, usize)>)
        ensures
            lists(entries.deep_view(), self@),
    {
        proof {
            use_type_invariant(&self);
            self.lemma_inv();
        }
        self.entries
    }
}

/// Raising the count of one entry by `n` adds `n` copies of its word to the
/// tally.
proof fn lemma_update_entry(entries: Seq<Entry>, p: int, n: usize)
    requires
        distinct_words(entries),
        0 <= p < entries.len(),
        entries[p].1 + n <= usize::MAX,
    ensures
        tally(entries.update(p, (entries[p].0, (entries[p].1 + n) as usize))) == tally(
            entries,
        ).add(copies(entries[p].0, n as nat)),
{
    let word = entries[p].0;
    let after = entries.update(p, (word, (entries[p].1 + n) as usize));
    lemma_copies(word, n as nat);
    assert(distinct_words(after)) by {
        assert forall|i: int, j: int| 0 <= i < j < after.len() implies (#[trigger] after[i]).0 != (
        #[trigger] after[j]).0 by {
            assert(after[i].0 == entries[i].0);
            assert(after[j].0 == entries[j].0);
        }
    }
    assert forall|w: Seq<char>| tally(after).count(w) == tally(entries).count(w) + copies(
        word,
        n as nat,
    ).count(w) by {
        if exists|i: int| 0 <= i < entries.len() && (#[trigger] entries[i]).0 == w {
            let i = choose|i: int| 0 <= i < entries.len() && (#[trigger] entries[i]).0 == w;
            lemma_tally_at(entries, i);
            lemma_tally_at(after, i);
            assert(after[i].0 == w);
        } else {
            assert forall|i: int| 0 <= i < after.len() implies (#[trigger] after[i]).0 != w by {
                assert(after[i].0 == entries[i].0);
            }
            lemma_tally_absent(entries, w);
            lemma_tally_absent(after, w);
        }
    }
    assert(tally(after) =~= tally(entries).add(copies(word, n as nat)));
}

} // verus!
