//! The transition table: each word mapped to the ordered list of words seen
//! right after it. Keys are held in a vector sorted by `word_lt`, so they are
//! unique and come out in a deterministic order.

use crate::words::{compare_words, word_lt, word_views};
use std::cmp::Ordering;
use vstd::prelude::*;

verus! {

/// One entry of a table: a word and its successor list.
pub type EntryView = (Seq<char>, Seq<Seq<char>>);

/// The map that a list of entries describes; a later entry for a word
/// replaces an earlier one.
pub open spec fn table_of(es: Seq<EntryView>) -> Map<Seq<char>, Seq<Seq<char>>>
    decreases es.len(),
{
    if es.len() == 0 {
        Map::empty()
    } else {
        table_of(es.drop_last()).insert(es.last().0, es.last().1)
    }
}

/// The entries' words are strictly increasing.
pub open spec fn keys_sorted(es: Seq<EntryView>) -> bool {
    forall|i: int, j: int| 0 <= i < j < es.len() ==> word_lt(#[trigger] es[i].0, #[trigger] es[j].0)
}

/// The successor list of `k`, empty where `k` is no key.
pub open spec fn successors_in(t: Map<Seq<char>, Seq<Seq<char>>>, k: Seq<char>) -> Seq<Seq<char>> {
    if t.contains_key(k) {
        t[k]
    } else {
        Seq::empty()
    }
}

/// `k` is a key with at least one successor.
pub open spec fn productive(t: Map<Seq<char>, Seq<Seq<char>>>, k: Seq<char>) -> bool {
    t.contains_key(k) && t[k].len() > 0
}

/// Some key has at least one successor.
pub open spec fn has_productive(t: Map<Seq<char>, Seq<Seq<char>>>) -> bool {
    exists|k: Seq<char>| productive(t, k)
}

/// `c` lists the keys of `t` that have successors, each once, in increasing
/// order.
pub open spec fn productive_list(t: Map<Seq<char>, Seq<Seq<char>>>, c: Seq<Seq<char>>) -> bool {
    &&& forall|i: int| 0 <= i < c.len() ==> productive(t, #[trigger] c[i])
    &&& forall|k: Seq<char>| productive(t, k) ==> c.contains(k)
    &&& forall|i: int, j: int| 0 <= i < j < c.len() ==> word_lt(#[trigger] c[i], #[trigger] c[j])
}

/// With distinct words, the map holds exactly the entries.
pub proof fn lemma_table_of_distinct(es: Seq<EntryView>)
    requires
        forall|i: int, j: int| 0 <= i < j < es.len() ==> (#[trigger] es[i]).0 != (#[trigger] es[j]).0,
    ensures
        forall|i: int| 0 <= i < es.len() ==> table_of(es).contains_key(#[trigger] es[i].0) && table_of(es)[es[i].0] == es[i].1,
        forall|k: Seq<char>| #[trigger] table_of(es).contains_key(k) ==> exists|i: int| 0 <= i < es.len() && es[i].0 == k,
    decreases es.len(),
{
    if es.len() > 0 {
        let p = es.drop_last();
        lemma_table_of_distinct(p);
        assert forall|i: int| 0 <= i < es.len() implies table_of(es).contains_key(#[trigger] es[i].0) && table_of(es)[es[i].0] == es[i].1 by {
            if i < es.len() - 1 {
                assert(p[i] == es[i]);
                assert(es[i].0 != es[es.len() - 1].0);
            }
        }
        assert forall|k: Seq<char>| #[trigger] table_of(es).contains_key(k) implies exists|i: int| 0 <= i < es.len() && es[i].0 == k by {
            if k != es.last().0 {
                assert(table_of(p).contains_key(k));
                let i = choose|i: int| 0 <= i < p.len() && p[i].0 == k;
                assert(es[i] == p[i]);
            } else {
                assert(es[es.len() - 1].0 == k);
            }
        }
    }
}

/// With distinct words, the map has one key per entry.
pub proof fn lemma_table_of_len(es: Seq<EntryView>)
    requires
        forall|i: int, j: int| 0 <= i < j < es.len() ==> (#[trigger] es[i]).0 != (#[trigger] es[j]).0,
    ensures
        table_of(es).dom().finite(),
        table_of(es).dom().len() == es.len(),
    decreases es.len(),
{
    if es.len() > 0 {
        let p = es.drop_last();
        lemma_table_of_len(p);
        lemma_table_of_distinct(p);
        if table_of(p).contains_key(es.last().0) {
            let i = choose|i: int| 0 <= i < p.len() && p[i].0 == es.last().0;
            assert(es[i].0 != es[es.len() - 1].0);
        }
        assert(table_of(es).dom() =~= table_of(p).dom().insert(es.last().0));
    }
}

/// Dropping the last of distinct entries removes its word from the map.
proof fn lemma_table_of_drop_last(es: Seq<EntryView>)
    requires
        es.len() > 0,
        forall|i: int, j: int| 0 <= i < j < es.len() ==> (#[trigger] es[i]).0 != (#[trigger] es[j]).0,
    ensures
        table_of(es.drop_last()) == table_of(es).remove(es.last().0),
{
    let p = es.drop_last();
    lemma_table_of_distinct(p);
    if table_of(p).contains_key(es.last().0) {
        let i = choose|i: int| 0 <= i < p.len() && p[i].0 == es.last().0;
        assert(es[i].0 != es[es.len() - 1].0);
    }
    assert(table_of(p) =~= table_of(es).remove(es.last().0));
}

/// A table has one sorted list of entries: two sorted lists that describe
/// the same map are equal. So what is exported depends on the map alone.
pub proof fn lemma_sorted_entries_unique(es: Seq<EntryView>, fs: Seq<EntryView>)
    requires
        keys_sorted(es),
        keys_sorted(fs),
        table_of(es) == table_of(fs),
    ensures
        es == fs,
    decreases es.len(),
{
    lemma_sorted_distinct(es);
    lemma_sorted_distinct(fs);
    lemma_table_of_len(es);
    lemma_table_of_len(fs);
    lemma_table_of_distinct(es);
    lemma_table_of_distinct(fs);
    if es.len() == 0 {
        assert(es =~= fs);
    } else {
        let n = es.len() - 1;
        let a = es[n].0;
        let b = fs[n].0;
        assert(table_of(es).contains_key(a));
        assert(table_of(fs).contains_key(b));
        let j = choose|j: int| 0 <= j < fs.len() && fs[j].0 == a;
        let i = choose|i: int| 0 <= i < es.len() && es[i].0 == b;
        if a != b {
            crate::words::lemma_word_lt_irreflexive(a);
            if j < n && i < n {
                assert(word_lt(fs[j].0, fs[n].0));
                assert(word_lt(es[i].0, es[n].0));
                crate::words::lemma_word_lt_transitive(a, b, a);
            }
        }
        assert(a == b);
        assert(table_of(es)[a] == es[n].1);
        assert(table_of(fs)[b] == fs[n].1);
        lemma_table_of_drop_last(es);
        lemma_table_of_drop_last(fs);
        let ep = es.drop_last();
        let fp = fs.drop_last();
        assert forall|x: int, y: int| 0 <= x < y < ep.len() implies word_lt(#[trigger] ep[x].0, #[trigger] ep[y].0) by {
            assert(ep[x] == es[x] && ep[y] == es[y]);
        }
        assert forall|x: int, y: int| 0 <= x < y < fp.len() implies word_lt(#[trigger] fp[x].0, #[trigger] fp[y].0) by {
            assert(fp[x] == fs[x] && fp[y] == fs[y]);
        }
        lemma_sorted_entries_unique(ep, fp);
        assert(es =~= ep.push(es[n]));
        assert(fs =~= fp.push(fs[n]));
    }
}

/// The entries of a list of word and successor-list pairs.
pub open spec fn entry_views(e: Seq<(String, Vec<String>)>) -> Seq<EntryView> {
    e.map_values(|p: (String, Vec<String>)| (p.0@, word_views(p.1@)))
}

/// Sorted words are distinct.
pub proof fn lemma_sorted_distinct(es: Seq<EntryView>)
    requires
        keys_sorted(es),
    ensures
        forall|i: int, j: int| 0 <= i < j < es.len() ==> (#[trigger] es[i]).0 != (#[trigger] es[j]).0,
{
    assert forall|i: int, j: int| 0 <= i < j < es.len() implies (#[trigger] es[i]).0 != (#[trigger] es[j]).0 by {
        crate::words::lemma_word_lt_irreflexive(es[i].0);
        assert(word_lt(es[i].0, es[j].0));
    }
}

/// Replacing the successor list of the entry at `i` replaces it in the map.
pub proof fn lemma_table_update(es: Seq<EntryView>, i: int, v: Seq<Seq<char>>)
    requires
        keys_sorted(es),
        0 <= i < es.len(),
    ensures
        keys_sorted(es.update(i, (es[i].0, v))),
        table_of(es.update(i, (es[i].0, v))) == table_of(es).insert(es[i].0, v),
{
    let fs = es.update(i, (es[i].0, v));
    assert forall|x: int, y: int| 0 <= x < y < fs.len() implies word_lt(#[trigger] fs[x].0, #[trigger] fs[y].0) by {
        assert(fs[x].0 == es[x].0 && fs[y].0 == es[y].0);
    }
    lemma_sorted_distinct(es);
    lemma_sorted_distinct(fs);
    lemma_table_of_distinct(es);
    lemma_table_of_distinct(fs);
    let a = table_of(fs);
    let b = table_of(es).insert(es[i].0, v);
    assert forall|w: Seq<char>| a.contains_key(w) <==> b.contains_key(w) by {
        if a.contains_key(w) {
            let x = choose|x: int| 0 <= x < fs.len() && fs[x].0 == w;
            assert(table_of(es).contains_key(es[x].0));
        }
        if table_of(es).contains_key(w) {
            let x = choose|x: int| 0 <= x < es.len() && es[x].0 == w;
            assert(a.contains_key(fs[x].0));
        }
        assert(a.contains_key(fs[i].0));
    }
    assert forall|w: Seq<char>| a.contains_key(w) implies a[w] == b[w] by {
        let x = choose|x: int| 0 <= x < fs.len() && fs[x].0 == w;
        assert(a[fs[x].0] == fs[x].1);
        if x != i {
            assert(table_of(es)[es[x].0] == es[x].1);
        }
    }
    assert(a =~= b);
}

/// Inserting an entry for a new word at its place in the order adds it to
/// the map.
pub proof fn lemma_table_insert(es: Seq<EntryView>, p: int, k: Seq<char>, v: Seq<Seq<char>>)
    requires
        keys_sorted(es),
        0 <= p <= es.len(),
        forall|j: int| 0 <= j < p ==> word_lt(#[trigger] es[j].0, k),
        forall|j: int| p <= j < es.len() ==> word_lt(k, #[trigger] es[j].0),
    ensures
        keys_sorted(es.insert(p, (k, v))),
        table_of(es.insert(p, (k, v))) == table_of(es).insert(k, v),
{
    let fs = es.insert(p, (k, v));
    assert forall|x: int, y: int| 0 <= x < y < fs.len() implies word_lt(#[trigger] fs[x].0, #[trigger] fs[y].0) by {
        if y < p {
        } else if y == p {
        } else if x < p {
            assert(fs[y] == es[y - 1]);
            crate::words::lemma_word_lt_transitive(es[x].0, k, es[y - 1].0);
        } else if x == p {
            assert(fs[y] == es[y - 1]);
        } else {
            assert(fs[y] == es[y - 1] && fs[x] == es[x - 1]);
        }
    }
    lemma_sorted_distinct(es);
    lemma_sorted_distinct(fs);
    lemma_table_of_distinct(es);
    lemma_table_of_distinct(fs);
    let a = table_of(fs);
    let b = table_of(es).insert(k, v);
    assert forall|w: Seq<char>| a.contains_key(w) <==> b.contains_key(w) by {
        if a.contains_key(w) && w != k {
            let x = choose|x: int| 0 <= x < fs.len() && fs[x].0 == w;
            if x < p {
                assert(table_of(es).contains_key(es[x].0));
            } else {
                assert(x != p);
                assert(fs[x] == es[x - 1]);
                assert(table_of(es).contains_key(es[x - 1].0));
            }
        }
        if table_of(es).contains_key(w) {
            let x = choose|x: int| 0 <= x < es.len() && es[x].0 == w;
            if x < p {
                assert(a.contains_key(fs[x].0));
            } else {
                assert(fs[x + 1] == es[x]);
                assert(a.contains_key(fs[x + 1].0));
            }
        }
        assert(a.contains_key(fs[p].0));
    }
    assert forall|w: Seq<char>| a.contains_key(w) implies a[w] == b[w] by {
        let x = choose|x: int| 0 <= x < fs.len() && fs[x].0 == w;
        assert(a[fs[x].0] == fs[x].1);
        if x < p {
            assert(table_of(es)[es[x].0] == es[x].1);
            crate::words::lemma_word_lt_irreflexive(k);
        } else if x > p {
            assert(fs[x] == es[x - 1]);
            assert(table_of(es)[es[x - 1].0] == es[x - 1].1);
            crate::words::lemma_word_lt_irreflexive(k);
        }
    }
    assert(a =~= b);
}

/// A copy of a list of words.
pub fn copy_words(v: &Vec<String>) -> (r: Vec<String>)
    ensures
        word_views(r@) == word_views(v@),
{
    let mut out: Vec<String> = Vec::new();
    let mut i: usize = 0;
    while i < v.len()
        invariant
            i <= v@.len(),
            word_views(out@) == word_views(v@).take(i as int),
        decreases v@.len() - i,
    {
        let ghost prev = out@;
        let w = v[i].clone();
        assert(w@ == v@[i as int]@);
        out.push(w);
        assert(out@ == prev.push(w));
        assert(word_views(prev).len() == i);
        assert(out@.len() == i + 1);
        assert(out@[i as int] == w);
        assert(word_views(out@)[i as int] == w@);
        assert(word_views(out@)[i as int] == word_views(v@)[i as int]);
        assert(word_views(out@) =~= word_views(v@).take(i + 1));
        i = i + 1;
    }
    assert(word_views(v@).take(v@.len() as int) =~= word_views(v@));
    out
}

/// A transition table held as parallel vectors of words and successor
/// lists, with the words in strictly increasing order.
pub struct TransitionTable {
    keys: Vec<String>,
    succs: Vec<Vec<String>>,
}

impl View for TransitionTable {
    type V = Map<Seq<char>, Seq<Seq<char>>>;

    open spec fn view(&self) -> Map<Seq<char>, Seq<Seq<char>>> {
        table_of(self.entries())
    }
}

impl TransitionTable {
    /// The entries in the order in which they are held.
    pub closed spec fn entries(&self) -> Seq<EntryView> {
        Seq::new(self.keys@.len(), |i: int| (self.keys@[i]@, word_views(self.succs@[i]@)))
    }

    /// The vectors agree in length and the words are strictly increasing.
    pub closed spec fn wf(&self) -> bool {
        &&& self.keys@.len() == self.succs@.len()
        &&& keys_sorted(self.entries())
    }

    /// An empty table.
    pub fn new() -> (r: TransitionTable)
        ensures
            r.wf(),
            r@ == Map::<Seq<char>, Seq<Seq<char>>>::empty(),
            r.entries().len() == 0,
    {
        let r = TransitionTable { keys: Vec::new(), succs: Vec::new() };
        assert(r.entries() =~= Seq::<EntryView>::empty());
        r
    }

    /// An empty table with room reserved for `capacity` words.
    pub fn with_capacity(capacity: usize) -> (r: TransitionTable)
        ensures
            r.wf(),
            r@ == Map::<Seq<char>, Seq<Seq<char>>>::empty(),
    {
        let r = TransitionTable { keys: Vec::with_capacity(capacity), succs: Vec::with_capacity(capacity) };
        assert(r.entries() =~= Seq::<EntryView>::empty());
        r
    }

    /// The number of words with an entry.
    pub fn len(&self) -> (r: usize)
        requires
            self.wf(),
        ensures
            r == self.entries().len(),
            r == self@.dom().len(),
            self@.dom().finite(),
    {
        proof {
            lemma_sorted_distinct(self.entries());
            lemma_table_of_len(self.entries());
        }
        self.keys.len()
    }

    /// A table with no entries has no keys.
    pub proof fn lemma_len_zero(&self)
        requires
            self.wf(),
            self.entries().len() == 0,
        ensures
            self@.dom() == Set::<Seq<char>>::empty(),
    {
        assert(self@.dom() =~= Set::<Seq<char>>::empty());
    }

    /// The successor list of `w`, if it is a key.
    pub fn get(&self, w: &str) -> (r: Option<&Vec<String>>)
        requires
            self.wf(),
        ensures
            r is Some <==> self@.contains_key(w@),
            r matches Some(v) ==> word_views(v@) == self@[w@],
    {
        match self.find(w) {
            Ok(i) => Some(&self.succs[i]),
            Err(_) => None,
        }
    }

    /// Looks `w` up: `Ok` with the index of its entry, or `Err` with the
    /// place where an entry for it would go.
    pub fn find(&self, w: &str) -> (r: Result<usize, usize>)
        requires
            self.wf(),
        ensures
            match r {
                Ok(i) => i < self.entries().len() && self.entries()[i as int].0 == w@,
                Err(p) => {
                    &&& p <= self.entries().len()
                    &&& forall|j: int| 0 <= j < p ==> word_lt(#[trigger] self.entries()[j].0, w@)
                    &&& forall|j: int| p <= j < self.entries().len() ==> word_lt(w@, #[trigger] self.entries()[j].0)
                },
            },
            r is Ok <==> self@.contains_key(w@),
            r matches Ok(i) ==> self@[w@] == self.entries()[i as int].1,
    {
        let ghost es = self.entries();
        let mut lo: usize = 0;
        let mut hi: usize = self.keys.len();
        while lo < hi
            invariant
                self.wf(),
                es == self.entries(),
                lo <= hi <= es.len(),
                forall|j: int| 0 <= j < lo ==> word_lt(#[trigger] es[j].0, w@),
                forall|j: int| hi <= j < es.len() ==> word_lt(w@, #[trigger] es[j].0),
            decreases hi - lo,
        {
            let mid = lo + (hi - lo) / 2;
            match compare_words(self.keys[mid].as_str(), w) {
                Ordering::Less => {
                    assert forall|j: int| 0 <= j < mid + 1 implies word_lt(#[trigger] es[j].0, w@) by {
                        if j < mid {
                            crate::words::lemma_word_lt_transitive(es[j].0, es[mid as int].0, w@);
                        }
                    }
                    lo = mid + 1;
                },
                Ordering::Equal => {
                    proof {
                        lemma_sorted_distinct(es);
                        lemma_table_of_distinct(es);
                    }
                    assert(es[mid as int].0 == w@);
                    assert(table_of(es).contains_key(es[mid as int].0));
                    return Ok(mid);
                },
                Ordering::Greater => {
                    assert forall|j: int| mid <= j < es.len() implies word_lt(w@, #[trigger] es[j].0) by {
                        if j > mid {
                            crate::words::lemma_word_lt_transitive(w@, es[mid as int].0, es[j].0);
                        }
                    }
                    hi = mid;
                },
            }
        }
        proof {
            self.lemma_absent(w@, lo as int);
        }
        Err(lo)
    }

    /// A word that falls strictly between the entries' words is no key.
    proof fn lemma_absent(&self, w: Seq<char>, p: int)
        requires
            self.wf(),
            0 <= p <= self.entries().len(),
            forall|j: int| 0 <= j < p ==> word_lt(#[trigger] self.entries()[j].0, w),
            forall|j: int| p <= j < self.entries().len() ==> word_lt(w, #[trigger] self.entries()[j].0),
        ensures
            !self@.contains_key(w),
    {
        let es = self.entries();
        lemma_sorted_distinct(es);
        lemma_table_of_distinct(es);
        if self@.contains_key(w) {
            let j = choose|j: int| 0 <= j < es.len() && es[j].0 == w;
            crate::words::lemma_word_lt_irreflexive(w);
            if j < p {
                assert(word_lt(es[j].0, w));
            } else {
                assert(word_lt(w, es[j].0));
            }
        }
    }

    /// Appends `next` to the successor list of `w`, adding an entry for `w`
    /// where there is none.
    pub fn push_successor(&mut self, w: &str, next: String)
        requires
            old(self).wf(),
        ensures
            final(self).wf(),
            final(self)@ == old(self)@.insert(w@, successors_in(old(self)@, w@).push(next@)),
    {
        let ghost es = self.entries();
        match self.find(w) {
            Ok(i) => {
                let mut list: Vec<String> = Vec::new();
                self.succs.set_and_swap(i, &mut list);
                let ghost before = list@;
                list.push(next);
                self.succs.set(i, list);
                proof {
                    assert(word_views(before) == es[i as int].1);
                    assert(word_views(self.succs@[i as int]@) =~= word_views(before).push(next@));
                    lemma_table_update(es, i as int, es[i as int].1.push(next@));
                    assert(self.entries() =~= es.update(i as int, (es[i as int].0, es[i as int].1.push(next@))));
                }
            },
            Err(p) => {
                let mut list: Vec<String> = Vec::new();
                list.push(next);
                self.keys.insert(p, w.to_owned());
                self.succs.insert(p, list);
                proof {
                    assert(word_views(list@) =~= seq![next@]);
                    lemma_table_insert(es, p as int, w@, seq![next@]);
                    assert(self.entries() =~= es.insert(p as int, (w@, seq![next@])));
                    assert(Seq::<Seq<char>>::empty().push(next@) =~= seq![next@]);
                }
            },
        }
    }

    /// Makes `list` the successor list of `w`, replacing any earlier one.
    pub fn set_successors(&mut self, w: String, list: Vec<String>)
        requires
            old(self).wf(),
        ensures
            final(self).wf(),
            final(self)@ == old(self)@.insert(w@, word_views(list@)),
    {
        let ghost es = self.entries();
        let ghost v = word_views(list@);
        match self.find(w.as_str()) {
            Ok(i) => {
                self.succs.set(i, list);
                proof {
                    lemma_table_update(es, i as int, v);
                    assert(self.entries() =~= es.update(i as int, (es[i as int].0, v)));
                }
            },
            Err(p) => {
                self.keys.insert(p, w);
                self.succs.insert(p, list);
                proof {
                    lemma_table_insert(es, p as int, w@, v);
                    assert(self.entries() =~= es.insert(p as int, (w@, v)));
                }
            },
        }
    }

    /// The words that have at least one successor, in increasing order.
    pub fn productive_words(&self) -> (r: Vec<String>)
        requires
            self.wf(),
        ensures
            productive_list(self@, word_views(r@)),
    {
        let ghost es = self.entries();
        proof {
            lemma_sorted_distinct(es);
            lemma_table_of_distinct(es);
        }
        let mut out: Vec<String> = Vec::new();
        let n = self.keys.len();
        let mut i: usize = 0;
        while i < n
            invariant
                self.wf(),
                es == self.entries(),
                n == es.len(),
                i <= n,
                forall|j: int| 0 <= j < es.len() ==> table_of(es).contains_key(#[trigger] es[j].0) && table_of(es)[es[j].0] == es[j].1,
                forall|k: Seq<char>| #[trigger] table_of(es).contains_key(k) ==> exists|j: int| 0 <= j < es.len() && es[j].0 == k,
                forall|x: int| 0 <= x < out@.len() ==> productive(self@, #[trigger] word_views(out@)[x]),
                forall|j: int| 0 <= j < i && es[j].1.len() > 0 ==> word_views(out@).contains(#[trigger] es[j].0),
                forall|x: int| 0 <= x < out@.len() ==> exists|j: int| 0 <= j < i && es[j].0 == #[trigger] word_views(out@)[x],
                forall|x: int, y: int| 0 <= x < y < out@.len() ==> word_lt(#[trigger] word_views(out@)[x], #[trigger] word_views(out@)[y]),
            decreases n - i,
        {
            let ghost prev = word_views(out@);
            if self.succs[i].len() > 0 {
                assert(es[i as int].1.len() > 0);
                out.push(self.keys[i].clone());
                let ghost cur = word_views(out@);
                assert(cur =~= prev.push(es[i as int].0));
                assert forall|x: int, y: int| 0 <= x < y < cur.len() implies word_lt(#[trigger] cur[x], #[trigger] cur[y]) by {
                    if y == cur.len() - 1 {
                        let j = choose|j: int| 0 <= j < i && es[j].0 == prev[x];
                        assert(word_lt(es[j].0, es[i as int].0));
                    } else {
                        assert(cur[x] == prev[x] && cur[y] == prev[y]);
                    }
                }
                assert forall|x: int| 0 <= x < cur.len() implies exists|j: int| 0 <= j < i + 1 && es[j].0 == #[trigger] cur[x] by {
                    if x < prev.len() {
                        assert(cur[x] == prev[x]);
                        let j = choose|j: int| 0 <= j < i && es[j].0 == prev[x];
                    } else {
                        assert(es[i as int].0 == cur[x]);
                    }
                }
                assert forall|j: int| 0 <= j < i + 1 && es[j].1.len() > 0 implies cur.contains(#[trigger] es[j].0) by {
                    if j < i {
                        assert(prev.contains(es[j].0));
                        let x = choose|x: int| 0 <= x < prev.len() && prev[x] == es[j].0;
                        assert(cur[x] == prev[x]);
                    } else {
                        assert(cur[cur.len() - 1] == es[j].0);
                    }
                }
            }
            i = i + 1;
        }
        assert forall|k: Seq<char>| productive(self@, k) implies word_views(out@).contains(k) by {
            let j = choose|j: int| 0 <= j < es.len() && es[j].0 == k;
            assert(es[j].1.len() > 0);
        }
        out
    }

    /// The entries in increasing order of their words.
    pub fn to_entries(&self) -> (r: Vec<(String, Vec<String>)>)
        requires
            self.wf(),
        ensures
            keys_sorted(entry_views(r@)),
            table_of(entry_views(r@)) == self@,
    {
        let mut out: Vec<(String, Vec<String>)> = Vec::new();
        let n = self.keys.len();
        let mut i: usize = 0;
        while i < n
            invariant
                self.wf(),
                n == self.entries().len(),
                i <= n,
                entry_views(out@) == self.entries().take(i as int),
            decreases n - i,
        {
            let ghost prev = out@;
            let list = copy_words(&self.succs[i]);
            let k = self.keys[i].clone();
            assert(k@ == self.keys@[i as int]@);
            out.push((k, list));
            assert(out@ == prev.push((k, list)));
            assert(entry_views(prev).len() == i);
            assert(out@.len() == i + 1);
            assert(out@[i as int] == (k, list));
            assert(entry_views(out@)[i as int] == (k@, word_views(list@)));
            assert(self.entries()[i as int] == (self.keys@[i as int]@, word_views(self.succs@[i as int]@)));
            assert(entry_views(out@)[i as int] == self.entries()[i as int]);
            assert(entry_views(out@) =~= self.entries().take(i + 1));
            i = i + 1;
        }
        assert(self.entries().take(n as int) =~= self.entries());
        out
    }
}

} // verus!
