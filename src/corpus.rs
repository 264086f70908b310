//! Export and import of the transition table as JSON: a list of
//! `[word, [successor, ...]]` entries.

use crate::chain::MarkovChain;
use crate::table::{entry_views, keys_sorted, lemma_sorted_entries_unique, table_of, EntryView, TransitionTable};
use vstd::prelude::*;

verus! {

#[verifier::external_type_specification]
#[verifier::external_body]
pub struct ExJsonError(serde_json::Error);

/// The JSON text that encodes a list of entries.
pub uninterp spec fn corpus_json(es: Seq<EntryView>) -> Seq<char>;

/// The entries that a JSON text holds, or none where it is not a list of
/// `[word, [successor, ...]]` entries.
pub uninterp spec fn parsed_corpus(text: Seq<char>) -> Option<Seq<EntryView>>;

/// Relies on `serde_json::to_string`, which writes the list as a JSON array
/// of two-element arrays; the text depends on the entries alone. It fails
/// only where a `Serialize` impl fails or a map has non-string keys, neither
/// of which strings, tuples and vectors do.
#[verifier::external_body]
fn encode_corpus(entries: &Vec<(String, Vec<String>)>) -> (r: Result<String, serde_json::Error>)
    ensures
        r is Ok,
        r matches Ok(s) ==> s@ == corpus_json(entry_views(entries@)),
{
    serde_json::to_string(entries)
}

/// Relies on `serde_json::from_str`, which reads a JSON array of
/// `[string, [string, ...]]` entries, or fails; the outcome depends on the
/// text alone.
#[verifier::external_body]
fn decode_corpus(text: &str) -> (r: Result<Vec<(String, Vec<String>)>, serde_json::Error>)
    ensures
        match r {
            Ok(v) => parsed_corpus(text@) == Some(entry_views(v@)),
            Err(_) => parsed_corpus(text@) is None,
        },
{
    serde_json::from_str::<Vec<(String, Vec<String>)>>(text)
}

/// Every word of a list of entries, as a key or as a successor.
pub open spec fn words_in(es: Seq<EntryView>) -> Set<Seq<char>> {
    Set::new(|w: Seq<char>| exists|i: int| 0 <= i < es.len() && (es[i].0 == w || es[i].1.contains(w)))
}

/// Equal tables export the same text: the text is the encoding of the one
/// sorted entry list that describes the table.
pub proof fn lemma_export_determined(t: Map<Seq<char>, Seq<Seq<char>>>, es: Seq<EntryView>, fs: Seq<EntryView>)
    requires
        keys_sorted(es),
        keys_sorted(fs),
        table_of(es) == t,
        table_of(fs) == t,
    ensures
        corpus_json(es) == corpus_json(fs),
{
    lemma_sorted_entries_unique(es, fs);
}

/// Exporting, importing what was exported and exporting again gives the same
/// entries: `import_entries` makes the table `table_of(es)`, and the sorted
/// entries of that table are `es` again.
pub proof fn lemma_round_trip(es: Seq<EntryView>, again: Seq<EntryView>)
    requires
        keys_sorted(es),
        keys_sorted(again),
        table_of(again) == table_of(es),
    ensures
        again == es,
{
    lemma_sorted_entries_unique(again, es);
}

impl MarkovChain {
    /// The table's entries, in increasing order of their words, each with
    /// its successor list as stored.
    pub fn export_entries(&self) -> (r: Vec<(String, Vec<String>)>)
        requires
            self.wf(),
        ensures
            keys_sorted(entry_views(r@)),
            table_of(entry_views(r@)) == self.table(),
    {
        self.table.to_entries()
    }

    /// The table as JSON: its entries in increasing order of their words,
    /// each with its successor list as stored. Equal tables give equal text.
    pub fn export_corpus(&self) -> (r: String)
        requires
            self.wf(),
        ensures
            exists|es: Seq<EntryView>|
                keys_sorted(es) && table_of(es) == self.table() && r@ == corpus_json(es),
    {
        let entries = self.export_entries();
        match encode_corpus(&entries) {
            Ok(s) => s,
            Err(_) => String::new(),
        }
    }

    /// Replaces the table by the given entries, a later entry for a word
    /// replacing an earlier one, and sets the counter to the number of
    /// distinct words among them, keys and successors alike.
    pub fn import_entries(&mut self, entries: Vec<(String, Vec<String>)>)
        requires
            old(self).wf(),
        ensures
            final(self).wf(),
            final(self).table() == table_of(entry_views(entries@)),
            final(self).count() == words_in(entry_views(entries@)).len(),
            words_in(entry_views(entries@)).finite(),
            final(self).policy() == old(self).policy(),
            final(self).cap() == old(self).cap(),
    {
        let ghost es = entry_views(entries@);
        let mut table = TransitionTable::new();
        let mut seen = TransitionTable::new();
        let n = entries.len();
        let mut i: usize = 0;
        assert(words_in(es.take(0)) =~= Set::<Seq<char>>::empty());
        assert(table_of(es.take(0)) =~= Map::<Seq<char>, Seq<Seq<char>>>::empty());
        while i < n
            invariant
                table.wf(),
                seen.wf(),
                n == es.len(),
                es == entry_views(entries@),
                i <= n,
                table@ == table_of(es.take(i as int)),
                seen@.dom() == words_in(es.take(i as int)),
            decreases n - i,
        {
            let key = &entries[i].0;
            let list = &entries[i].1;
            let ghost e = es[i as int];
            assert(e == (key@, crate::words::word_views(list@)));
            let ghost before = es.take(i as int);
            let ghost after = es.take(i + 1);
            assert(after.drop_last() =~= before);
            table.set_successors(key.clone(), crate::table::copy_words(list));
            seen.set_successors(key.clone(), Vec::new());
            let m = list.len();
            let mut j: usize = 0;
            while j < m
                invariant
                    seen.wf(),
                    m == list@.len(),
                    j <= m,
                    e.1 == crate::words::word_views(list@),
                    seen@.dom() == words_in(before).insert(e.0).union(
                        Set::new(|w: Seq<char>| exists|x: int| 0 <= x < j && e.1[x] == w),
                    ),
                decreases m - j,
            {
                let ghost d0 = seen@.dom();
                seen.set_successors(list[j].clone(), Vec::new());
                assert(list@[j as int]@ == e.1[j as int]);
                assert(seen@.dom() =~= words_in(before).insert(e.0).union(
                    Set::new(|w: Seq<char>| exists|x: int| 0 <= x < j + 1 && e.1[x] == w),
                )) by {
                    assert forall|w: Seq<char>| (exists|x: int| 0 <= x < j + 1 && e.1[x] == w) implies
                        d0.insert(e.1[j as int]).contains(w) by {
                        let x = choose|x: int| 0 <= x < j + 1 && e.1[x] == w;
                        if x < j {
                            assert(Set::new(|w: Seq<char>| exists|x: int| 0 <= x < j && e.1[x] == w).contains(w));
                        }
                    }
                }
                j = j + 1;
            }
            proof {
                assert(seen@.dom() =~= words_in(after)) by {
                    assert forall|w: Seq<char>| words_in(after).contains(w) implies seen@.dom().contains(w) by {
                        let x = choose|x: int| 0 <= x < after.len() && (after[x].0 == w || after[x].1.contains(w));
                        if x < i {
                            assert(before[x] == after[x]);
                            assert(words_in(before).contains(w));
                        } else if after[x].0 != w {
                            let y = choose|y: int| 0 <= y < e.1.len() && e.1[y] == w;
                            assert(Set::new(|w: Seq<char>| exists|x: int| 0 <= x < m && e.1[x] == w).contains(w));
                        }
                    }
                    assert forall|w: Seq<char>| seen@.dom().contains(w) implies words_in(after).contains(w) by {
                        if words_in(before).contains(w) {
                            let x = choose|x: int| 0 <= x < before.len() && (before[x].0 == w || before[x].1.contains(w));
                            assert(before[x] == after[x]);
                        } else if w == e.0 {
                            assert(after[i as int] == e);
                        } else {
                            let y = choose|y: int| 0 <= y < m && e.1[y] == w;
                            assert(after[i as int] == e);
                            assert(after[i as int].1.contains(w));
                        }
                    }
                }
            }
            i = i + 1;
        }
        assert(es.take(n as int) =~= es);
        let count = seen.len();
        self.table = table;
        self.word_count = count;
    }

    /// Replaces the table by the entries that the JSON text `json` holds, as
    /// `import_entries` does. Where the text is not such a list, nothing
    /// changes.
    pub fn import_corpus(&mut self, json: String)
        requires
            old(self).wf(),
        ensures
            final(self).wf(),
            match parsed_corpus(json@) {
                Some(es) => {
                    &&& final(self).table() == table_of(es)
                    &&& final(self).count() == words_in(es).len()
                    &&& final(self).policy() == old(self).policy()
                    &&& final(self).cap() == old(self).cap()
                },
                None => *final(self) == *old(self),
            },
    {
        match decode_corpus(json.as_str()) {
            Ok(entries) => self.import_entries(entries),
            Err(_) => {},
        }
    }
}

} // verus!
