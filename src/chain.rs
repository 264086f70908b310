//! The model: a transition table fed with text, and the random walk that
//! generates text from it.

use crate::table::{has_productive, productive, productive_list, successors_in, TransitionTable};
use crate::words::{join_words, joined, split_words, whitespace_words, word_views};
use rand::Rng;
use vstd::prelude::*;

verus! {

/// The number of words that a new model reserves room for by default.
pub const DEFAULT_CAPACITY: u32 = 1000;

/// The most words that a new model reserves room for up front, whatever
/// capacity is asked for; the table grows past it as needed.
pub const MAX_RESERVED_CAPACITY: u32 = 65536;

/// What a walk does at a word with no successors.
#[derive(Clone, Copy, Debug, PartialEq, Eq)]
pub enum DeadEndPolicy {
    /// Jump to a random word that has successors, and go on.
    Teleport,
    /// Stop, and return the words produced so far.
    Terminate,
}

/// Construction options. None of them is required.
pub struct MarkovChainOptions {
    /// The number of distinct words to reserve room for (default
    /// `DEFAULT_CAPACITY`). It
    /// has no effect on behaviour.
    pub initial_capacity: Option<u32>,
    /// What a walk does at a dead end (default `Teleport`).
    pub dead_end: Option<DeadEndPolicy>,
    /// An upper bound on the number of generated words (default: none).
    pub max_length: Option<u32>,
}

/// A first-order word transition model.
///
/// The word counter counts differently on its two paths: ingesting text adds
/// the number of words in the text (held at `usize::MAX`), while importing a
/// corpus sets it to the number of distinct words among the entries.
pub struct MarkovChain {
    pub(crate) table: TransitionTable,
    pub(crate) word_count: usize,
    pub(crate) dead_end: DeadEndPolicy,
    pub(crate) max_length: Option<u32>,
}

/// The words that directly follow an occurrence of `k` in `ws`, in order.
pub open spec fn followers(ws: Seq<Seq<char>>, k: Seq<char>) -> Seq<Seq<char>>
    decreases ws.len(),
{
    if ws.len() < 2 {
        Seq::empty()
    } else {
        let rest = followers(ws.drop_last(), k);
        if ws[ws.len() - 2] == k {
            rest.push(ws.last())
        } else {
            rest
        }
    }
}

/// The words of `ws` that some word follows.
pub open spec fn sources(ws: Seq<Seq<char>>) -> Set<Seq<char>> {
    Set::new(|k: Seq<char>| exists|i: int| 0 <= i < ws.len() - 1 && ws[i] == k)
}

/// The table `t` after the adjacent pairs of `ws` are recorded: each word
/// that is followed gets its followers appended to its successor list.
pub open spec fn ingested(t: Map<Seq<char>, Seq<Seq<char>>>, ws: Seq<Seq<char>>) -> Map<Seq<char>, Seq<Seq<char>>> {
    Map::new(
        |k: Seq<char>| t.contains_key(k) || sources(ws).contains(k),
        |k: Seq<char>| successors_in(t, k) + followers(ws, k),
    )
}

/// The counter after `n` more words, held at the largest `usize`.
pub open spec fn counted(c: usize, n: int) -> usize {
    if c + n > usize::MAX {
        usize::MAX
    } else {
        (c + n) as usize
    }
}

/// Only a word that is followed has followers.
proof fn lemma_followers_source(ws: Seq<Seq<char>>, k: Seq<char>)
    ensures
        followers(ws, k).len() > 0 ==> sources(ws).contains(k),
    decreases ws.len(),
{
    if ws.len() >= 2 {
        let p = ws.drop_last();
        lemma_followers_source(p, k);
        if ws[ws.len() - 2] == k {
            assert(sources(ws).contains(k));
        } else if followers(ws, k).len() > 0 {
            let i = choose|i: int| 0 <= i < p.len() - 1 && p[i] == k;
            assert(ws[i] == k);
        }
    }
}

/// Recording one more word extends the table by one successor.
proof fn lemma_ingested_step(t: Map<Seq<char>, Seq<Seq<char>>>, ws: Seq<Seq<char>>)
    requires
        ws.len() >= 2,
    ensures
        ingested(t, ws) == ingested(t, ws.drop_last()).insert(
            ws[ws.len() - 2],
            successors_in(ingested(t, ws.drop_last()), ws[ws.len() - 2]).push(ws.last()),
        ),
{
    let p = ws.drop_last();
    let a = ingested(t, ws);
    let b = ingested(t, p).insert(ws[ws.len() - 2], successors_in(ingested(t, p), ws[ws.len() - 2]).push(ws.last()));
    assert forall|k: Seq<char>| a.contains_key(k) <==> b.contains_key(k) by {
        if sources(ws).contains(k) && k != ws[ws.len() - 2] {
            let i = choose|i: int| 0 <= i < ws.len() - 1 && ws[i] == k;
            assert(p[i] == k);
            assert(sources(p).contains(k));
        }
        if sources(p).contains(k) {
            let i = choose|i: int| 0 <= i < p.len() - 1 && p[i] == k;
            assert(ws[i] == k);
        }
        if k == ws[ws.len() - 2] {
            assert(sources(ws).contains(k));
        }
    }
    assert forall|k: Seq<char>| a.contains_key(k) implies a[k] == b[k] by {
        lemma_followers_source(p, k);
        if k == ws[ws.len() - 2] {
            assert(followers(ws, k) == followers(p, k).push(ws.last()));
            assert(successors_in(t, k) + followers(p, k).push(ws.last()) =~= (successors_in(t, k) + followers(p, k)).push(ws.last()));
            if !ingested(t, p).contains_key(k) {
                assert(successors_in(t, k) + followers(p, k) =~= Seq::<Seq<char>>::empty());
            }
        } else {
            assert(followers(ws, k) == followers(p, k));
        }
    }
    assert(a =~= b);
}

/// A list of fewer than two words records nothing.
pub proof fn lemma_short_text_adds_nothing(t: Map<Seq<char>, Seq<Seq<char>>>, ws: Seq<Seq<char>>)
    requires
        ws.len() < 2,
    ensures
        ingested(t, ws) == t,
{
    assert forall|k: Seq<char>| #[trigger] ingested(t, ws).contains_key(k) <==> t.contains_key(k) by {
        if sources(ws).contains(k) {
            let i = choose|i: int| 0 <= i < ws.len() - 1 && ws[i] == k;
        }
    }
    assert forall|k: Seq<char>| t.contains_key(k) implies #[trigger] ingested(t, ws)[k] == t[k] by {
        assert(successors_in(t, k) + Seq::<Seq<char>>::empty() =~= t[k]);
    }
    assert(ingested(t, ws) =~= t);
}

/// The number of positions in `ws` where `a` is directly followed by `b`.
pub open spec fn pair_count(ws: Seq<Seq<char>>, a: Seq<char>, b: Seq<char>) -> nat
    decreases ws.len(),
{
    if ws.len() < 2 {
        0
    } else {
        pair_count(ws.drop_last(), a, b) + if ws[ws.len() - 2] == a && ws.last() == b {
            1nat
        } else {
            0nat
        }
    }
}

/// `b` is among the followers of `a` as often as `a b` occurs in `ws`.
proof fn lemma_followers_count(ws: Seq<Seq<char>>, a: Seq<char>, b: Seq<char>)
    ensures
        followers(ws, a).to_multiset().count(b) == pair_count(ws, a, b),
    decreases ws.len(),
{
    broadcast use vstd::seq_lib::group_to_multiset_ensures;

    if ws.len() >= 2 {
        lemma_followers_count(ws.drop_last(), a, b);
    }
}

/// Recording a list of words adds each adjacent pair `a b` to the table as
/// many times as it occurs: `b` appears that many more times among the
/// successors of `a`.
pub proof fn lemma_ingest_counts_pairs(
    t: Map<Seq<char>, Seq<Seq<char>>>,
    ws: Seq<Seq<char>>,
    a: Seq<char>,
    b: Seq<char>,
)
    ensures
        successors_in(ingested(t, ws), a).to_multiset().count(b) == successors_in(t, a).to_multiset().count(
            b,
        ) + pair_count(ws, a, b),
{
    broadcast use vstd::seq_lib::group_to_multiset_ensures;

    lemma_followers_count(ws, a, b);
    lemma_followers_source(ws, a);
    vstd::seq_lib::lemma_multiset_commutative(successors_in(t, a), followers(ws, a));
    if !ingested(t, ws).contains_key(a) {
        assert(successors_in(t, a) =~= Seq::<Seq<char>>::empty());
        assert(followers(ws, a) =~= Seq::<Seq<char>>::empty());
    }
}

/// Relies on `rand::Rng::gen_range` over `rand::thread_rng()`: a value drawn
/// from `0..n`; it panics on an empty range, hence `n > 0`.
#[verifier::external_body]
fn random_below(n: usize) -> (r: usize)
    requires
        n > 0,
    ensures
        r < n,
{
    rand::thread_rng().gen_range(0..n)
}

/// The characters of an optional word.
pub open spec fn word_of(w: Option<String>) -> Option<Seq<char>> {
    match w {
        Some(s) => Some(s@),
        None => None,
    }
}

/// The number of words a walk aims for: `length`, lowered to `cap` if any.
pub open spec fn target_length(length: u32, cap: Option<u32>) -> nat {
    match cap {
        Some(c) => if c < length {
            c as nat
        } else {
            length as nat
        },
        None => length as nat,
    }
}

/// `start` is a key of `t`.
pub open spec fn known_start(t: Map<Seq<char>, Seq<Seq<char>>>, start: Option<Seq<char>>) -> bool {
    start matches Some(s) && t.contains_key(s)
}

/// One step of a walk from `a` to `b`: a recorded successor of `a`, or under
/// `Teleport`, when `a` has none, any word that has successors.
pub open spec fn step_ok(
    t: Map<Seq<char>, Seq<Seq<char>>>,
    policy: DeadEndPolicy,
    a: Seq<char>,
    b: Seq<char>,
) -> bool {
    if productive(t, a) {
        t[a].contains(b)
    } else {
        policy == DeadEndPolicy::Teleport && productive(t, b)
    }
}

/// `ws` is a walk that `generate` may produce on `t` from `start`, aiming for
/// `len` words: it opens with `start` where that is a key and otherwise with
/// a word that has successors, moves by `step_ok`, and stops short of `len`
/// only at a dead end that the policy does not, or cannot, get past.
pub open spec fn valid_walk(
    t: Map<Seq<char>, Seq<Seq<char>>>,
    policy: DeadEndPolicy,
    start: Option<Seq<char>>,
    len: nat,
    ws: Seq<Seq<char>>,
) -> bool {
    &&& ws.len() <= len
    &&& len > 0 && known_start(t, start) ==> ws.len() > 0 && ws[0] == start->0
    &&& len > 0 && !known_start(t, start) ==> (ws.len() > 0 <==> has_productive(t))
    &&& ws.len() > 0 && !known_start(t, start) ==> productive(t, ws[0])
    &&& forall|i: int| 0 <= i < ws.len() - 1 ==> step_ok(t, policy, #[trigger] ws[i], ws[i + 1])
    &&& 0 < ws.len() < len ==> !productive(t, ws.last()) && (policy == DeadEndPolicy::Terminate
        || !has_productive(t))
}

/// A list of the words with successors is empty exactly when there are none.
proof fn lemma_productive_list_empty(t: Map<Seq<char>, Seq<Seq<char>>>, c: Seq<Seq<char>>)
    requires
        productive_list(t, c),
    ensures
        c.len() == 0 <==> !has_productive(t),
{
    if has_productive(t) {
        let k = choose|k: Seq<char>| productive(t, k);
        assert(c.contains(k));
    }
    if c.len() > 0 {
        assert(productive(t, c[0]));
    }
}

impl MarkovChain {
    /// The transition table.
    pub open(crate) spec fn table(&self) -> Map<Seq<char>, Seq<Seq<char>>> {
        self.table@
    }

    /// The word counter.
    pub open(crate) spec fn count(&self) -> usize {
        self.word_count
    }

    /// The dead-end policy.
    pub open(crate) spec fn policy(&self) -> DeadEndPolicy {
        self.dead_end
    }

    /// The bound on generated length, if any.
    pub open(crate) spec fn cap(&self) -> Option<u32> {
        self.max_length
    }

    /// The table is well formed.
    pub open(crate) spec fn wf(&self) -> bool {
        self.table.wf()
    }

    /// An empty model, configured by `options`.
    pub fn new(options: Option<MarkovChainOptions>) -> (r: MarkovChain)
        ensures
            r.wf(),
            r.table() == Map::<Seq<char>, Seq<Seq<char>>>::empty(),
            r.count() == 0,
            r.policy() == (match options {
                Some(o) => match o.dead_end {
                    Some(p) => p,
                    None => DeadEndPolicy::Teleport,
                },
                None => DeadEndPolicy::Teleport,
            }),
            r.cap() == (match options {
                Some(o) => o.max_length,
                None => None,
            }),
    {
        let (capacity, dead_end, max_length) = match options {
            Some(o) => (
                match o.initial_capacity {
                    Some(c) => c,
                    None => DEFAULT_CAPACITY,
                },
                match o.dead_end {
                    Some(p) => p,
                    None => DeadEndPolicy::Teleport,
                },
                o.max_length,
            ),
            None => (DEFAULT_CAPACITY, DeadEndPolicy::Teleport, None),
        };
        MarkovChain {
            table: TransitionTable::with_capacity(
                if capacity > MAX_RESERVED_CAPACITY {
                    MAX_RESERVED_CAPACITY
                } else {
                    capacity
                } as usize,
            ),
            word_count: 0,
            dead_end,
            max_length,
        }
    }

    /// Records every adjacent pair of `words`, and adds their number to the
    /// counter. A list of fewer than two words changes nothing.
    pub fn add_words(&mut self, words: &Vec<String>)
        requires
            old(self).wf(),
        ensures
            final(self).wf(),
            final(self).table() == ingested(old(self).table(), word_views(words@)),
            final(self).count() == if words@.len() < 2 {
                old(self).count()
            } else {
                counted(old(self).count(), words@.len() as int)
            },
            final(self).policy() == old(self).policy(),
            final(self).cap() == old(self).cap(),
            words@.len() < 2 ==> *final(self) == *old(self),
    {
        let ghost ws = word_views(words@);
        let ghost t0 = self.table@;
        let n = words.len();
        if n < 2 {
            proof {
                lemma_short_text_adds_nothing(t0, ws);
            }
            return;
        }
        self.word_count = if self.word_count > usize::MAX - n {
            usize::MAX
        } else {
            self.word_count + n
        };
        proof {
            lemma_short_text_adds_nothing(t0, ws.take(1));
        }
        let ghost wc = self.word_count;
        let mut i: usize = 1;
        while i < n
            invariant
                self.table.wf(),
                self.word_count == wc,
                self.dead_end == old(self).dead_end,
                self.max_length == old(self).max_length,
                n == words@.len(),
                ws == word_views(words@),
                1 <= i <= n,
                self.table@ == ingested(t0, ws.take(i as int)),
            decreases n - i,
        {
            proof {
                let p = ws.take(i + 1);
                lemma_ingested_step(t0, p);
                assert(p.drop_last() =~= ws.take(i as int));
            }
            self.table.push_successor(words[i - 1].as_str(), words[i].clone());
            i = i + 1;
        }
        assert(ws.take(n as int) =~= ws);
    }

    /// Splits `text` into words on whitespace and records them as
    /// `add_words` does.
    pub fn add_text(&mut self, text: String)
        requires
            old(self).wf(),
        ensures
            final(self).wf(),
            final(self).table() == ingested(old(self).table(), whitespace_words(text@)),
            final(self).count() == if whitespace_words(text@).len() < 2 {
                old(self).count()
            } else {
                counted(old(self).count(), whitespace_words(text@).len() as int)
            },
            final(self).policy() == old(self).policy(),
            final(self).cap() == old(self).cap(),
            whitespace_words(text@).len() < 2 ==> *final(self) == *old(self),
            text@.len() == 0 ==> *final(self) == *old(self),
    {
        let words = split_words(text.as_str());
        self.add_words(&words);
    }

    /// The word counter, truncated to 32 bits.
    pub fn get_word_count(&self) -> (r: u32)
        ensures
            r == self.count() as u32,
    {
        #[verifier::truncate]
        (self.word_count as u32)
    }

    /// The first word of a walk: `start` where it is a key, else the
    /// candidate at `draw` (modulo their number), else none.
    pub fn start_word(&self, start: &Option<String>, candidates: &Vec<String>, draw: usize) -> (r: Option<String>)
        requires
            self.wf(),
            productive_list(self.table(), word_views(candidates@)),
        ensures
            known_start(self.table(), word_of(*start)) ==> r == *start,
            !known_start(self.table(), word_of(*start)) && candidates@.len() > 0 ==> (r matches Some(w)
                && w@ == candidates@[draw as int % candidates@.len() as int]@),
            !known_start(self.table(), word_of(*start)) && candidates@.len() == 0 ==> r is None,
    {
        if let Some(s) = start {
            if self.table.get(s.as_str()).is_some() {
                return Some(s.clone());
            }
        }
        if candidates.len() == 0 {
            None
        } else {
            Some(candidates[draw % candidates.len()].clone())
        }
    }

    /// How many ways a walk can go on from `current`: its number of
    /// successors, or under `Teleport` at a dead end the number of
    /// candidates.
    pub fn choice_count(&self, current: &str, candidates: &Vec<String>) -> (r: usize)
        requires
            self.wf(),
        ensures
            productive(self.table(), current@) ==> r == self.table()[current@].len(),
            !productive(self.table(), current@) ==> r == if self.policy() == DeadEndPolicy::Teleport {
                candidates@.len()
            } else {
                0
            },
    {
        let n = match self.table.get(current) {
            Some(v) => v.len(),
            None => 0,
        };
        if n > 0 {
            n
        } else {
            match self.dead_end {
                DeadEndPolicy::Teleport => candidates.len(),
                DeadEndPolicy::Terminate => 0,
            }
        }
    }

    /// The word after `current`: its successor at `draw`, or under
    /// `Teleport` at a dead end the candidate at `draw` (modulo their
    /// number), or none.
    pub fn next_word(&self, current: &str, candidates: &Vec<String>, draw: usize) -> (r: Option<String>)
        requires
            self.wf(),
        ensures
            productive(self.table(), current@) ==> (r matches Some(w) && w@ == self.table()[current@][draw as int
                % self.table()[current@].len() as int]),
            !productive(self.table(), current@) && self.policy() == DeadEndPolicy::Teleport
                && candidates@.len() > 0 ==> (r matches Some(w) && w@ == candidates@[draw as int
                % candidates@.len() as int]@),
            !productive(self.table(), current@) && (self.policy() == DeadEndPolicy::Terminate
                || candidates@.len() == 0) ==> r is None,
    {
        if let Some(v) = self.table.get(current) {
            if v.len() > 0 {
                return Some(v[draw % v.len()].clone());
            }
        }
        match self.dead_end {
            DeadEndPolicy::Teleport => if candidates.len() > 0 {
                Some(candidates[draw % candidates.len()].clone())
            } else {
                None
            },
            DeadEndPolicy::Terminate => None,
        }
    }

    /// Generates up to `length` words (fewer where the bound on length is
    /// lower) by a random walk, joined by single spaces. The walk opens with
    /// `start_word` where it is a key, and otherwise with a random word that
    /// has successors; each next word is drawn uniformly from the current
    /// word's successor list, so that repeated successors weigh more. A dead
    /// end is handled by the dead-end policy.
    pub fn generate(&self, start_word: Option<String>, length: u32) -> (r: String)
        requires
            self.wf(),
        ensures
            exists|ws: Seq<Seq<char>>|
                valid_walk(self.table(), self.policy(), word_of(start_word), target_length(length, self.cap()), ws)
                    && r@ == joined(ws),
            length == 0 || self.table().dom().is_empty() ==> r@.len() == 0,
            length == 1 && self.cap() != Some(0u32) && known_start(self.table(), word_of(start_word)) ==> r@
                == start_word->0@,
            length == 1 && self.cap() != Some(0u32) && !known_start(self.table(), word_of(start_word))
                && has_productive(self.table()) ==> productive(self.table(), r@),
            length == 1 && self.cap() != Some(0u32) && !known_start(self.table(), word_of(start_word))
                && !has_productive(self.table()) ==> r@.len() == 0,
    {
        let ghost t = self.table();
        let ghost policy = self.policy();
        let ghost sv = word_of(start_word);
        let target: u32 = match self.max_length {
            Some(c) => if c < length {
                c
            } else {
                length
            },
            None => length,
        };
        let ghost len = target_length(length, self.cap());
        assert(len == target as nat);
        if target == 0 || self.table.len() == 0 {
            proof {
                if target != 0 {
                    assert(t.dom() =~= Set::<Seq<char>>::empty()) by {
                        self.table.lemma_len_zero();
                    }
                    assert(!known_start(t, sv));
                    assert(!has_productive(t));
                }
                assert(valid_walk(t, policy, sv, len, Seq::empty()));
                assert(joined(Seq::<Seq<char>>::empty()) == Seq::<char>::empty());
            }
            return String::new();
        }
        let candidates = self.table.productive_words();
        let ghost c = word_views(candidates@);
        proof {
            lemma_productive_list_empty(t, word_views(candidates@));
        }
        let known = match &start_word {
            Some(s) => self.table.get(s.as_str()).is_some(),
            None => false,
        };
        let draw = if !known && candidates.len() > 0 {
            random_below(candidates.len())
        } else {
            0
        };
        let first = match self.start_word(&start_word, &candidates, draw) {
            Some(w) => w,
            None => {
                assert(valid_walk(t, policy, sv, len, Seq::empty()));
                assert(joined(Seq::<Seq<char>>::empty()) == Seq::<char>::empty());
                return String::new();
            },
        };
        proof {
            if !known_start(t, sv) {
                let k = draw as int % c.len() as int;
                assert(c[k] == first@);
            }
        }
        let mut out: Vec<String> = Vec::new();
        out.push(first.clone());
        let mut current = first;
        assert(word_views(out@)[0] == first@);
        while out.len() < target as usize
            invariant
                self.wf(),
                t == self.table(),
                policy == self.policy(),
                c == word_views(candidates@),
                productive_list(t, c),
                c.len() == 0 <==> !has_productive(t),
                len == target as nat,
                len > 0,
                1 <= out@.len() <= len,
                current@ == word_views(out@).last(),
                known_start(t, sv) ==> word_views(out@)[0] == sv->0,
                !known_start(t, sv) ==> has_productive(t) && productive(t, word_views(out@)[0]),
                forall|i: int| 0 <= i < out@.len() - 1 ==> step_ok(t, policy, #[trigger] word_views(out@)[i], word_views(out@)[i + 1]),
            ensures
                1 <= out@.len() <= len,
                current@ == word_views(out@).last(),
                out@.len() < len ==> !productive(t, current@) && (policy == DeadEndPolicy::Terminate
                    || !has_productive(t)),
            decreases len - out@.len(),
        {
            let n = self.choice_count(current.as_str(), &candidates);
            if n == 0 {
                break;
            }
            let d = random_below(n);
            let ghost prev = word_views(out@);
            match self.next_word(current.as_str(), &candidates, d) {
                Some(w) => {
                    proof {
                        if productive(t, current@) {
                            let k = d as int % t[current@].len() as int;
                            assert(t[current@][k] == w@);
                        } else {
                            let k = d as int % c.len() as int;
                            assert(c[k] == w@);
                        }
                    }
                    out.push(w.clone());
                    current = w;
                    proof {
                        let ws = word_views(out@);
                        assert(ws =~= prev.push(current@));
                        assert forall|i: int| 0 <= i < ws.len() - 1 implies step_ok(t, policy, #[trigger] ws[i], ws[i + 1]) by {
                            if i < prev.len() - 1 {
                                assert(ws[i] == prev[i] && ws[i + 1] == prev[i + 1]);
                            } else {
                                assert(ws[i] == prev.last());
                            }
                        }
                    }
                },
                None => {
                    break;
                },
            }
        }
        let ghost ws = word_views(out@);
        proof {
            if ws.len() < len {
                assert(!productive(t, ws.last()));
            }
            assert(valid_walk(t, policy, sv, len, ws));
            if len == 1 {
                assert(ws =~= seq![ws[0]]);
                assert(joined(ws) == ws[0]);
            }
        }
        join_words(&out)
    }
}

} // verus!
