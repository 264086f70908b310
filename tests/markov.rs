use markov_chain::table::TransitionTable;
use markov_chain::words::{join_words, word_less};
use markov_chain::{DeadEndPolicy, MarkovChain, MarkovChainOptions};

fn s(x: &str) -> String {
    x.to_string()
}

fn entry(k: &str, vs: &[&str]) -> (String, Vec<String>) {
    (s(k), vs.iter().map(|v| s(v)).collect())
}

fn with_policy(p: DeadEndPolicy) -> MarkovChain {
    MarkovChain::new(Some(MarkovChainOptions {
        initial_capacity: Some(16),
        dead_end: Some(p),
        max_length: None,
    }))
}

#[test]
fn ingest_builds_expected_table() {
    let mut m = MarkovChain::new(None);
    m.add_text(s("the cat sat on the mat"));
    assert_eq!(
        m.export_entries(),
        vec![
            entry("cat", &["sat"]),
            entry("on", &["the"]),
            entry("sat", &["on"]),
            entry("the", &["cat", "mat"]),
        ]
    );
    assert_eq!(m.get_word_count(), 6);
}

#[test]
fn ingest_counts_repeated_pairs() {
    let mut m = MarkovChain::new(None);
    m.add_text(s("a b a b a c"));
    assert_eq!(m.export_entries(), vec![entry("a", &["b", "b", "c"]), entry("b", &["a", "a"])]);
    m.add_text(s("a b"));
    assert_eq!(m.export_entries(), vec![entry("a", &["b", "b", "c", "b"]), entry("b", &["a", "a"])]);
    assert_eq!(m.get_word_count(), 8);
}

#[test]
fn ingest_splits_on_whitespace_runs() {
    let mut m = MarkovChain::new(None);
    m.add_text(s("  Hi,\tthere \n\n  Hi, "));
    assert_eq!(m.export_entries(), vec![entry("Hi,", &["there"]), entry("there", &["Hi,"])]);
    assert_eq!(m.get_word_count(), 3);
}

#[test]
fn empty_and_single_word_text_change_nothing() {
    let mut m = MarkovChain::new(None);
    m.add_text(s(""));
    m.add_text(s("alone"));
    m.add_text(s("   lonely   "));
    assert!(m.export_entries().is_empty());
    assert_eq!(m.get_word_count(), 0);
    assert_eq!(m.generate(None, 5), "");
}

#[test]
fn add_words_records_pairs() {
    let mut m = MarkovChain::new(None);
    m.add_words(&vec![s("x"), s("y"), s("x")]);
    assert_eq!(m.export_entries(), vec![entry("x", &["y"]), entry("y", &["x"])]);
    assert_eq!(m.get_word_count(), 3);
}

#[test]
fn generate_zero_length_or_empty_table_is_empty() {
    let empty = MarkovChain::new(None);
    assert_eq!(empty.generate(None, 10), "");
    assert_eq!(empty.generate(Some(s("the")), 10), "");
    let mut m = MarkovChain::new(None);
    m.add_text(s("the cat sat"));
    assert_eq!(m.generate(Some(s("the")), 0), "");
    assert_eq!(m.generate(None, 0), "");
}

#[test]
fn generate_one_word_from_known_start() {
    let mut m = MarkovChain::new(None);
    m.add_text(s("the cat sat on the mat"));
    assert_eq!(m.generate(Some(s("the")), 1), "the");
    // "mat" is no key, so a word with successors is chosen instead.
    let keys = ["the", "cat", "sat", "on"];
    for _ in 0..20 {
        let w = m.generate(Some(s("mat")), 1);
        assert!(keys.contains(&w.as_str()), "{}", w);
        let w = m.generate(None, 1);
        assert!(keys.contains(&w.as_str()), "{}", w);
    }
}

#[test]
fn generate_follows_recorded_pairs() {
    let mut m = MarkovChain::new(None);
    m.add_text(s("one two three one three two one"));
    let table = m.export_entries();
    for _ in 0..20 {
        let out = m.generate(Some(s("one")), 12);
        let ws: Vec<&str> = out.split(' ').collect();
        assert_eq!(ws.len(), 12);
        assert_eq!(ws[0], "one");
        for p in ws.windows(2) {
            let succ = &table.iter().find(|e| e.0 == p[0]).unwrap().1;
            assert!(succ.iter().any(|x| x == p[1]), "{} {}", p[0], p[1]);
        }
    }
}

#[test]
fn dead_end_teleports_by_default() {
    let mut m = MarkovChain::new(None);
    m.import_corpus(s(r#"[["a",["b"]],["b",[]]]"#));
    for _ in 0..10 {
        let out = m.generate(Some(s("a")), 5);
        assert_eq!(out, "a b a b a");
    }
}

#[test]
fn dead_end_terminates_when_configured() {
    let mut m = with_policy(DeadEndPolicy::Terminate);
    m.import_corpus(s(r#"[["a",["b"]],["b",[]]]"#));
    assert_eq!(m.generate(Some(s("a")), 5), "a b");
    assert_eq!(m.generate(Some(s("b")), 5), "b");
}

#[test]
fn start_without_successors_and_no_productive_word() {
    let mut m = MarkovChain::new(None);
    m.import_corpus(s(r#"[["z",[]]]"#));
    assert_eq!(m.generate(Some(s("z")), 4), "z");
    assert_eq!(m.generate(Some(s("y")), 4), "");
    assert_eq!(m.generate(None, 4), "");
}

#[test]
fn max_length_caps_generation() {
    let mut m = MarkovChain::new(Some(MarkovChainOptions {
        initial_capacity: None,
        dead_end: None,
        max_length: Some(3),
    }));
    m.add_text(s("a a"));
    assert_eq!(m.generate(Some(s("a")), 10), "a a a");
    assert_eq!(m.generate(Some(s("a")), 2), "a a");
    let mut z = MarkovChain::new(Some(MarkovChainOptions {
        initial_capacity: None,
        dead_end: None,
        max_length: Some(0),
    }));
    z.add_text(s("a a"));
    assert_eq!(z.generate(Some(s("a")), 1), "");
}

#[test]
fn export_is_sorted_json() {
    let mut m = MarkovChain::new(None);
    m.add_text(s("b a c a b"));
    assert_eq!(m.export_corpus(), r#"[["a",["c","b"]],["b",["a"]],["c",["a"]]]"#);
    assert_eq!(MarkovChain::new(None).export_corpus(), "[]");
}

#[test]
fn export_keeps_successor_order() {
    let mut m = MarkovChain::new(None);
    m.add_text(s("b z b a"));
    assert_eq!(m.export_corpus(), r#"[["b",["z","a"]],["z",["b"]]]"#);
}

#[test]
fn export_normalises_imported_order() {
    let mut m = MarkovChain::new(None);
    m.import_corpus(s(r#"[["b",["c"]],["a",["b"]]]"#));
    assert_eq!(m.export_corpus(), r#"[["a",["b"]],["b",["c"]]]"#);
}

#[test]
fn equal_tables_export_equal_text() {
    let mut a = MarkovChain::new(None);
    a.add_text(s("x y z"));
    let mut b = MarkovChain::new(None);
    b.add_text(s("y z"));
    b.add_text(s("x y"));
    assert_eq!(a.export_corpus(), b.export_corpus());
    assert_ne!(a.get_word_count(), b.get_word_count());
}

#[test]
fn huge_capacity_hint_is_harmless() {
    let mut m = MarkovChain::new(Some(MarkovChainOptions {
        initial_capacity: Some(u32::MAX),
        dead_end: None,
        max_length: None,
    }));
    m.add_text(s("p q"));
    assert_eq!(m.generate(Some(s("p")), 2), "p q");
}

#[test]
fn export_import_round_trip() {
    let mut m = MarkovChain::new(None);
    m.add_text(s("the cat sat on the mat and the cat ran"));
    let json = m.export_corpus();
    let mut n = MarkovChain::new(None);
    n.import_corpus(json.clone());
    assert_eq!(n.export_entries(), m.export_entries());
    assert_eq!(n.export_corpus(), json);
    // Distinct words, not the number of tokens.
    assert_eq!(n.get_word_count(), 7);
    assert_eq!(m.get_word_count(), 10);
}

#[test]
fn import_accepts_any_key_order_and_counts_distinct_words() {
    let mut m = MarkovChain::new(None);
    m.add_text(s("old words here"));
    m.import_corpus(s(r#"[["z",["a","a"]],["a",["q"]]]"#));
    assert_eq!(m.export_entries(), vec![entry("a", &["q"]), entry("z", &["a", "a"])]);
    assert_eq!(m.get_word_count(), 3);
}

#[test]
fn import_later_entry_replaces_earlier() {
    let mut m = MarkovChain::new(None);
    m.import_entries(vec![entry("k", &["x"]), entry("k", &["y", "y"])]);
    assert_eq!(m.export_entries(), vec![entry("k", &["y", "y"])]);
    assert_eq!(m.get_word_count(), 3);
}

#[test]
fn malformed_import_changes_nothing() {
    let mut m = MarkovChain::new(None);
    m.add_text(s("the cat sat on the mat"));
    let before = m.export_corpus();
    for bad in ["", "not json", "{}", r#"[["a"]]"#, r#"[["a",[1]]]"#, r#"[["a",["b"]]"#] {
        m.import_corpus(s(bad));
        assert_eq!(m.export_corpus(), before);
        assert_eq!(m.get_word_count(), 6);
        assert_eq!(m.generate(Some(s("cat")), 2), "cat sat");
    }
}

#[test]
fn step_functions_follow_the_draw() {
    let mut m = MarkovChain::new(None);
    m.import_corpus(s(r#"[["a",["b","c"]],["b",[]],["c",["a"]]]"#));
    let cands = vec![s("a"), s("c")];
    assert_eq!(m.next_word("a", &cands, 0), Some(s("b")));
    assert_eq!(m.next_word("a", &cands, 3), Some(s("c")));
    assert_eq!(m.next_word("b", &cands, 1), Some(s("c")));
    assert_eq!(m.next_word("nope", &cands, 2), Some(s("a")));
    assert_eq!(m.choice_count("a", &cands), 2);
    assert_eq!(m.choice_count("c", &cands), 1);
    assert_eq!(m.choice_count("b", &cands), 2);
    assert_eq!(m.start_word(&Some(s("b")), &cands, 1), Some(s("b")));
    assert_eq!(m.start_word(&Some(s("x")), &cands, 1), Some(s("c")));
    assert_eq!(m.start_word(&None, &cands, 2), Some(s("a")));
    assert_eq!(m.start_word(&None, &vec![], 2), None);
    let t = with_policy(DeadEndPolicy::Terminate);
    assert_eq!(t.next_word("b", &cands, 0), None);
    assert_eq!(t.choice_count("b", &cands), 0);
}

#[test]
fn table_keeps_words_sorted() {
    let mut t = TransitionTable::new();
    t.push_successor("pear", s("x"));
    t.push_successor("apple", s("y"));
    t.push_successor("zoo", s("z"));
    t.push_successor("apple", s("w"));
    t.set_successors(s("fig"), vec![]);
    assert_eq!(t.len(), 4);
    assert_eq!(t.find("apple"), Ok(0));
    assert_eq!(t.find("banana"), Err(1));
    assert_eq!(t.find("zzz"), Err(4));
    assert_eq!(t.get("apple"), Some(&vec![s("y"), s("w")]));
    assert_eq!(t.productive_words(), vec![s("apple"), s("pear"), s("zoo")]);
}

#[test]
fn words_join_and_order() {
    assert_eq!(join_words(&vec![]), "");
    assert_eq!(join_words(&vec![s("a")]), "a");
    assert_eq!(join_words(&vec![s("a"), s("bc"), s("d")]), "a bc d");
    assert!(word_less(&s("ab"), &s("b")));
    assert!(word_less(&s("a"), &s("ab")));
    assert!(!word_less(&s("b"), &s("b")));
    assert!(word_less(&s("Z"), &s("a")));
    assert!(word_less(&s("z"), &s("é")));
}
