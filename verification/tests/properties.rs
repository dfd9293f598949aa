use reverse_index::DocumentReverseIndex;
use reverse_index::WordReverseIndex;

fn strings(items: &[&str]) -> Vec<String> {
    items.iter().map(|s| String::from(*s)).collect()
}

#[test]
fn prefix_lookup_returns_all_completions() {
    let ri = WordReverseIndex::from_buffer(strings(&["app", "apple", "banana"]));
    let found = ri.get("app");
    assert_eq!(found.len(), 2);
    assert_eq!(found[0], "app");
    assert_eq!(found[1], "apple");
    let exact = ri.get("apple");
    assert_eq!(exact.len(), 1);
    assert_eq!(exact[0], "apple");
}

#[test]
fn token_search_ranks_by_match_count() {
    let ri = DocumentReverseIndex::from_buffer(strings(&[
        "the quick brown fox",
        "lorem ipsum",
        "brown fox",
    ]));
    let found = ri.get("brown fox", 10);
    assert_eq!(found.len(), 2);
    assert_eq!(found[0], "the quick brown fox");
    assert_eq!(found[1], "brown fox");
}

#[test]
fn no_match_returns_empty() {
    let ri = DocumentReverseIndex::from_buffer(strings(&[
        "the quick brown fox",
        "lorem ipsum",
        "brown fox",
    ]));
    let found = ri.get("zzz_no_match", 5);
    assert_eq!(found.len(), 0);
}

#[test]
fn added_word_is_found_by_prefix() {
    let ri = WordReverseIndex::from_buffer(strings(&["app", "apple"]));
    let ri = ri.add_word(String::from("yeet"));
    let found = ri.get("ye");
    assert_eq!(found.len(), 1);
    assert_eq!(found[0], "yeet");
}

#[test]
fn merge_sorts_and_deduplicates() {
    let ri = DocumentReverseIndex::from_buffer(strings(&["b", "a"]));
    let ri = ri.concatonate_dedup_and_reindex(strings(&["a", "c"]));
    // The rebuilt buffer must be ["a", "b", "c"]: walk it from the match on
    // "a" at position 0.
    let found = ri.get_indices("a", 10);
    assert_eq!(found.len(), 1);
    assert_eq!(found[0].current(), "a");
    let mut forwards = found[0].forwards();
    assert_eq!(forwards.next().unwrap(), "b");
    assert_eq!(forwards.next().unwrap(), "c");
    assert!(forwards.next().is_none());
    let mut backwards = found[0].backwards();
    assert!(backwards.next().is_none());
}

#[test]
fn merge_deduplicates_word_index() {
    let ri = WordReverseIndex::from_buffer(strings(&["b", "a"]));
    let ri = ri.concatonate_dedup_and_reindex(strings(&["a", "c"]));
    let found = ri.get("a");
    assert_eq!(found.len(), 1);
    assert_eq!(found[0], "a");
    let found = ri.get("c");
    assert_eq!(found.len(), 1);
    assert_eq!(found[0], "c");
}

#[test]
fn navigator_walks_both_ways_from_middle() {
    let ri = DocumentReverseIndex::from_buffer(strings(&["alpha", "beta", "gamma"]));
    let found = ri.get_indices("beta", 10);
    assert_eq!(found.len(), 1);
    assert_eq!(found[0].current(), "beta");
    let mut forwards = found[0].forwards();
    assert_eq!(forwards.next().unwrap(), "gamma");
    assert!(forwards.next().is_none());
    assert!(forwards.next().is_none());
    let mut backwards = found[0].backwards();
    assert_eq!(backwards.next().unwrap(), "alpha");
    assert!(backwards.next().is_none());
    assert!(backwards.next().is_none());
}

#[test]
fn navigator_ends_at_last_position() {
    let ri = DocumentReverseIndex::from_buffer(strings(&["alpha", "beta", "gamma"]));
    let found = ri.get_indices("gamma", 10);
    assert_eq!(found.len(), 1);
    let mut forwards = found[0].forwards();
    assert!(forwards.next().is_none());
}

#[test]
fn building_twice_gives_equal_lookups() {
    let ri1 = WordReverseIndex::from_buffer(strings(&["app", "apple", "banana"]));
    let ri2 = WordReverseIndex::from_buffer(strings(&["app", "apple", "banana"]));
    for key in ["a", "ap", "app", "appl", "apple", "b", "banana", "x", ""] {
        let f1: Vec<String> = ri1.get(key).into_iter().cloned().collect();
        let f2: Vec<String> = ri2.get(key).into_iter().cloned().collect();
        assert_eq!(f1, f2);
    }
}

#[test]
fn append_leaves_unrelated_lookups_unchanged() {
    let ri = DocumentReverseIndex::from_buffer(strings(&["apple pie", "cherry cake"]));
    let before: Vec<String> = ri.get("apple", 10).into_iter().cloned().collect();
    let ri = ri.add_document(String::from("banana split"));
    let after: Vec<String> = ri.get("apple", 10).into_iter().cloned().collect();
    assert_eq!(before, after);
    assert_eq!(after, vec![String::from("apple pie")]);
}

#[test]
fn empty_build_finds_nothing() {
    let ri = WordReverseIndex::from_buffer(Vec::new());
    assert_eq!(ri.get("a").len(), 0);
    let di = DocumentReverseIndex::from_buffer(Vec::new());
    assert_eq!(di.get("a", 10).len(), 0);
}

#[test]
fn empty_query_finds_nothing() {
    let ri = DocumentReverseIndex::from_buffer(strings(&["alpha beta"]));
    assert_eq!(ri.get("", 10).len(), 0);
    assert_eq!(ri.get("   ", 10).len(), 0);
}

#[test]
fn limit_truncates_results() {
    let ri = DocumentReverseIndex::from_buffer(strings(&["x a", "x b", "x c"]));
    assert_eq!(ri.get("x", 2).len(), 2);
    assert_eq!(ri.get("x", 0).len(), 0);
    assert_eq!(ri.get("x", 10).len(), 3);
}

#[test]
fn repeated_query_term_counts_once() {
    // "beta beta" must not outrank by counting the repeated term twice.
    let ri = DocumentReverseIndex::from_buffer(strings(&["beta", "alpha beta"]));
    let found = ri.get("beta alpha", 10);
    assert_eq!(found.len(), 2);
    assert_eq!(found[0], "alpha beta");
    let found = ri.get("beta beta", 10);
    assert_eq!(found.len(), 2);
    // Both documents match the single distinct term once; earlier position wins.
    assert_eq!(found[0], "beta");
}

#[test]
fn from_iter_builds_like_from_buffer() {
    let ri = DocumentReverseIndex::from_iter(strings(&["alpha beta", "gamma"]));
    let found = ri.get("gamma", 10);
    assert_eq!(found.len(), 1);
    assert_eq!(found[0], "gamma");
}
