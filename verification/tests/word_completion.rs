use reverse_index::WordReverseIndex;

#[test]
fn ri_substring() {
    let words: Vec<String> = vec!["app", "apple", "banana", "yeet", "hello", "hell"]
        .into_iter()
        .map(String::from)
        .collect();

    let ri = WordReverseIndex::from_buffer(words);
    let found = ri.get("app");
    assert_eq!(found.len(), 2);
}

#[test]
fn ri_fullstring() {
    let words: Vec<String> = vec!["app", "apple", "banana", "yeet", "hello", "hell"]
        .into_iter()
        .map(String::from)
        .collect();

    let ri = WordReverseIndex::from_buffer(words);
    let found = ri.get("apple");
    assert_eq!(found.len(), 1);
}

#[test]
fn ri_add_word() {
    let words: Vec<String> = vec!["app", "apple"].into_iter().map(String::from).collect();

    let ri = WordReverseIndex::from_buffer(words);
    let ri = ri.add_word("yeet".to_string());

    let found = ri.get("ye");
    assert_eq!(found.len(), 1);
    assert_eq!(**found.get(0).unwrap(), "yeet".to_string());
}
