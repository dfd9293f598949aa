use reverse_index::DocumentReverseIndex;

#[test]
fn get() {
    let documents: Vec<String> = vec![
        "the quick brown fox jumps over the lazy dog",
        "lorem ipusm dolor sit",
        "brown jumps",
    ]
    .into_iter()
    .map(String::from)
    .collect();

    let ri = DocumentReverseIndex::from_buffer(documents);
    let found = ri.get("the", 10);
    assert_eq!(found.len(), 1);
}

#[test]
fn get_ordered() {
    let documents: Vec<String> = vec![
        "the quick brown fox jumps over the lazy dog",
        "lorem ipusm dolor sit",
        "brown jumps",
    ]
    .into_iter()
    .map(String::from)
    .collect();

    let ri = DocumentReverseIndex::from_buffer(documents);
    let found = ri.get("brown fox jumps", 10);
    assert_eq!(found.len(), 2);
    // The first returned element should be the one that matches more words
    assert_eq!(found[0], "the quick brown fox jumps over the lazy dog");
}

#[test]
fn get_equal_query_quality() {
    let documents: Vec<String> = vec![
        "the quick brown fox jumps over the lazy dog",
        "lorem ipusm dolor sit",
        "brown jumps",
    ]
    .into_iter()
    .map(String::from)
    .collect();

    let ri = DocumentReverseIndex::from_buffer(documents);
    let found = ri.get("brown jumps", 10);
    assert_eq!(found.len(), 2);
    // The first returned element should be the one that matches more words
    assert_eq!(found[0], "the quick brown fox jumps over the lazy dog");
}

#[test]
fn get_iters_forward() {
    let documents: Vec<String> = vec![
        "the quick brown fox jumps over the lazy dog",
        "lorem ipsum dolor sit",
        "brown jumps",
    ]
    .into_iter()
    .map(String::from)
    .collect();

    let ri = DocumentReverseIndex::from_buffer(documents);
    let found = ri.get_indices("the", 10);
    assert_eq!(found.len(), 1);
    let mut forwards = found[0].forwards();
    assert_eq!(forwards.next().unwrap(), &String::from("lorem ipsum dolor sit"));
    assert_eq!(forwards.next().unwrap(), &String::from("brown jumps"));
    assert!(forwards.next().is_none())
}

#[test]
fn get_iters_backward() {
    let documents: Vec<String> = vec![
        "the quick brown fox jumps over the lazy dog",
        "lorem ipsum dolor sit",
        "brown jumps",
    ]
    .into_iter()
    .map(String::from)
    .collect();

    let ri = DocumentReverseIndex::from_buffer(documents);
    let found = ri.get_indices("the", 10);
    assert_eq!(found.len(), 1);
    let ri_index = &found[0];
    let mut backwards = ri_index.backwards();
    assert!(backwards.next().is_none())
}
