use hakodb::index::inverted_index::InvertedIndex;

fn ids(list: &[&str]) -> Option<Vec<String>> {
    Some(list.iter().map(|s| s.to_string()).collect())
}

#[test]
fn prefix_matches_whole_words() {
    let mut idx = InvertedIndex::default();
    idx.insert("Indomie Goreng", "d1".to_string());
    idx.insert("Indomie Rendang", "d2".to_string());
    idx.insert("Mie Sedap Ayam", "d3".to_string());

    assert_eq!(idx.search_prefix("indom"), ids(&["d1", "d2"]));
    assert_eq!(idx.search_prefix("mie"), ids(&["d3"]));
    assert_eq!(idx.search_prefix("indomie goreng"), ids(&["d1"]));
    assert!(idx.search_prefix("nope").is_none());
    assert!(idx.search_prefix("goreng nope").is_none());
}

#[test]
fn prefix_bound_is_exclusive_and_strict() {
    let mut idx = InvertedIndex::default();
    idx.insert("abc def", "d1".to_string());
    idx.insert("abdg hmm", "d2".to_string());
    assert_eq!(idx.search_prefix("ab"), ids(&["d1", "d2"]));
    assert_eq!(idx.search_prefix("abd"), ids(&["d2"]));
}
