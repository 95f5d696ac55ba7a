use image_sorter::categories::{default_categories, CategoryStore};
use image_sorter::data_store::{DataStore, StoreError};

fn strings(items: &[&str]) -> Vec<String> {
    items.iter().map(|s| s.to_string()).collect()
}

#[test]
fn new_from_data_drops_duplicates_keeping_first_occurrences() {
    let s = DataStore::new_from_data("/p", strings(&["b", "a", "b", "c", "a"]));
    assert_eq!(*s.items(), strings(&["b", "a", "c"]));
}

#[test]
fn insert_is_idempotent() {
    let mut s = DataStore::new_from_data("/p", strings(&["a"]));
    assert!(s.insert("b".to_string()));
    assert!(!s.insert("b".to_string()));
    assert_eq!(*s.items(), strings(&["a", "b"]));
    assert!(s.contains(&"b".to_string()));
    assert!(!s.contains(&"c".to_string()));
}

#[test]
fn save_then_reload_round_trips() {
    let s = DataStore::new_from_data("/p", strings(&["linux", "warframe"]));
    let text = s.save().unwrap();
    let back = DataStore::new_from_text("/p", &text).unwrap();
    assert_eq!(*back.items(), strings(&["linux", "warframe"]));
}

#[test]
fn store_parses_a_yaml_sequence_of_strings() {
    let s = DataStore::new_from_text("/p", "- one\n- two\n").unwrap();
    assert_eq!(*s.items(), strings(&["one", "two"]));
}

#[test]
fn malformed_corpus_document_is_rejected() {
    let r = DataStore::new_from_text("/p", "{ this is: [not, a] * list of strings");
    assert!(matches!(r, Err(StoreError::MalformedCorpus)));
    let r = DataStore::new_from_text("/p", "37");
    assert!(matches!(r, Err(StoreError::MalformedCorpus)));
}

#[test]
fn missing_document_seeds_the_default_corpus() {
    let s = CategoryStore::load("/tags.yaml", None).unwrap();
    assert_eq!(*s.snapshot(), default_categories());
    assert!(!s.snapshot().is_empty());
}

#[test]
fn persisted_document_wins_over_defaults() {
    let s = CategoryStore::load("/tags.yaml", Some("- mine\n")).unwrap();
    assert_eq!(*s.snapshot(), strings(&["mine"]));
}

#[test]
fn malformed_document_is_fatal_for_the_category_store() {
    let r = CategoryStore::load("/tags.yaml", Some(": : :"));
    assert!(r.is_err());
}

#[test]
fn category_store_persists_additions_in_full() {
    let mut s = CategoryStore::load("/tags.yaml", Some("- a\n")).unwrap();
    assert!(s.add("b".to_string()));
    let text = s.save().unwrap();
    let back = CategoryStore::load("/tags.yaml", Some(&text)).unwrap();
    assert_eq!(*back.snapshot(), strings(&["a", "b"]));
}
