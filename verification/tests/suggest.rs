use image_sorter::categories::CategoryStore;
use image_sorter::suggest::{compute_suggestions, SuggestionEngine, SUGGESTION_CACHE_CAPACITY};

fn engine_over(tags: &[&str]) -> SuggestionEngine {
    let text = tags.iter().map(|t| format!("- {}\n", t)).collect::<String>();
    let store = CategoryStore::load("/tags.yaml", Some(&text)).unwrap();
    SuggestionEngine::new(store)
}

#[test]
fn query_matches_its_prefix_corpus_entry() {
    let mut e = engine_over(&["linux", "warframe"]);
    let r = e.suggest("lin");
    assert_eq!(r, vec!["linux".to_string()]);
}

#[test]
fn unrelated_query_gets_no_suggestions() {
    let mut e = engine_over(&["linux", "warframe"]);
    assert!(e.suggest("zzz").is_empty());
}

#[test]
fn second_call_is_served_from_the_cache() {
    let mut e = engine_over(&["linux", "warframe"]);
    let first = e.suggest("cat");
    assert_eq!(e.misses(), 1);
    let second = e.suggest("cat");
    assert_eq!(e.misses(), 1);
    assert_eq!(first, second);
}

#[test]
fn adding_a_category_invalidates_the_cache() {
    let mut e = engine_over(&["linux", "warframe"]);
    let before = e.suggest("x");
    assert!(before.is_empty());
    assert_eq!(e.misses(), 1);
    assert!(e.add_category("x".to_string()));
    let after = e.suggest("x");
    assert_eq!(e.misses(), 2);
    assert!(after.contains(&"x".to_string()));
}

#[test]
fn adding_an_existing_category_is_idempotent() {
    let mut e = engine_over(&["linux"]);
    assert!(!e.add_category("linux".to_string()));
    let r = e.suggest("linux");
    assert_eq!(r, vec!["linux".to_string()]);
}

#[test]
fn matching_is_case_insensitive() {
    let mut e = engine_over(&["Linux"]);
    let r = e.suggest("LINUX");
    assert_eq!(r, vec!["Linux".to_string()]);
}

#[test]
fn better_matches_rank_first_and_ties_keep_corpus_order() {
    let corpus: Vec<String> =
        ["warfare", "linux", "linus"].iter().map(|s| s.to_string()).collect();
    let r = compute_suggestions("linu", &corpus);
    // "linux" and "linus" share the same leading trigrams with the query;
    // both outrank "warfare", which does not match at all
    assert_eq!(r.first(), Some(&"linux".to_string()));
    assert!(r.contains(&"linus".to_string()));
    assert!(!r.contains(&"warfare".to_string()));
}

#[test]
fn identical_strings_score_maximal() {
    let corpus: Vec<String> = ["alpha", "alphabet"].iter().map(|s| s.to_string()).collect();
    let r = compute_suggestions("alpha", &corpus);
    assert_eq!(r.first(), Some(&"alpha".to_string()));
}

#[test]
fn cache_evicts_the_least_recently_used_entry() {
    let mut e = engine_over(&["linux"]);
    for i in 0..SUGGESTION_CACHE_CAPACITY {
        e.suggest(&format!("query{}", i));
    }
    assert_eq!(e.misses() as usize, SUGGESTION_CACHE_CAPACITY);
    // refresh the oldest entry, then overflow the cache by one
    e.suggest("query0");
    assert_eq!(e.misses() as usize, SUGGESTION_CACHE_CAPACITY);
    e.suggest("one more");
    // query1 was the least recently used and is gone; query0 survived
    e.suggest("query0");
    assert_eq!(e.misses() as usize, SUGGESTION_CACHE_CAPACITY + 1);
    e.suggest("query1");
    assert_eq!(e.misses() as usize, SUGGESTION_CACHE_CAPACITY + 2);
}

#[test]
fn suggestions_come_from_the_corpus_only() {
    let mut e = engine_over(&["linux", "warframe"]);
    for q in ["l", "w", "lin", "warf", "linuxx"] {
        for s in e.suggest(q) {
            assert!(s == "linux" || s == "warframe");
        }
    }
}
