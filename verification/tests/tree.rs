use spellcheck::bktree::{BKTreeWords, LevMetric};
use spellcheck::data::{BuildError, WordDict};
use spellcheck::med::levenshtien_distance;

fn dict_of(words: &[&str]) -> WordDict {
    WordDict::new(words.iter().map(|w| w.to_string()).collect())
}

fn build(words: &[&str]) -> BKTreeWords<LevMetric> {
    BKTreeWords::build(&dict_of(words), LevMetric).expect("dictionary is nonempty")
}

#[test]
fn empty_dictionary_is_refused() {
    let result = BKTreeWords::build(&dict_of(&[]), LevMetric);
    assert!(matches!(result, Err(BuildError::EmptyDictionary)));
}

#[test]
fn duplicates_do_not_create_nodes() {
    let tree = build(&["hej", "hej", "hello", "hej", "hello", "world"]);
    assert_eq!(tree.node_count(), 3);
    let tree2 = build(&["hej", "hej", "hej"]);
    assert_eq!(tree2.node_count(), 1);
}

#[test]
fn node_count_equals_distinct_word_count() {
    let words = ["cat", "cart", "car", "bat", "hat", "dog", "dot", "cat", "car"];
    let tree = build(&words);
    let mut distinct: Vec<&str> = Vec::new();
    for w in words {
        if !distinct.contains(&w) {
            distinct.push(w);
        }
    }
    assert_eq!(tree.node_count(), distinct.len());
}

#[test]
fn nearest_neighbor_is_exact_within_the_bound() {
    let dictionary = ["cat", "cart", "car", "bat", "hat", "dog", "dot", "date", "gate", "late"];
    let tree = build(&dictionary);
    let queries = ["cqt", "carr", "dof", "hqt", "gaze", "latte", "cat", "bet", "dgo"];
    let bound = tree.get_dist_max();
    let mut checked: usize = 0;
    for q in queries {
        let brute_min = dictionary
            .iter()
            .map(|d| levenshtien_distance(d, q))
            .min()
            .unwrap();
        let suggestion = tree.find_correction(q).expect("tree is nonempty");
        if brute_min < bound {
            // the search bound admits the true nearest neighbor, so the
            // pruned traversal must find a word at exactly that distance
            assert_eq!(levenshtien_distance(&suggestion, q), brute_min);
            assert!(dictionary.contains(&suggestion.as_str()));
            checked += 1;
        }
    }
    assert!(checked >= 7, "fixture left the bound too small to test");
}

#[test]
fn repeated_queries_return_identical_results() {
    let tree = build(&["hej", "hejd", "hello", "koppar", "kroppar"]);
    for q in ["hejj", "koppa", "xyzzyx", "hello"] {
        let first = tree.find_correction(q);
        for _ in 0..5 {
            assert_eq!(tree.find_correction(q), first);
        }
    }
}

#[test]
fn nearest_for_hejj_is_at_distance_one() {
    let tree = build(&["hej", "hejd", "hello"]);
    let suggestion = tree.find_correction("hejj").expect("tree is nonempty");
    // both "hej" and "hejd" are valid ties at distance 1; assert the
    // distance, not the exact word
    assert_eq!(levenshtien_distance(&suggestion, "hejj"), 1);
}

#[test]
fn query_on_single_word_tree_returns_some() {
    let tree = build(&["hej"]);
    assert_eq!(tree.node_count(), 1);
    // with one word the running maximum edge distance is zero, so no node
    // can beat the initial bound and the fallback empty string comes back
    assert_eq!(tree.find_correction("hej"), Some(String::new()));
    assert_eq!(tree.get_dist_max(), 0);
}
