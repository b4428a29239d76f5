use spellcheck::bloomfilter::BloomFilter;
use spellcheck::data::WordDict;

/// The optimal-parameter formulas for a target false-positive rate, as the
/// filter's callers compute them.
fn bloom_params(cardinality: usize, accepted_error_rate: f32) -> (u64, u32) {
    let two: f32 = 2.0;
    let optimal_num_hashers = -(accepted_error_rate.ln() / two.ln()) as u32;
    let optimal_len =
        ((cardinality as f32) * (-accepted_error_rate.ln() / (two.ln()).powi(2))) as u64;
    // a zero hash count is tolerated (every word then passes the filter),
    // but a zero-length bit array is not: the derived indices are reduced
    // modulo the length, so the library requires at least one bit
    (optimal_len.max(1), optimal_num_hashers)
}

fn dict_of(words: &[&str]) -> WordDict {
    WordDict::new(words.iter().map(|w| w.to_string()).collect())
}

#[test]
fn no_false_negatives_across_error_rates() {
    let words: Vec<String> = (0..300).map(|i| format!("word{}", i)).collect();
    let dict = WordDict::new(words.clone());
    for rate in [0.5f32, 0.1, 0.01] {
        let (len, k) = bloom_params(words.len(), rate);
        let filter = BloomFilter::build(&dict, len, k);
        for w in &words {
            assert!(filter.in_filter(w));
        }
    }
}

#[test]
fn false_positive_rate_is_near_the_configured_rate() {
    let words: Vec<String> = (0..2000).map(|i| format!("word{}", i)).collect();
    let dict = WordDict::new(words);
    let rate = 0.05f32;
    let (len, k) = bloom_params(2000, rate);
    let filter = BloomFilter::build(&dict, len, k);
    let samples = 4000usize;
    let mut false_positives = 0usize;
    for i in 0..samples {
        if filter.in_filter(&format!("absent{}", i)) {
            false_positives += 1;
        }
    }
    // expected about rate * samples = 200; allow generous statistical slack
    let observed = false_positives as f32 / samples as f32;
    assert!(observed < rate * 3.0, "observed rate {} too high", observed);
}

#[test]
fn filter_parameters_are_stored() {
    let dict = dict_of(&["hej", "hello"]);
    let filter = BloomFilter::build(&dict, 97, 5);
    assert_eq!(filter.optimal_len, 97);
    assert_eq!(filter.optimal_num_hashers, 5);
}

#[test]
fn membership_queries_are_idempotent() {
    let dict = dict_of(&["hej", "hejd", "hello"]);
    let (len, k) = bloom_params(3, 0.01);
    let filter = BloomFilter::build(&dict, len, k);
    for w in ["hej", "hello", "xyzzyx", "world"] {
        let first = filter.in_filter(&w.to_string());
        for _ in 0..5 {
            assert_eq!(filter.in_filter(&w.to_string()), first);
        }
    }
}
