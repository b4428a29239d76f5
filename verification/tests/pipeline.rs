use spellcheck::bktree::{BKTreeWords, LevMetric};
use spellcheck::bloomfilter::BloomFilter;
use spellcheck::data::{SpellingError, Text, WordDict};
use spellcheck::spellchecker::SpellChecker;

fn dict_of(words: &[&str]) -> WordDict {
    WordDict::new(words.iter().map(|w| w.to_string()).collect())
}

fn text_of(words: &[&str]) -> Text {
    Text::new(words.iter().map(|w| w.to_string()).collect())
}

fn checker_for(words: &[&str]) -> SpellChecker<LevMetric> {
    let tree = BKTreeWords::build(&dict_of(words), LevMetric).expect("dictionary is nonempty");
    let filter = BloomFilter::build(&dict_of(words), 256, 6);
    SpellChecker::new(tree, filter)
}

#[test]
fn known_words_pass_and_unknown_words_are_flagged() {
    let checker = checker_for(&["hej"]);
    let text = text_of(&["hej", "xyzzyx"]);
    let errors = checker.spell_check_text(&text);
    assert_eq!(errors.len(), 1);
    // a one-word dictionary leaves the maximum edge distance at zero, so
    // the search bound admits no candidate and the suggestion is the empty
    // fallback string rather than "hej"
    assert_eq!(
        errors[0].to_line(),
        "Incorrect Word: xyzzyx, Suggested correction: "
    );
}

#[test]
fn flagged_words_get_nearby_suggestions() {
    let checker = checker_for(&["hej", "hejd", "hello", "world"]);
    let text = text_of(&["hej", "hejj", "world", "worlld"]);
    let errors = checker.spell_check_text(&text);
    assert_eq!(errors.len(), 2);
    let lines: Vec<String> = errors.iter().map(|e| e.to_line()).collect();
    assert!(lines
        .iter()
        .any(|l| l == "Incorrect Word: hejj, Suggested correction: hej"
            || l == "Incorrect Word: hejj, Suggested correction: hejd"));
    assert!(lines
        .iter()
        .any(|l| l == "Incorrect Word: worlld, Suggested correction: world"));
}

#[test]
fn dictionary_words_produce_no_errors() {
    let words = ["hej", "hejd", "hello", "koppar", "kroppar"];
    let checker = checker_for(&words);
    let text = text_of(&words);
    let errors = checker.spell_check_text(&text);
    assert_eq!(errors.len(), 0);
}

#[test]
fn record_emission_follows_the_filter_answer() {
    let checker = checker_for(&["hej", "hejd", "hello"]);
    let word = "hejj".to_string();
    assert!(checker.record_for(&word, true).is_none());
    let record = checker.record_for(&word, false).expect("a miss must be flagged");
    assert_eq!(record.to_line().starts_with("Incorrect Word: hejj"), true);
}

#[test]
fn spelling_error_renders_both_line_forms() {
    let with_suggestion = SpellingError::new("hejj", Some("hej".to_string()));
    assert_eq!(
        with_suggestion.to_line(),
        "Incorrect Word: hejj, Suggested correction: hej"
    );
    let without = SpellingError::new("xyzzyx", None);
    assert_eq!(without.to_line(), "Found no correction for word: xyzzyx");
}

#[test]
fn word_dict_lookup_and_accessors() {
    let dict = dict_of(&["hej", "hello"]);
    assert!(dict.word_in_data("hej".to_string()));
    assert!(dict.word_in_data("hello".to_string()));
    assert!(!dict.word_in_data("world".to_string()));
    assert_eq!(dict.get_data().len(), 2);
    assert_eq!(dict.get_data()[0], "hej");
    let text = text_of(&["a", "b", "c"]);
    assert_eq!(text.get_text().len(), 3);
    assert_eq!(text.get_text()[2], "c");
}
