use scrying_glass::lexicon::word_index;

#[test]
fn word_index_finds_first_match() {
    let words: Vec<String> = ["fire", "water", "storm", "water"].iter().map(|w| w.to_string()).collect();
    assert_eq!(word_index(&words, "fire"), Some(0));
    assert_eq!(word_index(&words, "water"), Some(1));
    assert_eq!(word_index(&words, "storm"), Some(2));
    assert_eq!(word_index(&words, "love"), None);
    assert_eq!(word_index(&Vec::new(), "fire"), None);
}
