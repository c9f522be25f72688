use text_predictor::trie::{Trie, TrieError};

#[test]
fn insert_then_predict_exact_word() {
    let mut trie = Trie::new();
    trie.insert("hello").unwrap();
    assert_eq!(trie.predict("hello"), "hello ");
}

#[test]
fn predict_prefix_of_several_words() {
    let mut trie = Trie::new();
    trie.insert("cat").unwrap();
    trie.insert("car").unwrap();
    trie.insert("cart").unwrap();
    assert_eq!(trie.predict("ca"), "car cart cat ");
    assert_eq!(trie.predict("cat"), "cat ");
    assert_eq!(trie.predict("car"), "car cart ");
    assert_eq!(trie.predict(""), "car cart cat ");
}

#[test]
fn predict_unmatched_prefix_is_empty() {
    let mut trie = Trie::new();
    trie.insert("cat").unwrap();
    assert_eq!(trie.predict("zz"), "");
    assert_eq!(trie.predict("cats"), "");
    assert_eq!(trie.predict("b"), "");
}

#[test]
fn duplicate_insert_does_not_duplicate_prediction() {
    let mut trie = Trie::new();
    trie.insert("dog").unwrap();
    trie.insert("dog").unwrap();
    assert_eq!(trie.predict("dog"), "dog ");
    assert_eq!(trie.predict("do"), "dog ");
}

#[test]
fn single_word_scenario() {
    let mut trie = Trie::new();
    trie.insert("dog").unwrap();
    assert_eq!(trie.predict("do"), "dog ");
    assert_eq!(trie.predict("z"), "");
}

#[test]
fn empty_trie_predicts_nothing() {
    let trie = Trie::new();
    assert_eq!(trie.predict(""), "");
    assert_eq!(trie.predict("a"), "");
    assert_eq!(trie.predict("zebra"), "");
}

#[test]
fn insert_rejects_characters_outside_the_alphabet() {
    let mut trie = Trie::new();
    assert_eq!(trie.insert("Dog"), Err(TrieError::UnsupportedChar));
    assert_eq!(trie.insert("d-g"), Err(TrieError::UnsupportedChar));
    assert_eq!(trie.insert("d g"), Err(TrieError::UnsupportedChar));
    assert_eq!(trie.predict(""), "");
    trie.insert("dog").unwrap();
    assert_eq!(trie.insert("Cat"), Err(TrieError::UnsupportedChar));
    assert_eq!(trie.predict(""), "dog ");
}

#[test]
fn load_vocabulary_inserts_every_line() {
    let mut trie = Trie::new();
    trie.load("cat\ncar\ncart\n").unwrap();
    assert_eq!(trie.predict("ca"), "car cart cat ");
}

#[test]
fn load_skips_empty_lines() {
    let mut trie = Trie::new();
    trie.load("cat\n\ncar\n").unwrap();
    assert_eq!(trie.predict("ca"), "car cat ");
    assert_eq!(trie.predict(""), "car cat ");
}

#[test]
fn load_without_trailing_newline() {
    let mut trie = Trie::new();
    trie.load("cat\ncar").unwrap();
    assert_eq!(trie.predict("ca"), "car cat ");
}

#[test]
fn load_rejects_bad_line_and_leaves_trie_unchanged() {
    let mut trie = Trie::new();
    trie.insert("cat").unwrap();
    assert_eq!(trie.load("dog\nBad\n"), Err(TrieError::UnsupportedChar));
    assert_eq!(trie.predict(""), "cat ");
    trie.load("dog\n").unwrap();
    assert_eq!(trie.predict(""), "cat dog ");
}

#[test]
fn insert_empty_word_marks_root() {
    let mut trie = Trie::new();
    trie.insert("").unwrap();
    assert_eq!(trie.predict(""), " ");
    assert_eq!(trie.predict("a"), "");
}
