use exercises::phonecode::code_seq;
use exercises::trie::{add_word, try_add_word, word_digits, Node};
use std::collections::HashMap;

fn keypad() -> HashMap<u32, u8> {
    let groups: [(u8, &str); 10] = [
        (0, "e"),
        (1, "jnq"),
        (2, "rwx"),
        (3, "dsy"),
        (4, "ft"),
        (5, "am"),
        (6, "civ"),
        (7, "bku"),
        (8, "lop"),
        (9, "ghz"),
    ];
    let mut dict = HashMap::new();
    for (digit, letters) in groups {
        for c in letters.chars() {
            dict.insert(c as u32, digit);
        }
    }
    dict
}

fn trie_of(words: &[&str]) -> Node {
    let dict = keypad();
    let mut root = Node::default();
    for w in words {
        add_word(&w.to_string(), &mut root, &dict);
    }
    root
}

#[test]
fn encodes_split_words() {
    let root = trie_of(&["mir", "Mix", "Tor"]);
    let result = code_seq(&root, &[5, 6, 2, 4, 8, 2], true);
    assert_eq!(result, ["mir Tor", "Mix Tor"]);
}

#[test]
fn encodes_with_digits_standing_for_themselves() {
    let root = trie_of(&["O\"l", "Po", "Midas", "Opa", "da", "so"]);
    let result = code_seq(&root, &[8, 8, 5, 6, 3, 5, 3, 8], true);
    assert_eq!(result, ["O\"l Midas 8", "Po Midas 8", "Opa 6 da so"]);
}

#[test]
fn single_unknown_digit_stands_for_itself() {
    let root = trie_of(&["da"]);
    assert_eq!(code_seq(&root, &[7], true), ["7"]);
    assert!(code_seq(&root, &[7], false).is_empty());
}

#[test]
fn use_number_governs_only_the_first_digit() {
    let root = trie_of(&["da"]);
    assert!(code_seq(&root, &[7, 7], false).is_empty());
    assert!(code_seq(&root, &[7, 7], true).is_empty());
    assert_eq!(code_seq(&root, &[7, 3, 5], true), ["7 da"]);
    assert_eq!(code_seq(&root, &[3, 5, 7], false), ["da 7"]);
    assert_eq!(code_seq(&root, &[3, 5], false), ["da"]);
}

#[test]
fn search_collects_words_along_path() {
    let root = trie_of(&["da", "dam", "d", "so"]);
    assert_eq!(root.search_seq(&[3, 5, 5]), ["d", "da", "dam"]);
    assert_eq!(root.search_seq(&[3, 5, 1]), ["d", "da"]);
    assert!(root.search_seq(&[]).is_empty());
}

#[test]
fn add_word_files_under_lowercase_digits() {
    let root = trie_of(&["Mix", "mir"]);
    assert_eq!(root.search_seq(&[5, 6, 2]), ["Mix", "mir"]);
    assert!(root.words.is_empty());
}

#[test]
fn word_digits_skips_quotes_and_hyphens() {
    let dict = keypad();
    assert_eq!(word_digits(&"o\"l-e".to_string(), &dict), Some(vec![8, 8, 0]));
    assert_eq!(word_digits(&"O".to_string(), &dict), None);
}

#[test]
fn try_add_word_refuses_unknown_letters() {
    let dict = keypad();
    let mut root = Node::default();
    assert!(try_add_word(&"Tor".to_string(), &mut root, &dict));
    assert!(!try_add_word(&"T0r".to_string(), &mut root, &dict));
    assert_eq!(root.search_seq(&[4, 8, 2]), ["Tor"]);
}
