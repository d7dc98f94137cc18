use std::collections::{HashMap, HashSet};

use word_grid::guess::{
    filter_matches, gen_guess, is_unique, letter_combos, num_matches, sorted_chars, Combo,
    LetterCombos,
};

fn as_map(combos: &LetterCombos) -> HashMap<Vec<char>, Vec<&String>> {
    combos
        .entries
        .iter()
        .map(|e| (e.key.clone(), e.words.iter().collect()))
        .collect()
}

fn two_combos(head: &String, them: &String, meth: &String) -> LetterCombos {
    LetterCombos {
        entries: vec![
            Combo {
                key: vec!['a', 'd', 'e', 'h'],
                words: vec![head.clone()],
            },
            Combo {
                key: vec!['e', 'h', 'm', 't'],
                words: vec![them.clone(), meth.clone()],
            },
        ],
    }
}

#[test]
fn lib_test_is_unique() {
    assert!(is_unique("abc"));
    assert!(!is_unique("aabc"));
}

#[test]
fn lib_test_letter_combos() {
    let head = "head".to_string();
    let them = "them".to_string();
    let meth = "meth".to_string();
    let mut expected = HashMap::new();
    expected.insert(vec!['a', 'd', 'e', 'h'], vec![&head]);
    expected.insert(vec!['e', 'h', 'm', 't'], vec![&them, &meth]);

    let combos = letter_combos(&[them.to_string(), head.to_string(), meth.to_string()]);
    assert_eq!(as_map(&combos), expected);
}

#[test]
fn lib_test_gen_guess() {
    let head = "head".to_string();
    let them = "them".to_string();
    let meth = "meth".to_string();
    let source = two_combos(&head, &them, &meth);

    let mut words = HashSet::new();
    words.insert(&head);
    words.insert(&them);
    words.insert(&meth);

    // Make a bunch of guesses.
    for _ in 1..10 {
        let guess = gen_guess(&source);
        assert!(words.contains(guess));
    }
}

#[test]
fn lib_test_num_matches() {
    assert_eq!(num_matches(&['a', 'b', 'c'], &['d', 'e', 'f']), 0);
    assert_eq!(num_matches(&['a', 'b', 'd'], &['d', 'e', 'f']), 1);
    assert_eq!(num_matches(&['a', 'd', 'g'], &['d', 'e', 'f']), 1);
    assert_eq!(num_matches(&['a', 'd', 'e'], &['d', 'e', 'f']), 2);
    assert_eq!(num_matches(&['a', 'd', 'f'], &['d', 'e', 'f']), 2);
    assert_eq!(num_matches(&['d', 'f', 'g'], &['d', 'e', 'f']), 2);
    assert_eq!(num_matches(&['a', 'b', 'c'], &['a', 'b', 'c']), 3);
}

#[test]
fn lib_test_filter_matches() {
    let head = "head".to_string();
    let them = "them".to_string();
    let meth = "meth".to_string();
    let mut source = two_combos(&head, &them, &meth);

    // 'math' with three matches should only filter 'head'.
    filter_matches("math", 3, &mut source);

    let mut expected = HashMap::new();
    expected.insert(vec!['e', 'h', 'm', 't'], vec![&them, &meth]);

    assert_eq!(as_map(&source), expected);
}

#[test]
fn main_test_is_unique() {
    assert!(is_unique("abc"));
    assert!(!is_unique("aabc"));
}

#[test]
fn main_test_letter_combos() {
    let head = "head".to_string();
    let them = "them".to_string();
    let meth = "meth".to_string();
    let mut expected = HashMap::new();
    expected.insert(vec!['a', 'd', 'e', 'h'], vec![&head]);
    expected.insert(vec!['e', 'h', 'm', 't'], vec![&them, &meth]);

    let combos = letter_combos(&[them.to_string(), head.to_string(), meth.to_string()]);
    assert_eq!(as_map(&combos), expected);
}

#[test]
fn main_test_gen_guess() {
    let head = "head".to_string();
    let them = "them".to_string();
    let meth = "meth".to_string();
    let source = two_combos(&head, &them, &meth);

    let mut words = HashSet::new();
    words.insert(&head);
    words.insert(&them);
    words.insert(&meth);

    // Make a bunch of guesses.
    for _ in 1..10 {
        let guess = gen_guess(&source);
        assert!(words.contains(guess));
    }
}

#[test]
fn main_test_num_matches() {
    assert_eq!(num_matches(&['a', 'b', 'c'], &['d', 'e', 'f']), 0);
    assert_eq!(num_matches(&['a', 'b', 'd'], &['d', 'e', 'f']), 1);
    assert_eq!(num_matches(&['a', 'd', 'g'], &['d', 'e', 'f']), 1);
    assert_eq!(num_matches(&['a', 'd', 'e'], &['d', 'e', 'f']), 2);
    assert_eq!(num_matches(&['a', 'd', 'f'], &['d', 'e', 'f']), 2);
    assert_eq!(num_matches(&['d', 'f', 'g'], &['d', 'e', 'f']), 2);
    assert_eq!(num_matches(&['a', 'b', 'c'], &['a', 'b', 'c']), 3);
}

#[test]
fn main_test_filter_matches() {
    let head = "head".to_string();
    let them = "them".to_string();
    let meth = "meth".to_string();
    let mut source = two_combos(&head, &them, &meth);

    // 'math' with three matches should only filter 'head'.
    filter_matches("math", 3, &mut source);

    let mut expected = HashMap::new();
    expected.insert(vec!['e', 'h', 'm', 't'], vec![&them, &meth]);

    assert_eq!(as_map(&source), expected);
}

#[test]
fn unique_needs_ascii_and_no_repeats() {
    assert!(is_unique(""));
    assert!(is_unique("abcde"));
    assert!(!is_unique("abcda"));
    assert!(!is_unique("ab\u{e9}"));
}

#[test]
fn letters_are_sorted() {
    assert_eq!(sorted_chars("them"), vec!['e', 'h', 'm', 't']);
    assert_eq!(sorted_chars("banana"), vec!['a', 'a', 'a', 'b', 'n', 'n']);
    assert!(sorted_chars("").is_empty());
}

#[test]
fn combos_keep_input_order_within_a_key() {
    let words = vec!["meth".to_string(), "head".to_string(), "them".to_string()];
    let combos = letter_combos(&words);
    assert_eq!(combos.entries.len(), 2);
    assert_eq!(combos.entries[0].key, vec!['e', 'h', 'm', 't']);
    assert_eq!(combos.entries[0].words, vec!["meth".to_string(), "them".to_string()]);
    assert_eq!(combos.entries[1].key, vec!['a', 'd', 'e', 'h']);
}

#[test]
fn filter_with_no_match_keeps_nothing() {
    let head = "head".to_string();
    let them = "them".to_string();
    let meth = "meth".to_string();
    let mut source = two_combos(&head, &them, &meth);
    filter_matches("zzzz", 1, &mut source);
    assert!(source.entries.is_empty());
    let mut source = two_combos(&head, &them, &meth);
    filter_matches("hate", 3, &mut source);
    assert_eq!(source.entries.len(), 2);
}
