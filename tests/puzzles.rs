use word_grid::puzzles::{
    collect_matching_words, find_row, has_insert_five, has_insert_front, is_word, same_text, spells,
};

#[test]
fn test_has_insert_front() {
    fn help_first(five: &str, six: &str) -> bool {
        has_insert_front(five.as_bytes(), six.as_bytes())
    }

    assert!(help_first("reach", "breach"));
    assert!(help_first("creak", "ccreak"));
    assert!(!help_first("creak", "creaks"));
    assert!(!help_first("crept", "accept"));
}

#[test]
fn test_has_insert_five() {
    fn help_five(six: &str, seven: &str) -> bool {
        has_insert_five(six.as_bytes(), seven.as_bytes())
    }

    assert!(help_five("abcdef", "abcdgef"));
    assert!(!help_five("creakk", "creakss"));
}

#[test]
fn keyboard_rows() {
    assert_eq!(find_row("q"), 1);
    assert_eq!(find_row("p"), 1);
    assert_eq!(find_row("a"), 2);
    assert_eq!(find_row("l"), 2);
    assert_eq!(find_row("z"), 3);
    assert_eq!(find_row("m"), 3);
}

#[test]
fn words_are_looked_up_by_letters() {
    let words = vec!["bot".to_string(), "tom".to_string()];
    assert!(is_word(&['t', 'o', 'm'], &words));
    assert!(!is_word(&['t', 'o'], &words));
    assert!(!is_word(&['m', 'o', 't'], &words));
    assert!(spells("bot", &['b', 'o', 't']));
    assert!(!spells("bot", &['b', 'o', 'x']));
}

#[test]
fn words_grouped_by_ending() {
    let words: Vec<String> = ["lack", "back", "bell", "sack", "tell"]
        .iter()
        .map(|s| s.to_string())
        .collect();
    let groups = collect_matching_words(words);
    assert_eq!(groups.len(), 2);
    assert_eq!(groups[0].suffix, "ack");
    assert_eq!(groups[0].prefixes, vec!["l".to_string(), "b".to_string(), "s".to_string()]);
    assert_eq!(groups[1].suffix, "ell");
    assert_eq!(groups[1].prefixes, vec!["b".to_string(), "t".to_string()]);
    assert!(same_text("ack", "ack"));
    assert!(!same_text("ack", "acks"));
}
