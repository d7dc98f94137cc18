use std::collections::HashMap;

use word_grid::budget::{
    clear_two_letters, construct_letter_map, get_char, letter_map_less_than, two_letter_less_than,
    Word,
};
use word_grid::grid::{
    filter_by_bottom, filter_by_rest, four_word_candidates, four_word_product, missing_index,
    presentation_format, shared_middle_letters, top_row_candidates, Quad,
};
use word_grid::solver::{candidate_words, solve, word_within};

fn w(s: &str) -> Word {
    let c: Vec<char> = s.chars().collect();
    [c[0], c[1], c[2]]
}

fn dictionary(words: &[&str]) -> Vec<String> {
    words.iter().map(|s| s.to_string()).collect()
}

fn run(words: &[&str], seed: &str) -> Vec<Quad> {
    let seed = construct_letter_map(seed);
    let cands = candidate_words(&dictionary(words), &seed);
    solve(&cands, &seed)
}

const REQUIRED: [&str; 12] = [
    "bee", "bet", "met", "bum", "but", "out", "ouf", "bot", "hot", "mot", "tom", "rot",
];
const GRID_LINES: [&str; 8] = ["ber", "oee", "teu", "hem", "bot", "reu", "bhu", "tmr"];

fn scenario_dictionary() -> Vec<&'static str> {
    let mut all: Vec<&str> = REQUIRED.to_vec();
    all.extend_from_slice(&GRID_LINES);
    all
}

#[test]
fn test_letter_map() {
    let mut expected: HashMap<char, usize> = HashMap::new();
    expected.insert('b', 1);
    expected.insert('e', 2);
    expected.insert('r', 1);
    expected.insert('m', 1);
    expected.insert('o', 1);
    expected.insert('u', 1);
    expected.insert('t', 1);
    expected.insert('h', 1);
    let map = construct_letter_map("beermouth");
    for (letter, count) in expected.iter() {
        assert_eq!(map.count_of(*letter), *count);
    }
    assert_eq!(map.len(), expected.values().sum::<usize>());
}

#[test]
fn test_map_less_than() {
    let source_word = construct_letter_map("beermouth");
    assert!(letter_map_less_than(&construct_letter_map("bee"), &source_word));
    assert!(letter_map_less_than(&construct_letter_map("bum"), &source_word));
    assert!(letter_map_less_than(&construct_letter_map("but"), &source_word));
    assert!(letter_map_less_than(&construct_letter_map("out"), &source_word));
    assert!(!letter_map_less_than(&construct_letter_map("boo"), &source_word));
    assert!(!letter_map_less_than(&construct_letter_map("oom"), &source_word));
    assert!(!letter_map_less_than(&construct_letter_map("ouf"), &source_word));
}

#[test]
fn test_shared_middle() {
    let mut words = Vec::new();
    words.push(['b', 'e', 'e']);
    words.push(['b', 'e', 't']);
    words.push(['m', 'e', 't']);
    words.push(['b', 'u', 'm']);
    words.push(['b', 'u', 't']);
    words.push(['o', 'u', 't']);
    words.push(['o', 'u', 'f']);
    words.push(['b', 'o', 't']);
    words.push(['h', 'o', 't']);
    words.push(['m', 'o', 't']);
    words.push(['t', 'o', 'm']);
    words.push(['r', 'o', 't']);
    let mut expected = Vec::new();
    {
        let mut group = Vec::new();
        for ii in 3..7 {
            group.push(words[ii]);
        }
        group.sort();
        expected.push(group);
    }
    {
        let mut group = Vec::new();
        for ii in 7..12 {
            group.push(words[ii]);
        }
        group.sort();
        expected.push(group);
    }
    let mut input_words = words.clone();
    input_words.sort();
    let mut shared = shared_middle_letters(&input_words);
    shared.sort_by(|l, r| l.len().cmp(&r.len()));
    assert_eq!(expected, shared);
}

#[test]
fn get_char_reads_each_position() {
    assert_eq!(get_char("bot", 0), 'b');
    assert_eq!(get_char("bot", 2), 't');
}

#[test]
fn seed_letter_counts_and_subsets() {
    let seed = construct_letter_map("beermouth");
    assert_eq!(seed.count_of('e'), 2);
    assert_eq!(seed.count_of('z'), 0);
    assert!(letter_map_less_than(&construct_letter_map("eer"), &seed));
    assert!(!letter_map_less_than(&construct_letter_map("eee"), &seed));
    assert!(letter_map_less_than(&construct_letter_map(""), &seed));
}

#[test]
fn outer_letters_are_charged_once_each() {
    let mut budget = construct_letter_map("beermouth");
    assert!(two_letter_less_than(&w("bot"), &budget));
    assert!(clear_two_letters(&w("bot"), &mut budget));
    assert_eq!(budget.count_of('b'), 0);
    assert_eq!(budget.count_of('t'), 0);
    assert_eq!(budget.count_of('o'), 1);
    assert_eq!(budget.len(), 7);
    assert!(!clear_two_letters(&w("hot"), &mut budget));
    assert_eq!(budget.len(), 7);
    assert_eq!(budget.count_of('h'), 1);
}

#[test]
fn word_with_repeated_outer_letter_needs_two() {
    let mut budget = construct_letter_map("beermouth");
    assert!(two_letter_less_than(&w("bob"), &budget));
    assert!(!clear_two_letters(&w("bob"), &mut budget));
    assert_eq!(budget.count_of('b'), 1);
    assert!(clear_two_letters(&w("eye"), &mut budget));
    assert_eq!(budget.count_of('e'), 0);
}

#[test]
fn candidates_keep_affordable_three_letter_words_once() {
    let seed = construct_letter_map("beermouth");
    let dict = dictionary(&["bee", "boo", "beer", "ouf", "bee", "tom", "mo", "eer"]);
    let cands = candidate_words(&dict, &seed);
    assert_eq!(cands, vec![w("bee"), w("tom"), w("eer")]);
    assert_eq!(word_within("tom", &seed), Some(w("tom")));
    assert_eq!(word_within("toms", &seed), None);
    assert_eq!(word_within("too", &seed), None);
}

#[test]
fn missing_index_gives_the_fourth_position() {
    assert_eq!(missing_index(0, 1, 2), 3);
    assert_eq!(missing_index(3, 1, 2), 0);
    assert_eq!(missing_index(0, 3, 2), 1);
    assert_eq!(missing_index(1, 0, 3), 2);
}

#[test]
fn quads_fit_the_budget_in_index_order() {
    let seed = construct_letter_map("beermouth");
    let group = vec![w("bee"), w("bet"), w("met"), w("ber"), w("hem")];
    // Any four of these use at least three e's, or two b's, or two t's.
    assert!(four_word_product(&group, &seed).is_empty());
    let group = vec![w("eer"), w("oeb"), w("teu"), w("hem"), w("bet")];
    let quads = four_word_product(&group, &seed);
    assert_eq!(quads, vec![[w("eer"), w("oeb"), w("teu"), w("hem")]]);
    let all = four_word_candidates(&[group.clone(), group], &seed);
    assert_eq!(all.len(), 2);
    assert!(four_word_product(&[], &seed).is_empty());
}

#[test]
fn middle_letter_missing_from_budget_gives_no_quads() {
    let seed = construct_letter_map("beermouth");
    let group = vec![w("bat"), w("hat"), w("mat"), w("rat")];
    assert!(four_word_product(&group, &seed).is_empty());
}

#[test]
fn roles_bottom_and_edges_are_checked() {
    let set = vec![w("eer"), w("oeb"), w("teu"), w("hem"), w("eot"), w("rbu"), w("ehu"), w("tmr")];
    let quads = vec![[w("eer"), w("oeb"), w("teu"), w("hem")]];
    let tops = top_row_candidates(&quads, &set);
    assert_eq!(tops, vec![[w("eer"), w("oeb"), w("teu"), w("hem")]]);
    let bottoms = filter_by_bottom(tops.clone(), &set);
    assert_eq!(bottoms, tops);
    let rest = filter_by_rest(bottoms, &set);
    assert_eq!(rest, tops);
    let short = vec![w("eot")];
    assert!(filter_by_bottom(tops.clone(), &short).is_empty());
    assert!(filter_by_rest(tops, &short).is_empty());
}

#[test]
fn top_row_roles_are_listed_in_order() {
    let set = vec![w("abc"), w("bac")];
    let quads = vec![[w("axx"), w("bxx"), w("cxx"), w("dxx")]];
    let tops = top_row_candidates(&quads, &set);
    assert_eq!(
        tops,
        vec![
            [w("axx"), w("bxx"), w("cxx"), w("dxx")],
            [w("bxx"), w("axx"), w("cxx"), w("dxx")],
        ]
    );
}

#[test]
fn grid_is_row_major() {
    let grid = presentation_format(&[w("ber"), w("oee"), w("teu"), w("hem")]);
    assert_eq!(
        grid,
        vec![vec!['b', 'o', 't'], vec!['h', 'e', 'm'], vec!['u', 'e', 'r']]
    );
}

#[test]
fn beermouth_scenario_reproduces_the_grid() {
    let solutions = run(&scenario_dictionary(), "beermouth");
    assert_eq!(solutions, vec![[w("ber"), w("oee"), w("teu"), w("hem")]]);
    let grid = presentation_format(&solutions[0]);
    assert_eq!(
        grid,
        vec![vec!['b', 'o', 't'], vec!['h', 'e', 'm'], vec!['u', 'e', 'r']]
    );
}

#[test]
fn removing_a_line_word_removes_the_solution() {
    for line in GRID_LINES.iter() {
        let dict: Vec<&str> = scenario_dictionary()
            .into_iter()
            .filter(|d| d != line)
            .collect();
        assert!(run(&dict, "beermouth").is_empty());
    }
}

#[test]
fn single_group_of_four_gives_one_solution() {
    let dict = ["eer", "oeb", "teu", "hem", "eot", "rbu", "ehu", "tmr"];
    let seed = construct_letter_map("beermouth");
    let cands = candidate_words(&dictionary(&dict), &seed);
    assert_eq!(shared_middle_letters(&cands).len(), 1);
    assert_eq!(shared_middle_letters(&cands)[0].len(), 4);
    let solutions = solve(&cands, &seed);
    assert_eq!(solutions, vec![[w("eer"), w("oeb"), w("teu"), w("hem")]]);
    let grid = presentation_format(&solutions[0]);
    assert_eq!(
        grid,
        vec![vec!['e', 'o', 't'], vec!['h', 'e', 'm'], vec!['u', 'b', 'r']]
    );
}

#[test]
fn no_group_of_four_gives_nothing() {
    let dict = ["bee", "bet", "met", "bum", "but", "out", "tom"];
    let seed = construct_letter_map("beermouth");
    let cands = candidate_words(&dictionary(&dict), &seed);
    assert!(shared_middle_letters(&cands).is_empty());
    assert!(solve(&cands, &seed).is_empty());
    assert!(run(&dict, "").is_empty());
}

#[test]
fn same_input_gives_same_output() {
    let first = run(&scenario_dictionary(), "beermouth");
    let second = run(&scenario_dictionary(), "beermouth");
    assert_eq!(first, second);
}
