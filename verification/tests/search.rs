use gridwords::search::first_sub;
use gridwords::{build_trie, eval_grid, Grid, Trie};

fn grid_of(rows: &[&str]) -> Grid {
    let rows: Vec<Vec<u8>> = rows.iter().map(|r| r.as_bytes().to_vec()).collect();
    Grid::from_rows(&rows).unwrap()
}

fn trie_of(words: &[&'static str]) -> Trie {
    let words: Vec<&'static [u8]> = words.iter().map(|w| w.as_bytes()).collect();
    build_trie(&words).unwrap()
}

fn spell_from(
    rows: &[Vec<u8>],
    word: &[u8],
    at: (usize, usize),
    used: &mut Vec<(usize, usize)>,
) -> bool {
    if rows[at.0][at.1] != word[0] || used.contains(&at) {
        return false;
    }
    if word.len() == 1 {
        return true;
    }
    used.push(at);
    let mut found = false;
    for r in 0..rows.len() {
        for c in 0..rows[r].len() {
            let dr = if r > at.0 { r - at.0 } else { at.0 - r };
            let dc = if c > at.1 { c - at.1 } else { at.1 - c };
            if dr.max(dc) == 1 && spell_from(rows, &word[1..], (r, c), used) {
                found = true;
            }
        }
    }
    used.pop();
    found
}

fn brute_force(rows: &[Vec<u8>], words: &[&'static str]) -> Vec<String> {
    let mut out: Vec<String> = Vec::new();
    for w in words {
        if w.is_empty() {
            continue;
        }
        let mut hit = false;
        for r in 0..rows.len() {
            for c in 0..rows[r].len() {
                if spell_from(rows, w.as_bytes(), (r, c), &mut Vec::new()) {
                    hit = true;
                }
            }
        }
        if hit && !out.contains(&w.to_string()) {
            out.push(w.to_string());
        }
    }
    out.sort();
    out
}

fn letters(seed: u64, rows: usize, cols: usize, span: u64) -> Vec<Vec<u8>> {
    let mut state = seed;
    let mut out = Vec::new();
    for _ in 0..rows {
        let mut row = Vec::new();
        for _ in 0..cols {
            state = state
                .wrapping_mul(6364136223846793005)
                .wrapping_add(1442695040888963407);
            row.push(b'a' + ((state >> 33) % span) as u8);
        }
        out.push(row);
    }
    out
}

const SMALL_WORDS: [&str; 40] = [
    "a", "ab", "abc", "abd", "ba", "bad", "bed", "cab", "cad", "dab", "ace", "bead", "abba",
    "aa", "aaa", "aaaa", "b", "bb", "cc", "dd", "ee", "abe", "ebb", "dead", "deed", "add",
    "ad", "da", "ca", "ac", "be", "eb", "ed", "de", "ea", "ae", "cade", "aced", "bade", "abed",
];

#[test]
fn two_by_two_every_pair_of_cells_is_adjacent() {
    let grid = grid_of(&["ab", "cd"]);
    let trie = trie_of(&["ab", "ac", "ad", "abc"]);
    assert_eq!(eval_grid(&grid, &trie), vec!["ab", "abc", "ac", "ad"]);
}

#[test]
fn a_row_of_four_has_no_diagonals() {
    let grid = grid_of(&["abcd"]);
    let trie = trie_of(&["ab", "ac", "ad", "abc", "abcd", "dcba", "bd"]);
    assert_eq!(eval_grid(&grid, &trie), vec!["ab", "abc", "abcd", "dcba"]);
}

#[test]
fn empty_dictionary_finds_nothing() {
    let trie = Trie::new();
    assert_eq!(eval_grid(&grid_of(&["ab", "cd"]), &trie), Vec::<String>::new());
    assert_eq!(eval_grid(&grid_of(&["z"]), &trie), Vec::<String>::new());
    assert_eq!(eval_grid(&grid_of(&[]), &trie), Vec::<String>::new());
}

#[test]
fn empty_grid_finds_nothing() {
    let trie = trie_of(&["a", "ab", "b"]);
    assert_eq!(eval_grid(&grid_of(&[]), &trie), Vec::<String>::new());
    assert_eq!(eval_grid(&grid_of(&["", ""]), &trie), Vec::<String>::new());
}

#[test]
fn word_longer_than_the_grid_is_never_found() {
    let grid = grid_of(&["aa", "aa"]);
    let trie = trie_of(&["a", "aa", "aaa", "aaaa", "aaaaa", "aaaaaa"]);
    assert_eq!(eval_grid(&grid, &trie), vec!["a", "aa", "aaa", "aaaa"]);
}

#[test]
fn a_cell_is_not_used_twice_in_one_word() {
    let grid = grid_of(&["ab"]);
    let trie = trie_of(&["aba", "bab", "ab", "ba"]);
    assert_eq!(eval_grid(&grid, &trie), vec!["ab", "ba"]);
}

#[test]
fn the_empty_word_is_not_listed() {
    let mut trie = trie_of(&["a"]);
    trie.insert(b"");
    assert_eq!(eval_grid(&grid_of(&["a"]), &trie), vec!["a"]);
}

#[test]
fn a_dead_branch_does_not_hide_its_siblings() {
    let grid = grid_of(&["cat", "dog"]);
    let trie = trie_of(&["cab", "cat", "cot", "cod", "dot", "dog", "god", "tag", "tac"]);
    assert_eq!(
        eval_grid(&grid, &trie),
        vec!["cat", "cod", "cot", "dog", "dot", "god", "tac", "tag"]
    );
}

#[test]
fn a_word_below_a_missing_word_is_still_found() {
    let grid = grid_of(&["tent"]);
    let trie = trie_of(&["tent", "tents", "te", "tenth"]);
    assert_eq!(eval_grid(&grid, &trie), vec!["te", "tent"]);
}

#[test]
fn labels_that_fail_midway_are_rewound() {
    let grid = grid_of(&["abx", "cde"]);
    let trie = trie_of(&["abcdefg", "abde", "abdex", "ax", "b"]);
    assert_eq!(eval_grid(&grid, &trie), vec!["abde", "abdex", "b"]);
}

#[test]
fn words_come_in_dictionary_order_each_once() {
    let grid = grid_of(&["dnng", "noii", "etnt", "rmia"]);
    let trie = trie_of(&[
        "tin", "tint", "ten", "tent", "note", "not", "in", "inn", "into", "onto", "dent",
        "tone", "mint", "rent", "term", "it", "nit", "tie", "zebra", "in", "tin",
    ]);
    let found = eval_grid(&grid, &trie);
    let mut sorted = found.clone();
    sorted.sort();
    sorted.dedup();
    assert_eq!(found, sorted);
    assert!(found.contains(&"tint".to_string()));
    assert!(found.contains(&"note".to_string()));
    assert!(!found.contains(&"onto".to_string()));
    assert!(!found.contains(&"zebra".to_string()));
}

#[test]
fn found_words_match_a_search_word_by_word() {
    for seed in 0..40u64 {
        let rows = letters(seed, 1 + (seed % 4) as usize, 1 + ((seed / 4) % 4) as usize, 5);
        let grid = Grid::from_rows(&rows).unwrap();
        let trie = trie_of(&SMALL_WORDS);
        assert_eq!(eval_grid(&grid, &trie), brute_force(&rows, &SMALL_WORDS));
    }
}

#[test]
fn found_words_match_on_four_by_four_grids() {
    for seed in 100..110u64 {
        let rows = letters(seed, 4, 4, 5);
        let grid = Grid::from_rows(&rows).unwrap();
        let trie = trie_of(&SMALL_WORDS);
        assert_eq!(eval_grid(&grid, &trie), brute_force(&rows, &SMALL_WORDS));
    }
}

#[test]
fn insertion_order_does_not_change_the_output() {
    let mut backwards = SMALL_WORDS.to_vec();
    backwards.reverse();
    let mut shuffled = SMALL_WORDS.to_vec();
    shuffled.rotate_left(17);
    shuffled.swap(3, 29);
    let a = trie_of(&SMALL_WORDS);
    let b = trie_of(&backwards);
    let c = trie_of(&shuffled);
    for seed in 0..20u64 {
        let grid = Grid::from_rows(&letters(seed, 3, 3, 5)).unwrap();
        let found = eval_grid(&grid, &a);
        assert_eq!(found, eval_grid(&grid, &b));
        assert_eq!(found, eval_grid(&grid, &c));
    }
}

#[test]
fn searching_twice_gives_the_same_list() {
    let grid = grid_of(&["dnng", "noii", "etnt", "rmia"]);
    let trie = trie_of(&["tin", "tint", "ten", "note", "inn", "into", "onto", "mint"]);
    let first = eval_grid(&grid, &trie);
    let second = eval_grid(&grid, &trie);
    assert_eq!(first, second);
    assert_eq!(first, vec!["inn", "into", "mint", "note", "ten", "tin", "tint"]);
}

#[test]
fn first_sub_finds_the_first_taken_slot() {
    let mut root = Trie::new();
    root.insert(b"cat");
    root.insert(b"dog");
    let (sub, rest) = first_sub(&root.children).unwrap();
    assert_eq!(sub.bytes, b"cat");
    assert_eq!(rest.len(), 23);
    let (sub, rest) = first_sub(rest).unwrap();
    assert_eq!(sub.bytes, b"dog");
    assert_eq!(rest.len(), 22);
    assert!(first_sub(rest).is_none());
}

#[test]
fn first_sub_of_empty_slots_is_none() {
    let root = Trie::new();
    assert!(first_sub(&root.children).is_none());
    assert!(first_sub(&[]).is_none());
}
