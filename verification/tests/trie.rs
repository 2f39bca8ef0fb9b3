use gridwords::{build_trie, InvalidWord, Trie};

fn walk(node: &Trie, w: &[u8]) -> bool {
    if !w.starts_with(node.bytes) {
        return false;
    }
    let rest = &w[node.bytes.len()..];
    if rest.is_empty() {
        return node.end;
    }
    if rest[0] < b'a' || rest[0] > b'z' {
        return false;
    }
    match &node.children[(rest[0] - b'a') as usize] {
        Some(c) => walk(c, rest),
        None => false,
    }
}

fn well_formed(node: &Trie) -> bool {
    if node.children.len() != 26 {
        return false;
    }
    if !node.bytes.iter().all(|b| b.is_ascii_lowercase()) {
        return false;
    }
    for (i, slot) in node.children.iter().enumerate() {
        if let Some(c) = slot {
            if c.bytes.is_empty() || c.bytes[0] as usize != 97 + i || !well_formed(c) {
                return false;
            }
        }
    }
    true
}

fn compact(node: &Trie) -> bool {
    for slot in node.children.iter() {
        if let Some(c) = slot {
            let taken = c.children.iter().filter(|s| s.is_some()).count();
            if !(c.end || taken >= 2) || !compact(c) {
                return false;
            }
        }
    }
    true
}

fn count_nodes(node: &Trie) -> usize {
    let mut n = 1;
    for slot in node.children.iter() {
        if let Some(c) = slot {
            n += count_nodes(c);
        }
    }
    n
}

#[test]
fn new_trie_is_an_empty_root() {
    let t = Trie::new();
    assert!(!t.end);
    assert!(t.bytes.is_empty());
    assert_eq!(t.children.len(), 26);
    assert!(t.children.iter().all(|c| c.is_none()));
    assert!(!walk(&t, b""));
    assert!(!walk(&t, b"a"));
}

#[test]
fn from_bytes_is_a_leaf_that_ends_a_word() {
    let t = Trie::from_bytes(b"cat");
    assert!(t.end);
    assert_eq!(t.bytes, b"cat");
    assert_eq!(t.children.len(), 26);
    assert!(t.children.iter().all(|c| c.is_none()));
    assert!(walk(&t, b"cat"));
    assert!(!walk(&t, b"ca"));
}

#[test]
fn insert_one_word_makes_one_child_with_the_whole_label() {
    let mut t = Trie::new();
    t.insert(b"cat");
    let c = t.children[2].as_ref().unwrap();
    assert_eq!(c.bytes, b"cat");
    assert!(c.end);
    assert_eq!(count_nodes(&t), 2);
    assert!(walk(&t, b"cat"));
    assert!(!walk(&t, b"ca"));
    assert!(!walk(&t, b"cats"));
}

#[test]
fn insert_a_longer_word_goes_below_the_shorter() {
    let mut t = Trie::new();
    t.insert(b"cat");
    t.insert(b"cats");
    let c = t.children[2].as_ref().unwrap();
    assert_eq!(c.bytes, b"cat");
    assert!(c.end);
    let s = c.children[18].as_ref().unwrap();
    assert_eq!(s.bytes, b"s");
    assert!(s.end);
    assert_eq!(count_nodes(&t), 3);
}

#[test]
fn insert_a_diverging_word_splits_the_label() {
    let mut t = Trie::new();
    t.insert(b"cat");
    t.insert(b"car");
    let c = t.children[2].as_ref().unwrap();
    assert_eq!(c.bytes, b"ca");
    assert!(!c.end);
    let tail_t = c.children[19].as_ref().unwrap();
    assert_eq!(tail_t.bytes, b"t");
    assert!(tail_t.end);
    let tail_r = c.children[17].as_ref().unwrap();
    assert_eq!(tail_r.bytes, b"r");
    assert!(tail_r.end);
    assert_eq!(count_nodes(&t), 4);
    assert!(walk(&t, b"cat"));
    assert!(walk(&t, b"car"));
    assert!(!walk(&t, b"ca"));
}

#[test]
fn insert_a_prefix_of_a_label_splits_and_marks_the_head() {
    let mut t = Trie::new();
    t.insert(b"cats");
    t.insert(b"cat");
    let c = t.children[2].as_ref().unwrap();
    assert_eq!(c.bytes, b"cat");
    assert!(c.end);
    let s = c.children[18].as_ref().unwrap();
    assert_eq!(s.bytes, b"s");
    assert!(s.end);
    assert!(walk(&t, b"cat"));
    assert!(walk(&t, b"cats"));
}

#[test]
fn insert_twice_changes_nothing() {
    let mut t = Trie::new();
    t.insert(b"cat");
    t.insert(b"car");
    let before = count_nodes(&t);
    t.insert(b"cat");
    t.insert(b"car");
    assert_eq!(count_nodes(&t), before);
    assert!(walk(&t, b"cat"));
    assert!(walk(&t, b"car"));
    assert!(well_formed(&t));
}

#[test]
fn insert_keeps_the_children_of_a_split_node() {
    let mut t = Trie::new();
    t.insert(b"abcd");
    t.insert(b"abcde");
    t.insert(b"abcdf");
    t.insert(b"abx");
    let ab = t.children[0].as_ref().unwrap();
    assert_eq!(ab.bytes, b"ab");
    assert!(!ab.end);
    let cd = ab.children[2].as_ref().unwrap();
    assert_eq!(cd.bytes, b"cd");
    assert!(cd.end);
    assert_eq!(cd.children[4].as_ref().unwrap().bytes, b"e");
    assert_eq!(cd.children[5].as_ref().unwrap().bytes, b"f");
    assert_eq!(ab.children[23].as_ref().unwrap().bytes, b"x");
    for w in [&b"abcd"[..], b"abcde", b"abcdf", b"abx"] {
        assert!(walk(&t, w));
    }
    for w in [&b"ab"[..], b"abc", b"abcdg", b"a", b""] {
        assert!(!walk(&t, w));
    }
}

#[test]
fn insert_the_empty_word_marks_the_root() {
    let mut t = Trie::new();
    t.insert(b"");
    assert!(t.end);
    assert!(t.bytes.is_empty());
    assert!(t.children.iter().all(|c| c.is_none()));
}

#[test]
fn insert_below_a_node_with_a_label_splits_it_at_the_start() {
    let mut t = Trie::from_bytes(b"abc");
    t.insert(b"xyz");
    assert!(t.bytes.is_empty());
    assert!(!t.end);
    assert_eq!(t.children[0].as_ref().unwrap().bytes, b"abc");
    assert_eq!(t.children[23].as_ref().unwrap().bytes, b"xyz");
}

#[test]
fn every_word_of_the_list_is_accepted_and_no_other() {
    let words: Vec<&'static [u8]> = vec![
        b"tea", b"ten", b"tent", b"to", b"in", b"inn", b"i", b"dine", b"diner", b"tinder",
    ];
    let t = build_trie(&words).unwrap();
    assert!(well_formed(&t));
    for w in words.iter() {
        assert!(walk(&t, w));
    }
    for w in [&b"t"[..], b"te", b"tenth", b"di", b"din", b"dines", b"", b"z", b"innn"] {
        assert!(!walk(&t, w));
    }
}

#[test]
fn the_order_of_the_words_does_not_change_what_is_accepted() {
    let one: Vec<&'static [u8]> = vec![b"car", b"cat", b"cats", b"dog", b"do", b"c"];
    let two: Vec<&'static [u8]> = vec![b"c", b"do", b"dog", b"cats", b"cat", b"car"];
    let a = build_trie(&one).unwrap();
    let b = build_trie(&two).unwrap();
    let probes: Vec<&'static [u8]> = vec![
        b"car", b"cat", b"cats", b"dog", b"do", b"c", b"ca", b"d", b"", b"cart", b"dogs",
    ];
    for w in probes.iter() {
        assert_eq!(walk(&a, w), walk(&b, w));
    }
    assert!(well_formed(&a) && well_formed(&b));
}

#[test]
fn build_trie_of_no_words_is_the_empty_root() {
    let t = build_trie(&[]).unwrap();
    assert!(!t.end);
    assert!(t.children.iter().all(|c| c.is_none()));
}

#[test]
fn build_trie_rejects_an_upper_case_letter() {
    let words: Vec<&'static [u8]> = vec![b"ab", b"Cd", b"ef"];
    assert_eq!(build_trie(&words).err(), Some(InvalidWord { index: 1 }));
}

#[test]
fn build_trie_names_the_first_bad_word() {
    let words: Vec<&'static [u8]> = vec![b"ab", b"c d", b"e-f", b"gh"];
    assert_eq!(build_trie(&words).err(), Some(InvalidWord { index: 1 }));
    let words: Vec<&'static [u8]> = vec![b"a{", b"ok"];
    assert_eq!(build_trie(&words).err(), Some(InvalidWord { index: 0 }));
    let words: Vec<&'static [u8]> = vec![b"ok", b"`a"];
    assert_eq!(build_trie(&words).err(), Some(InvalidWord { index: 1 }));
}

#[test]
fn build_trie_accepts_the_ends_of_the_alphabet() {
    let words: Vec<&'static [u8]> = vec![b"az", b"za"];
    let t = build_trie(&words).unwrap();
    assert!(walk(&t, b"az"));
    assert!(walk(&t, b"za"));
}

#[test]
fn is_word_tells_letters_from_other_bytes() {
    assert!(gridwords::trie::is_word(b"abcxyz"));
    assert!(gridwords::trie::is_word(b""));
    assert!(!gridwords::trie::is_word(b"abc1"));
    assert!(!gridwords::trie::is_word(b"A"));
}

#[test]
fn shared_len_is_the_length_of_the_common_start() {
    assert_eq!(gridwords::trie::shared_len(b"cat", b"car"), 2);
    assert_eq!(gridwords::trie::shared_len(b"cat", b"cats"), 3);
    assert_eq!(gridwords::trie::shared_len(b"cat", b"dog"), 0);
    assert_eq!(gridwords::trie::shared_len(b"", b"dog"), 0);
    assert_eq!(gridwords::trie::shared_len(b"same", b"same"), 4);
}

#[test]
fn labels_are_as_long_as_they_can_be() {
    let orders: Vec<Vec<&'static [u8]>> = vec![
        vec![b"tea", b"ten", b"tent", b"to", b"in", b"inn", b"i", b"dine", b"diner", b"tinder"],
        vec![b"tinder", b"diner", b"dine", b"i", b"inn", b"in", b"to", b"tent", b"ten", b"tea"],
        vec![b"inn", b"tent", b"tea", b"tinder", b"i", b"dine", b"to", b"ten", b"diner", b"in"],
    ];
    let mut sizes = Vec::new();
    for words in orders.iter() {
        let t = build_trie(words).unwrap();
        assert!(compact(&t));
        assert!(well_formed(&t));
        sizes.push(count_nodes(&t));
    }
    assert_eq!(sizes, vec![13, 13, 13]);
}
