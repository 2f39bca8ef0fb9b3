use gridwords::frontier::{verify_chain, Frontier, NO_PARENT};
use gridwords::Grid;

fn grid_of(rows: &[&str]) -> Grid {
    let rows: Vec<Vec<u8>> = rows.iter().map(|r| r.as_bytes().to_vec()).collect();
    Grid::from_rows(&rows).unwrap()
}

fn path_of(log: &[(usize, (usize, usize))], mut i: usize) -> Vec<(usize, usize)> {
    let mut cells = Vec::new();
    while i != NO_PARENT {
        cells.push(log[i].1);
        i = log[i].0;
    }
    cells.reverse();
    cells
}

fn frame(f: &Frontier, n: usize) -> std::ops::Range<usize> {
    let lo = f.level_stack[n - 1];
    let hi = if n < f.level_stack.len() {
        f.level_stack[n]
    } else {
        f.position_stack.len()
    };
    lo..hi
}

#[test]
fn sentinel_is_the_largest_index() {
    assert_eq!(NO_PARENT, usize::MAX);
}

#[test]
fn verify_chain_with_the_sentinel_is_free() {
    let log = vec![(NO_PARENT, (0, 0))];
    assert!(verify_chain(&log, NO_PARENT, (0, 0)));
    assert!(verify_chain(&Vec::new(), NO_PARENT, (3, 4)));
}

#[test]
fn verify_chain_walks_the_parents() {
    let log = vec![
        (NO_PARENT, (0, 0)),
        (NO_PARENT, (5, 5)),
        (0, (0, 1)),
        (2, (1, 1)),
        (1, (5, 6)),
    ];
    assert!(!verify_chain(&log, 3, (1, 1)));
    assert!(!verify_chain(&log, 3, (0, 1)));
    assert!(!verify_chain(&log, 3, (0, 0)));
    assert!(verify_chain(&log, 3, (5, 5)));
    assert!(verify_chain(&log, 3, (1, 0)));
    assert!(!verify_chain(&log, 4, (5, 5)));
    assert!(verify_chain(&log, 4, (0, 0)));
    assert!(verify_chain(&log, 0, (0, 1)));
}

#[test]
fn new_frontier_is_empty() {
    let f = Frontier::new();
    assert!(f.position_stack.is_empty());
    assert!(f.level_stack.is_empty());
    assert!(f.word_stack.is_empty());
}

#[test]
fn seed_appends_every_cell_with_the_byte_row_by_row() {
    let g = grid_of(&["aba", "bab"]);
    let mut f = Frontier::new();
    f.seed(&g, b'a');
    assert_eq!(
        f.position_stack,
        vec![(NO_PARENT, (0, 0)), (NO_PARENT, (0, 2)), (NO_PARENT, (1, 1))]
    );
    assert!(f.level_stack.is_empty());
    assert!(f.word_stack.is_empty());
    f.seed(&g, b'z');
    assert_eq!(f.position_stack.len(), 3);
}

#[test]
fn extend_adds_free_neighbours_in_their_order() {
    let g = grid_of(&["ab", "ba"]);
    let mut f = Frontier::new();
    f.seed(&g, b'a');
    f.extend(&g, 0, b'b');
    assert_eq!(
        f.position_stack,
        vec![
            (NO_PARENT, (0, 0)),
            (NO_PARENT, (1, 1)),
            (0, (1, 0)),
            (0, (0, 1)),
            (1, (1, 0)),
            (1, (0, 1)),
        ]
    );
}

#[test]
fn extend_skips_a_cell_that_the_path_holds() {
    let g = grid_of(&["aa"]);
    let mut f = Frontier::new();
    assert!(f.advance(&g, b'a'));
    assert!(f.advance(&g, b'a'));
    assert_eq!(
        f.position_stack,
        vec![
            (NO_PARENT, (0, 0)),
            (NO_PARENT, (0, 1)),
            (0, (0, 1)),
            (1, (0, 0)),
        ]
    );
    assert!(!f.advance(&g, b'a'));
    assert_eq!(f.position_stack.len(), 4);
    assert_eq!(f.level_stack, vec![0, 2, 4]);
    assert_eq!(f.word_stack, b"aaa");
}

#[test]
fn advance_keeps_word_and_levels_in_step() {
    let g = grid_of(&["cat", "xxx"]);
    let mut f = Frontier::new();
    assert!(f.advance(&g, b'c'));
    assert_eq!(f.level_stack, vec![0]);
    assert_eq!(f.word_stack, b"c");
    assert!(f.advance(&g, b'a'));
    assert_eq!(f.level_stack, vec![0, 1]);
    assert!(f.advance(&g, b't'));
    assert_eq!(f.level_stack, vec![0, 1, 2]);
    assert_eq!(f.word_stack, b"cat");
    assert_eq!(
        f.position_stack,
        vec![(NO_PARENT, (0, 0)), (0, (0, 1)), (1, (0, 2))]
    );
    assert_eq!(path_of(&f.position_stack, 2), vec![(0, 0), (0, 1), (0, 2)]);
}

#[test]
fn advance_tells_when_no_path_is_left() {
    let g = grid_of(&["cat", "xxx"]);
    let mut f = Frontier::new();
    assert!(!f.advance(&g, b'q'));
    assert_eq!(f.level_stack, vec![0]);
    assert_eq!(f.word_stack, b"q");
    assert!(f.position_stack.is_empty());
    let mut f = Frontier::new();
    assert!(f.advance(&g, b'c'));
    assert!(!f.advance(&g, b't'));
}

#[test]
fn advance_on_an_empty_grid_finds_nothing() {
    let g = Grid::from_rows(&Vec::new()).unwrap();
    let mut f = Frontier::new();
    assert!(!f.advance(&g, b'a'));
}

#[test]
fn rewind_cuts_all_three_logs() {
    let g = grid_of(&["cat", "xxx"]);
    let mut f = Frontier::new();
    f.advance(&g, b'c');
    f.advance(&g, b'a');
    f.advance(&g, b't');
    f.rewind(1);
    assert_eq!(f.level_stack, vec![0]);
    assert_eq!(f.word_stack, b"c");
    assert_eq!(f.position_stack, vec![(NO_PARENT, (0, 0))]);
    f.rewind(5);
    assert_eq!(f.level_stack, vec![0]);
    assert_eq!(f.word_stack, b"c");
    assert_eq!(f.position_stack.len(), 1);
    f.rewind(0);
    assert!(f.level_stack.is_empty());
    assert!(f.word_stack.is_empty());
    assert!(f.position_stack.is_empty());
}

#[test]
fn rewind_then_advance_gives_the_same_frames_again() {
    let g = grid_of(&["abab", "baba", "abab"]);
    let mut f = Frontier::new();
    f.advance(&g, b'a');
    f.advance(&g, b'b');
    let levels = f.level_stack.clone();
    let log = f.position_stack.clone();
    f.advance(&g, b'a');
    f.advance(&g, b'b');
    f.rewind(2);
    assert_eq!(f.level_stack, levels);
    assert_eq!(f.position_stack, log);
    assert_eq!(f.word_stack, b"ab");
}

#[test]
fn paths_never_visit_a_cell_twice() {
    let g = grid_of(&["aaa", "aaa", "aaa"]);
    let mut f = Frontier::new();
    for n in 1..=9usize {
        assert!(f.advance(&g, b'a'));
        for i in frame(&f, n) {
            let path = path_of(&f.position_stack, i);
            assert_eq!(path.len(), n);
            for (k, c) in path.iter().enumerate() {
                assert!(!path[..k].contains(c));
            }
        }
    }
    assert!(!f.advance(&g, b'a'));
}

#[test]
fn paths_go_from_cell_to_neighbouring_cell() {
    let g = grid_of(&["abc", "bcb", "cba"]);
    let mut f = Frontier::new();
    let word = b"abcbc";
    for (n, b) in word.iter().enumerate() {
        assert!(f.advance(&g, *b));
        for i in frame(&f, n + 1) {
            let path = path_of(&f.position_stack, i);
            for k in 1..path.len() {
                let (p, q) = (path[k - 1], path[k]);
                let dr = if p.0 > q.0 { p.0 - q.0 } else { q.0 - p.0 };
                let dc = if p.1 > q.1 { p.1 - q.1 } else { q.1 - p.1 };
                assert_eq!(dr.max(dc), 1);
            }
            let rows = g.to_rows();
            for (k, c) in path.iter().enumerate() {
                assert_eq!(rows[c.0][c.1], word[k]);
            }
        }
    }
}

#[test]
fn a_frame_counts_every_path() {
    let g = grid_of(&["aa", "aa"]);
    let mut f = Frontier::new();
    let mut sizes = Vec::new();
    for n in 1..=4usize {
        f.advance(&g, b'a');
        sizes.push(frame(&f, n).len());
    }
    assert_eq!(sizes, vec![4, 12, 24, 24]);
}
