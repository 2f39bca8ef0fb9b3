use gridwords::grid::{fits, grid_from_lines, BLANK};
use gridwords::{random_grid, Grid};

fn rows_of(rows: &[&str]) -> Vec<Vec<u8>> {
    rows.iter().map(|r| r.as_bytes().to_vec()).collect()
}

#[test]
fn from_rows_and_back_gives_the_same_rows() {
    let rows = rows_of(&["abc", "def"]);
    let g = Grid::from_rows(&rows).unwrap();
    assert_eq!(g.to_rows(), rows);
}

#[test]
fn from_rows_keeps_each_byte_in_its_cell() {
    let rows = rows_of(&["dnng", "noii", "etnt", "rmia"]);
    let g = Grid::from_rows(&rows).unwrap();
    let back = g.to_rows();
    assert_eq!(back.len(), 4);
    assert_eq!(back[0], b"dnng");
    assert_eq!(back[1], b"noii");
    assert_eq!(back[2], b"etnt");
    assert_eq!(back[3], b"rmia");
    assert_eq!(back[2][3], b't');
    assert_eq!(back[3][0], b'r');
}

#[test]
fn from_rows_refuses_rows_of_different_length() {
    assert!(Grid::from_rows(&rows_of(&["abc", "de"])).is_none());
    assert!(Grid::from_rows(&rows_of(&["ab", "cde"])).is_none());
    assert!(Grid::from_rows(&rows_of(&["", "a"])).is_none());
}

#[test]
fn from_rows_of_nothing_is_the_empty_grid() {
    let g = Grid::from_rows(&Vec::new()).unwrap();
    assert_eq!(g.to_rows(), Vec::<Vec<u8>>::new());
}

#[test]
fn from_rows_of_empty_rows_has_rows_without_cells() {
    let g = Grid::from_rows(&rows_of(&["", "", ""])).unwrap();
    assert_eq!(g.to_rows(), vec![Vec::<u8>::new(), Vec::new(), Vec::new()]);
}

#[test]
fn grid_from_lines_fills_short_lines_with_blanks() {
    let lines = rows_of(&["abc", "d", "", "ignored"]);
    let g = grid_from_lines(3, 3, &lines);
    assert_eq!(BLANK, b'_');
    assert_eq!(g.to_rows(), rows_of(&["abc", "d__", "___"]));
}

#[test]
fn grid_from_lines_of_no_height_is_empty() {
    let g = grid_from_lines(4, 0, &Vec::new());
    assert_eq!(g.to_rows(), Vec::<Vec<u8>>::new());
}

#[test]
fn equals_compares_shape_and_letters() {
    let a = Grid::from_rows(&rows_of(&["ab", "cd"])).unwrap();
    let b = Grid::from_rows(&rows_of(&["ab", "cd"])).unwrap();
    let c = Grid::from_rows(&rows_of(&["ab", "ce"])).unwrap();
    let d = Grid::from_rows(&rows_of(&["abcd"])).unwrap();
    assert!(a.equals(&b));
    assert!(a.equals(&a));
    assert!(!a.equals(&c));
    assert!(!a.equals(&d));
    assert!(!d.equals(&a));
}

#[test]
fn random_grid_has_the_shape_and_only_letters() {
    let g = random_grid((3, 5));
    let rows = g.to_rows();
    assert_eq!(rows.len(), 3);
    for row in rows.iter() {
        assert_eq!(row.len(), 5);
        for b in row.iter() {
            assert!(*b >= b'a' && *b <= b'z');
        }
    }
}

#[test]
fn random_grid_of_no_cells_is_empty() {
    assert_eq!(random_grid((0, 0)).to_rows(), Vec::<Vec<u8>>::new());
    assert_eq!(random_grid((2, 0)).to_rows(), vec![Vec::<u8>::new(), Vec::new()]);
}

#[test]
fn random_grid_uses_more_than_one_letter() {
    let g = random_grid((20, 20));
    let rows = g.to_rows();
    let first = rows[0][0];
    assert!(rows.iter().any(|r| r.iter().any(|b| *b != first)));
}

#[test]
fn fits_allows_shapes_up_to_the_largest_array() {
    let most = isize::MAX as usize;
    assert!(fits((0, 0)));
    assert!(fits((3, 3)));
    assert!(fits((most, 1)));
    assert!(fits((1, most)));
    assert!(fits((0, most)));
    assert!(!fits((most, 2)));
    assert!(!fits((most + 1, 1)));
    assert!(!fits((0, most + 1)));
    assert!(!fits((usize::MAX, usize::MAX)));
}
