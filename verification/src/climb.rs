//! What a hill climb over grids needs from the search: the score of a grid,
//! the grids one change away from it, and the rule that ends the climb.

use vstd::prelude::*;
use crate::geometry::{all_cells, all_cells_spec};
use crate::grid::Grid;
use crate::search::{eval_grid, found_words};
use crate::trie::Trie;

verus! {

/// The number of words of the dictionary that the grid holds.
pub fn score(grid: &Grid, trie: &Trie) -> (n: usize)
    requires
        trie.wf(),
    ensures
        n == found_words(*grid, *trie).len(),
{
    let words = eval_grid(grid, trie);
    assert(crate::search::texts_of(words@).len() == words@.len());
    words.len()
}

/// `out` is `orig` with letter `v1` put in cell `c1` and then letter `v2`
/// in cell `c2`.
pub open spec fn changed_twice(
    orig: Grid,
    out: Grid,
    c1: (usize, usize),
    v1: u8,
    c2: (usize, usize),
    v2: u8,
) -> bool {
    &&& out.dims() == orig.dims()
    &&& forall|c: (usize, usize)|
        out.has(c) ==> #[trigger] out.letter(c) == (if c == c2 {
            v2
        } else if c == c1 {
            v1
        } else {
            orig.letter(c)
        })
}

/// Where the grid with the `a`-th cell set to the `x`-th letter and the
/// `b`-th cell set to the `y`-th letter stands among the neighbours.
pub open spec fn nb_index(a: int, x: int, b: int, y: int) -> int {
    ((a * 26 + x) * 9 + b) * 26 + y
}

/// Every grid that differs from `grid` by putting a letter in one cell of
/// its upper left three-by-three corner and then a letter in a second such
/// cell, which may be the same: cell by cell and letter by letter for the
/// first change, and within that for the second.
pub fn grid_nbs(grid: &Grid) -> (out: Vec<Grid>)
    requires
        3 <= grid.rows(),
        3 <= grid.cols(),
    ensures
        out@.len() == 54756,
        forall|a: int, x: int, b: int, y: int|
            0 <= a < 9 && 0 <= x < 26 && 0 <= b < 9 && 0 <= y < 26 ==> changed_twice(
                *grid,
                #[trigger] out@[nb_index(a, x, b, y)],
                all_cells_spec((3, 3))[a],
                (97 + x) as u8,
                all_cells_spec((3, 3))[b],
                (97 + y) as u8,
            ),
{
    let cells = all_cells((3, 3));
    let mut out: Vec<Grid> = Vec::new();
    let mut a: usize = 0;
    while a < 9
        invariant
            a <= 9,
            cells@ == all_cells_spec((3, 3)),
            3 <= grid.rows(),
            3 <= grid.cols(),
            out@.len() == nb_index(a as int, 0, 0, 0),
            forall|a2: int, x2: int, b2: int, y2: int|
                0 <= a2 < 9 && 0 <= x2 < 26 && 0 <= b2 < 9 && 0 <= y2 < 26 && nb_index(
                    a2,
                    x2,
                    b2,
                    y2,
                ) < out@.len() ==> changed_twice(
                    *grid,
                    #[trigger] out@[nb_index(a2, x2, b2, y2)],
                    cells@[a2],
                    (97 + x2) as u8,
                    cells@[b2],
                    (97 + y2) as u8,
                ),
        decreases 9 - a,
    {
        let mut x: usize = 0;
        while x < 26
            invariant
                a < 9,
                x <= 26,
                cells@ == all_cells_spec((3, 3)),
                3 <= grid.rows(),
                3 <= grid.cols(),
                out@.len() == nb_index(a as int, x as int, 0, 0),
                forall|a2: int, x2: int, b2: int, y2: int|
                    0 <= a2 < 9 && 0 <= x2 < 26 && 0 <= b2 < 9 && 0 <= y2 < 26 && nb_index(
                        a2,
                        x2,
                        b2,
                        y2,
                    ) < out@.len() ==> changed_twice(
                        *grid,
                        #[trigger] out@[nb_index(a2, x2, b2, y2)],
                        cells@[a2],
                        (97 + x2) as u8,
                        cells@[b2],
                        (97 + y2) as u8,
                    ),
            decreases 26 - x,
        {
            let mut b: usize = 0;
            while b < 9
                invariant
                    a < 9,
                    x < 26,
                    b <= 9,
                    cells@ == all_cells_spec((3, 3)),
                    3 <= grid.rows(),
                    3 <= grid.cols(),
                    out@.len() == nb_index(a as int, x as int, b as int, 0),
                    forall|a2: int, x2: int, b2: int, y2: int|
                        0 <= a2 < 9 && 0 <= x2 < 26 && 0 <= b2 < 9 && 0 <= y2 < 26 && nb_index(
                            a2,
                            x2,
                            b2,
                            y2,
                        ) < out@.len() ==> changed_twice(
                            *grid,
                            #[trigger] out@[nb_index(a2, x2, b2, y2)],
                            cells@[a2],
                            (97 + x2) as u8,
                            cells@[b2],
                            (97 + y2) as u8,
                        ),
                decreases 9 - b,
            {
                let mut y: usize = 0;
                while y < 26
                    invariant
                        a < 9,
                        x < 26,
                        b < 9,
                        y <= 26,
                        cells@ == all_cells_spec((3, 3)),
                        3 <= grid.rows(),
                        3 <= grid.cols(),
                        out@.len() == nb_index(a as int, x as int, b as int, y as int),
                        forall|a2: int, x2: int, b2: int, y2: int|
                            0 <= a2 < 9 && 0 <= x2 < 26 && 0 <= b2 < 9 && 0 <= y2 < 26 && nb_index(
                                a2,
                                x2,
                                b2,
                                y2,
                            ) < out@.len() ==> changed_twice(
                                *grid,
                                #[trigger] out@[nb_index(a2, x2, b2, y2)],
                                cells@[a2],
                                (97 + x2) as u8,
                                cells@[b2],
                                (97 + y2) as u8,
                            ),
                    decreases 26 - y,
                {
                    let c1 = cells[a];
                    let c2 = cells[b];
                    let v1: u8 = 97 + x as u8;
                    let v2: u8 = 97 + y as u8;
                    assert(c1.0 < 3 && c1.1 < 3 && c2.0 < 3 && c2.1 < 3);
                    let mut next = grid.duplicate();
                    let ghost copy = next;
                    next.set(c1, v1);
                    let ghost once = next;
                    next.set(c2, v2);
                    assert(changed_twice(*grid, next, c1, v1, c2, v2)) by {
                        assert forall|c: (usize, usize)| next.has(c) implies #[trigger] next.letter(
                            c,
                        ) == (if c == c2 {
                            v2
                        } else if c == c1 {
                            v1
                        } else {
                            grid.letter(c)
                        }) by {
                            if c != c2 {
                                assert(next.letter(c) == once.letter(c));
                                if c != c1 {
                                    assert(once.letter(c) == copy.letter(c));
                                }
                            }
                        }
                    }
                    let ghost before = out@;
                    out.push(next);
                    assert forall|a2: int, x2: int, b2: int, y2: int|
                        0 <= a2 < 9 && 0 <= x2 < 26 && 0 <= b2 < 9 && 0 <= y2 < 26 && nb_index(
                            a2,
                            x2,
                            b2,
                            y2,
                        ) < out@.len() implies changed_twice(
                        *grid,
                        #[trigger] out@[nb_index(a2, x2, b2, y2)],
                        cells@[a2],
                        (97 + x2) as u8,
                        cells@[b2],
                        (97 + y2) as u8,
                    ) by {
                        let i = nb_index(a2, x2, b2, y2);
                        if i < before.len() {
                            assert(out@[i] == before[i]);
                        } else {
                            assert(a2 == a && x2 == x && b2 == b && y2 == y);
                        }
                    }
                    y += 1;
                }
                b += 1;
            }
            x += 1;
        }
        a += 1;
    }
    out
}

/// How a step of the climb ends.
pub enum Climb {
    /// No neighbour is better: the climb stops at this grid.
    Done(Grid),
    /// The climb goes on from this grid.
    Next(Grid),
}

/// The rule of the climb: where the best neighbour is the grid itself the
/// climb stops there, else it goes on from the best neighbour.
pub fn climb_step(grid: Grid, best: Grid) -> (r: Climb)
    ensures
        match r {
            Climb::Done(g) => best.same_as(grid) && g == grid,
            Climb::Next(g) => !best.same_as(grid) && g == best,
        },
{
    if best.equals(&grid) {
        Climb::Done(grid)
    } else {
        Climb::Next(best)
    }
}

} // verus!
