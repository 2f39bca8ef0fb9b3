//! Cells of a rectangular grid and their eight neighbours.

use vstd::prelude::*;
use vstd::arithmetic::div_mod::{lemma_fundamental_div_mod, lemma_fundamental_div_mod_converse};
use vstd::seq_lib::lemma_seq_concat_contains_all_elements;

verus! {

/// `c` lies inside a grid of `dims.0` rows and `dims.1` columns.
pub open spec fn in_bounds(dims: (usize, usize), c: (usize, usize)) -> bool {
    c.0 < dims.0 && c.1 < dims.1
}

/// `a` and `b` are at Chebyshev distance exactly one.
pub open spec fn adjacent(a: (usize, usize), b: (usize, usize)) -> bool {
    &&& a != b
    &&& a.0 - b.0 <= 1
    &&& b.0 - a.0 <= 1
    &&& a.1 - b.1 <= 1
    &&& b.1 - a.1 <= 1
}

/// The cell at row `r`, column `c` as a one-element sequence, or nothing
/// where that coordinate falls outside the grid.
pub open spec fn cell_if_inside(dims: (usize, usize), r: int, c: int) -> Seq<(usize, usize)> {
    if 0 <= r < dims.0 && 0 <= c < dims.1 {
        seq![(r as usize, c as usize)]
    } else {
        Seq::empty()
    }
}

/// The neighbours of `pos` inside the grid, walking the eight directions
/// in one fixed rotation that starts at the cell one row up and one column
/// left.
pub open spec fn neighbours_spec(dims: (usize, usize), pos: (usize, usize)) -> Seq<(usize, usize)> {
    let r = pos.0 as int;
    let c = pos.1 as int;
    cell_if_inside(dims, r - 1, c - 1) + cell_if_inside(dims, r, c - 1) + cell_if_inside(
        dims,
        r + 1,
        c - 1,
    ) + cell_if_inside(dims, r + 1, c) + cell_if_inside(dims, r + 1, c + 1) + cell_if_inside(
        dims,
        r,
        c + 1,
    ) + cell_if_inside(dims, r - 1, c + 1) + cell_if_inside(dims, r - 1, c)
}

/// Every cell of the grid in row-major order.
pub open spec fn all_cells_spec(dims: (usize, usize)) -> Seq<(usize, usize)> {
    Seq::new(
        (dims.0 * dims.1) as nat,
        |k: int| ((k / dims.1 as int) as usize, (k % dims.1 as int) as usize),
    )
}

/// What `cell_if_inside` holds: the one cell, where it is inside.
proof fn lemma_cell_if_inside(dims: (usize, usize), r: int, c: int, x: (usize, usize))
    ensures
        cell_if_inside(dims, r, c).contains(x) <==> 0 <= r < dims.0 && 0 <= c < dims.1 && x.0 == r
            && x.1 == c,
{
    if 0 <= r < dims.0 && 0 <= c < dims.1 {
        assert(cell_if_inside(dims, r, c)[0] == (r as usize, c as usize));
    }
}

/// The neighbours of `pos` are exactly the cells of the grid at Chebyshev
/// distance one from it.
pub proof fn lemma_neighbours_exact(dims: (usize, usize), pos: (usize, usize), x: (usize, usize))
    ensures
        neighbours_spec(dims, pos).contains(x) <==> in_bounds(dims, x) && adjacent(pos, x),
{
    broadcast use lemma_seq_concat_contains_all_elements;

    let r = pos.0 as int;
    let c = pos.1 as int;
    lemma_cell_if_inside(dims, r - 1, c - 1, x);
    lemma_cell_if_inside(dims, r, c - 1, x);
    lemma_cell_if_inside(dims, r + 1, c - 1, x);
    lemma_cell_if_inside(dims, r + 1, c, x);
    lemma_cell_if_inside(dims, r + 1, c + 1, x);
    lemma_cell_if_inside(dims, r, c + 1, x);
    lemma_cell_if_inside(dims, r - 1, c + 1, x);
    lemma_cell_if_inside(dims, r - 1, c, x);
}

/// Row `i`, column `j` is the cell at place `i * dims.1 + j` of the
/// row-major listing.
pub proof fn lemma_all_cells_index(dims: (usize, usize), i: int, j: int)
    requires
        0 <= i < dims.0,
        0 <= j < dims.1,
    ensures
        0 <= i * dims.1 + j < all_cells_spec(dims).len(),
        all_cells_spec(dims)[i * dims.1 + j] == (i as usize, j as usize),
{
    let k = i * dims.1 + j;
    assert(0 <= k < dims.0 * dims.1) by (nonlinear_arith)
        requires
            k == i * dims.1 + j,
            0 <= i < dims.0,
            0 <= j < dims.1,
    ;
    lemma_fundamental_div_mod_converse(k, dims.1 as int, i, j);
}

/// The row-major listing holds exactly the cells of the grid.
pub proof fn lemma_all_cells_exact(dims: (usize, usize), x: (usize, usize))
    ensures
        all_cells_spec(dims).contains(x) <==> in_bounds(dims, x),
{
    let cells = all_cells_spec(dims);
    if in_bounds(dims, x) {
        lemma_all_cells_index(dims, x.0 as int, x.1 as int);
        assert(cells[x.0 * dims.1 + x.1] == x);
    }
    if cells.contains(x) {
        let k = choose|k: int| 0 <= k < cells.len() && cells[k] == x;
        let w = dims.1 as int;
        assert(w > 0) by (nonlinear_arith)
            requires
                0 <= k < dims.0 * w,
                0 <= w,
        ;
        lemma_fundamental_div_mod(k, w);
        assert(0 <= k % w < w);
        assert(0 <= k / w < dims.0) by (nonlinear_arith)
            requires
                0 <= k < dims.0 * w,
                k == w * (k / w) + k % w,
                0 <= k % w < w,
        ;
    }
}

/// The coordinate one below `x`, if there is one.
fn before(x: usize) -> (r: Option<usize>)
    ensures
        r == if x > 0 { Some((x - 1) as usize) } else { None },
{
    if x > 0 {
        Some(x - 1)
    } else {
        None
    }
}

/// The coordinate one above `x`, if it is below `limit`.
fn after(x: usize, limit: usize) -> (r: Option<usize>)
    ensures
        r == if x + 1 < limit { Some((x + 1) as usize) } else { None },
{
    if x < limit && x + 1 < limit {
        Some(x + 1)
    } else {
        None
    }
}

/// What an optional coordinate stands for: itself, or a place outside any grid.
pub open spec fn coord(x: Option<usize>) -> int {
    match x {
        Some(v) => v as int,
        None => -1,
    }
}

fn push_inside(
    out: &mut Vec<(usize, usize)>,
    dims: (usize, usize),
    row: Option<usize>,
    col: Option<usize>,
)
    ensures
        final(out)@ == old(out)@ + cell_if_inside(dims, coord(row), coord(col)),
{
    if let Some(r) = row {
        if let Some(c) = col {
            if r < dims.0 && c < dims.1 {
                out.push((r, c));
                assert(out@ =~= old(out)@ + cell_if_inside(dims, coord(row), coord(col)));
                return ;
            }
        }
    }
    assert(out@ =~= old(out)@ + cell_if_inside(dims, coord(row), coord(col)));
}

/// The cells at Chebyshev distance one from `pos` that lie inside the grid,
/// in the fixed order of `neighbours_spec`.
pub fn neighbours(dims: (usize, usize), pos: (usize, usize)) -> (out: Vec<(usize, usize)>)
    ensures
        out@ == neighbours_spec(dims, pos),
{
    let up = before(pos.0);
    let down = after(pos.0, dims.0);
    let left = before(pos.1);
    let right = after(pos.1, dims.1);
    let row = Some(pos.0);
    let col = Some(pos.1);
    let mut out: Vec<(usize, usize)> = Vec::new();
    proof {
        let r = pos.0 as int;
        let c = pos.1 as int;
        assert(cell_if_inside(dims, coord(up), coord(left)) == cell_if_inside(dims, r - 1, c - 1));
        assert(cell_if_inside(dims, coord(row), coord(left)) == cell_if_inside(dims, r, c - 1));
        assert(cell_if_inside(dims, coord(down), coord(left)) == cell_if_inside(dims, r + 1, c - 1));
        assert(cell_if_inside(dims, coord(down), coord(col)) == cell_if_inside(dims, r + 1, c));
        assert(cell_if_inside(dims, coord(down), coord(right)) == cell_if_inside(dims, r + 1, c + 1));
        assert(cell_if_inside(dims, coord(row), coord(right)) == cell_if_inside(dims, r, c + 1));
        assert(cell_if_inside(dims, coord(up), coord(right)) == cell_if_inside(dims, r - 1, c + 1));
        assert(cell_if_inside(dims, coord(up), coord(col)) == cell_if_inside(dims, r - 1, c));
        assert(out@ + cell_if_inside(dims, r - 1, c - 1) =~= cell_if_inside(dims, r - 1, c - 1));
    }
    push_inside(&mut out, dims, up, left);
    push_inside(&mut out, dims, row, left);
    push_inside(&mut out, dims, down, left);
    push_inside(&mut out, dims, down, col);
    push_inside(&mut out, dims, down, right);
    push_inside(&mut out, dims, row, right);
    push_inside(&mut out, dims, up, right);
    push_inside(&mut out, dims, up, col);
    out
}

/// Every cell of a grid of `dims.0` rows and `dims.1` columns, row by row.
pub fn all_cells(dims: (usize, usize)) -> (out: Vec<(usize, usize)>)
    requires
        dims.0 * dims.1 <= usize::MAX,
    ensures
        out@ == all_cells_spec(dims),
{
    let mut out: Vec<(usize, usize)> = Vec::new();
    let mut i: usize = 0;
    while i < dims.0
        invariant
            i <= dims.0,
            out@.len() == i * dims.1,
            forall|k: int|
                0 <= k < out@.len() ==> out@[k] == all_cells_spec(dims)[k],
            dims.0 * dims.1 <= usize::MAX,
        decreases dims.0 - i,
    {
        let mut j: usize = 0;
        while j < dims.1
            invariant
                i < dims.0,
                j <= dims.1,
                out@.len() == i * dims.1 + j,
                forall|k: int|
                    0 <= k < out@.len() ==> out@[k] == all_cells_spec(dims)[k],
                dims.0 * dims.1 <= usize::MAX,
            decreases dims.1 - j,
        {
            proof {
                let k = i * dims.1 + j;
                assert(k < dims.0 * dims.1) by (nonlinear_arith)
                    requires
                        k == i * dims.1 + j,
                        i < dims.0,
                        j < dims.1,
                ;
                lemma_fundamental_div_mod_converse(k, dims.1 as int, i as int, j as int);
            }
            out.push((i, j));
            j += 1;
        }
        assert((i + 1) * dims.1 == i * dims.1 + dims.1) by (nonlinear_arith);
        i += 1;
    }
    assert(out@ =~= all_cells_spec(dims));
    out
}

} // verus!
