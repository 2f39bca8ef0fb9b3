//! The letter grid: a fixed rectangle of bytes kept in an `ndarray` array.

use vstd::prelude::*;
use ndarray::Array2;
use rand::Rng;
use crate::geometry::in_bounds;
use crate::trie::is_letter;

verus! {

/// A rectangular grid of single-byte letters. The bytes live in an
/// `ndarray::Array2<u8>`, which the verifier does not look into: what the
/// grid holds is known through `grid_rows`, `grid_cols` and `grid_cells`
/// alone.
#[verifier::external_body]
pub struct Grid {
    cells: Array2<u8>,
}

/// The number of rows of the array inside `g`.
pub uninterp spec fn grid_rows(g: Grid) -> usize;

/// The number of columns of the array inside `g`.
pub uninterp spec fn grid_cols(g: Grid) -> usize;

/// The byte at each `(row, column)` of the array inside `g`.
pub uninterp spec fn grid_cells(g: Grid) -> Map<(int, int), u8>;

/// The largest element count that an array may have.
pub open spec fn max_cells() -> int {
    isize::MAX as int
}

/// An array of this shape can be made: the product of its axis lengths,
/// leaving out an axis of length zero, stays within `max_cells()`.
pub open spec fn shape_fits(dims: (usize, usize)) -> bool {
    (if dims.0 == 0 { 1int } else { dims.0 as int }) * (if dims.1 == 0 { 1int } else { dims.1 as int })
        <= max_cells()
}

impl Grid {
    /// The number of rows.
    pub open spec fn rows(&self) -> usize {
        grid_rows(*self)
    }

    /// The number of columns.
    pub open spec fn cols(&self) -> usize {
        grid_cols(*self)
    }

    /// Rows and columns as a pair.
    pub open spec fn dims(&self) -> (usize, usize) {
        (self.rows(), self.cols())
    }

    /// Whether `c` is a cell of this grid.
    pub open spec fn has(&self, c: (usize, usize)) -> bool {
        in_bounds(self.dims(), c)
    }

    /// The letter in cell `c`.
    pub open spec fn letter(&self, c: (usize, usize)) -> u8 {
        grid_cells(*self)[(c.0 as int, c.1 as int)]
    }

    /// Two grids of one shape that hold the same letter in every cell.
    pub open spec fn same_as(&self, other: Grid) -> bool {
        &&& self.rows() == other.rows()
        &&& self.cols() == other.cols()
        &&& forall|c: (usize, usize)| self.has(c) ==> self.letter(c) == other.letter(c)
    }

    /// Calls `ArrayBase::dim` on the array: its shape as rows, then columns.
    #[verifier::external_body]
    pub(crate) fn dim(&self) -> (d: (usize, usize))
        ensures
            d.0 == grid_rows(*self),
            d.1 == grid_cols(*self),
    {
        self.cells.dim()
    }

    /// Indexes the array at `pos` (`Index<(usize, usize)>`), which panics
    /// outside the shape and otherwise gives the element stored there.
    #[verifier::external_body]
    pub(crate) fn get(&self, pos: (usize, usize)) -> (b: u8)
        requires
            self.has(pos),
        ensures
            b == grid_cells(*self)[(pos.0 as int, pos.1 as int)],
    {
        self.cells[pos]
    }

    /// Assigns through `IndexMut<(usize, usize)>`, which panics outside the
    /// shape and otherwise replaces the one element at `pos`.
    #[verifier::external_body]
    pub(crate) fn set(&mut self, pos: (usize, usize), value: u8)
        requires
            old(self).has(pos),
        ensures
            grid_rows(*final(self)) == grid_rows(*old(self)),
            grid_cols(*final(self)) == grid_cols(*old(self)),
            grid_cells(*final(self)) == grid_cells(*old(self)).insert(
                (pos.0 as int, pos.1 as int),
                value,
            ),
    {
        self.cells[pos] = value;
    }

    /// Calls `Array2::from_elem`, which panics where the product of the
    /// non-zero axis lengths exceeds `isize::MAX` and otherwise gives an
    /// array of the shape asked for with `elem` in every place.
    #[verifier::external_body]
    pub(crate) fn from_elem(dims: (usize, usize), elem: u8) -> (g: Grid)
        requires
            shape_fits(dims),
        ensures
            grid_rows(g) == dims.0,
            grid_cols(g) == dims.1,
            forall|r: int, c: int|
                0 <= r < dims.0 && 0 <= c < dims.1 ==> #[trigger] grid_cells(g)[(r, c)] == elem,
    {
        Grid { cells: Array2::from_elem(dims, elem) }
    }

    /// Calls `Clone::clone` on the array, which gives an array of the same
    /// shape with the same elements.
    #[verifier::external_body]
    pub(crate) fn duplicate(&self) -> (g: Grid)
        ensures
            grid_rows(g) == grid_rows(*self),
            grid_cols(g) == grid_cols(*self),
            grid_cells(g) == grid_cells(*self),
    {
        Grid { cells: self.cells.clone() }
    }

    /// Compares two arrays with `PartialEq::eq`, which holds exactly where
    /// the shapes are equal and so is every pair of elements.
    #[verifier::external_body]
    pub(crate) fn same(&self, other: &Grid) -> (eq: bool)
        ensures
            eq <==> {
                &&& grid_rows(*self) == grid_rows(*other)
                &&& grid_cols(*self) == grid_cols(*other)
                &&& forall|r: int, c: int|
                    0 <= r < grid_rows(*self) && 0 <= c < grid_cols(*self) ==> grid_cells(*self)[(
                        r,
                        c,
                    )] == grid_cells(*other)[(r, c)]
            },
    {
        self.cells == other.cells
    }
}

/// Draws one byte with `Rng::gen_range` on the thread's generator, over the
/// closed range from `a` to `z`. Which letter comes is left open.
#[verifier::external_body]
pub(crate) fn random_letter() -> (b: u8)
    ensures
        is_letter(b),
{
    rand::thread_rng().gen_range(b'a'..=b'z')
}

/// Every row of `rows` is as long as the first.
pub open spec fn rectangular(rows: Seq<Vec<u8>>) -> bool {
    forall|i: int| 0 <= i < rows.len() ==> (#[trigger] rows[i])@.len() == rows[0]@.len()
}

/// The shape of the grid that `rows` describes.
pub open spec fn shape_of(rows: Seq<Vec<u8>>) -> (usize, usize) {
    if rows.len() == 0 {
        (0, 0)
    } else {
        (rows.len() as usize, rows[0]@.len() as usize)
    }
}

/// Whether an array of shape `dims` can be made.
pub fn fits(dims: (usize, usize)) -> (ok: bool)
    ensures
        ok == shape_fits(dims),
{
    let r: usize = if dims.0 == 0 { 1 } else { dims.0 };
    let c: usize = if dims.1 == 0 { 1 } else { dims.1 };
    match r.checked_mul(c) {
        Some(p) => p <= isize::MAX as usize,
        None => false,
    }
}

impl Grid {
    /// The grid whose rows are `rows`, top row first. There is none where
    /// the rows differ in length or the shape is too large for an array.
    pub fn from_rows(rows: &Vec<Vec<u8>>) -> (r: Option<Grid>)
        ensures
            r is Some <==> rectangular(rows@) && shape_fits(shape_of(rows@)),
            r is Some ==> {
                let g = r->0;
                &&& g.dims() == shape_of(rows@)
                &&& forall|c: (usize, usize)|
                    g.has(c) ==> #[trigger] g.letter(c) == rows@[c.0 as int]@[c.1 as int]
            },
    {
        let height = rows.len();
        let width = if height == 0 { 0 } else { rows[0].len() };
        let mut i: usize = 0;
        while i < height
            invariant
                i <= height,
                height == rows@.len(),
                height > 0 ==> width == rows@[0]@.len(),
                forall|k: int| 0 <= k < i ==> (#[trigger] rows@[k])@.len() == width,
            decreases height - i,
        {
            if rows[i].len() != width {
                return None;
            }
            i += 1;
        }
        if !fits((height, width)) {
            return None;
        }
        Some(grid_from_lines(width, height, rows))
    }

    /// Whether this grid and `other` have one shape and the same letter in
    /// every cell.
    pub fn equals(&self, other: &Grid) -> (eq: bool)
        ensures
            eq == self.same_as(*other),
    {
        let eq = self.same(other);
        proof {
            if eq {
                assert forall|c: (usize, usize)| self.has(c) implies self.letter(c) == other.letter(
                    c,
                ) by {
                    assert(grid_cells(*self)[(c.0 as int, c.1 as int)] == grid_cells(*other)[(
                        c.0 as int,
                        c.1 as int,
                    )]);
                }
            }
            if self.same_as(*other) {
                assert forall|r: int, c: int|
                    0 <= r < grid_rows(*self) && 0 <= c < grid_cols(*self) implies grid_cells(
                    *self,
                )[(r, c)] == grid_cells(*other)[(r, c)] by {
                    let cell = (r as usize, c as usize);
                    assert(self.has(cell));
                    assert(self.letter(cell) == other.letter(cell));
                }
            }
        }
        eq
    }

    /// The rows of the grid, top row first.
    pub fn to_rows(&self) -> (rows: Vec<Vec<u8>>)
        ensures
            rows@.len() == self.rows(),
            forall|i: int| 0 <= i < rows@.len() ==> (#[trigger] rows@[i])@.len() == self.cols(),
            forall|c: (usize, usize)|
                self.has(c) ==> rows@[c.0 as int]@[c.1 as int] == #[trigger] self.letter(c),
    {
        let dims = self.dim();
        let mut rows: Vec<Vec<u8>> = Vec::new();
        let mut i: usize = 0;
        while i < dims.0
            invariant
                i <= dims.0,
                dims == self.dims(),
                rows@.len() == i,
                forall|k: int| 0 <= k < i ==> (#[trigger] rows@[k])@.len() == dims.1,
                forall|c: (usize, usize)|
                    self.has(c) && c.0 < i ==> rows@[c.0 as int]@[c.1 as int] == #[trigger] self.letter(
                        c,
                    ),
            decreases dims.0 - i,
        {
            let mut row: Vec<u8> = Vec::new();
            let mut j: usize = 0;
            while j < dims.1
                invariant
                    i < dims.0,
                    j <= dims.1,
                    dims == self.dims(),
                    row@.len() == j,
                    forall|k: int| 0 <= k < j ==> #[trigger] row@[k] == self.letter((i, k as usize)),
                decreases dims.1 - j,
            {
                row.push(self.get((i, j)));
                j += 1;
            }
            rows.push(row);
            i += 1;
        }
        rows
    }
}

/// The byte of a cell that no line reaches.
pub const BLANK: u8 = 95;

/// The grid of `height` rows and `width` columns that holds the first
/// `height` of `lines`, one line a row from its left end on, and `BLANK`
/// where a line is shorter than the row.
pub fn grid_from_lines(width: usize, height: usize, lines: &Vec<Vec<u8>>) -> (g: Grid)
    requires
        shape_fits((height, width)),
        height <= lines@.len(),
        forall|i: int| 0 <= i < height ==> (#[trigger] lines@[i])@.len() <= width,
    ensures
        g.dims() == (height, width),
        forall|c: (usize, usize)|
            g.has(c) ==> #[trigger] g.letter(c) == (if c.1 < lines@[c.0 as int]@.len() {
                lines@[c.0 as int]@[c.1 as int]
            } else {
                BLANK
            }),
{
    let mut g = Grid::from_elem((height, width), BLANK);
    let mut i: usize = 0;
    while i < height
        invariant
            i <= height,
            height <= lines@.len(),
            g.dims() == (height, width),
            forall|k: int| 0 <= k < height ==> (#[trigger] lines@[k])@.len() <= width,
            forall|c: (usize, usize)|
                g.has(c) ==> #[trigger] g.letter(c) == (if c.0 < i && c.1 < lines@[c.0 as int]@.len() {
                    lines@[c.0 as int]@[c.1 as int]
                } else {
                    BLANK
                }),
        decreases height - i,
    {
        let line = &lines[i];
        let mut j: usize = 0;
        while j < line.len()
            invariant
                i < height,
                j <= line@.len(),
                line@ == lines@[i as int]@,
                height <= lines@.len(),
                g.dims() == (height, width),
                forall|k: int| 0 <= k < height ==> (#[trigger] lines@[k])@.len() <= width,
                forall|c: (usize, usize)|
                    g.has(c) ==> #[trigger] g.letter(c) == (if (c.0 < i || (c.0 == i && c.1 < j))
                        && c.1 < lines@[c.0 as int]@.len() {
                        lines@[c.0 as int]@[c.1 as int]
                    } else {
                        BLANK
                    }),
            decreases line@.len() - j,
        {
            let ghost prev = g;
            g.set((i, j), line[j]);
            assert forall|c: (usize, usize)| g.has(c) implies #[trigger] g.letter(c) == (if (c.0 < i
                || (c.0 == i && c.1 < j + 1)) && c.1 < lines@[c.0 as int]@.len() {
                lines@[c.0 as int]@[c.1 as int]
            } else {
                BLANK
            }) by {
                if c != (i, j) {
                    assert(g.letter(c) == prev.letter(c));
                }
            }
            j += 1;
        }
        i += 1;
    }
    g
}

/// A grid of the given shape with a letter drawn at random in every cell.
pub fn random_grid(dims: (usize, usize)) -> (g: Grid)
    requires
        shape_fits(dims),
    ensures
        g.dims() == dims,
        forall|c: (usize, usize)| g.has(c) ==> is_letter(#[trigger] g.letter(c)),
{
    let mut g = Grid::from_elem(dims, 0);
    let mut i: usize = 0;
    while i < dims.0
        invariant
            i <= dims.0,
            g.dims() == dims,
            forall|c: (usize, usize)| g.has(c) && c.0 < i ==> is_letter(#[trigger] g.letter(c)),
        decreases dims.0 - i,
    {
        let mut j: usize = 0;
        while j < dims.1
            invariant
                i < dims.0,
                j <= dims.1,
                g.dims() == dims,
                forall|c: (usize, usize)|
                    g.has(c) && (c.0 < i || (c.0 == i && c.1 < j)) ==> is_letter(
                        #[trigger] g.letter(c),
                    ),
            decreases dims.1 - j,
        {
            let ghost prev = g;
            g.set((i, j), random_letter());
            assert forall|c: (usize, usize)|
                g.has(c) && (c.0 < i || (c.0 == i && c.1 < j + 1)) implies is_letter(
                #[trigger] g.letter(c),
            ) by {
                if c != (i, j) {
                    assert(g.letter(c) == prev.letter(c));
                }
            }
            j += 1;
        }
        i += 1;
    }
    g
}

} // verus!
