//! Columns and rows of a grid stored row by row, the bounding box of a set
//! of cells, and the cutting of a grid down to such a box.

use crate::cell::texts;
use vstd::arithmetic::div_mod::{lemma_fundamental_div_mod, lemma_fundamental_div_mod_converse};
use vstd::prelude::*;
use vstd::string::*;

verus! {

/// The index of the cell in column `column` of row `row`, on a grid `width`
/// cells wide.
pub open spec fn index_of(column: int, row: int, width: int) -> int {
    column + row * width
}

/// The column of the cell at `position`.
pub open spec fn column_of(position: int, width: int) -> int {
    position % width
}

/// The row of the cell at `position`.
pub open spec fn row_of(position: int, width: int) -> int {
    position / width
}

/// Column and row of a cell are found again from its index.
pub proof fn lemma_coordinates(column: int, row: int, width: int)
    requires
        0 <= column < width,
    ensures
        column_of(index_of(column, row, width), width) == column,
        row_of(index_of(column, row, width), width) == row,
{
    lemma_fundamental_div_mod_converse(index_of(column, row, width), width, row, column);
}

/// A cell is at the index of its column and row.
pub proof fn lemma_index_of_coordinates(position: int, width: int)
    requires
        0 < width,
    ensures
        index_of(column_of(position, width), row_of(position, width), width) == position,
        0 <= column_of(position, width) < width,
{
    lemma_fundamental_div_mod(position, width);
    assert(width * (position / width) == (position / width) * width) by (nonlinear_arith);
}

/// A cell inside a grid of `width` columns and `height` rows has an index
/// below `width * height`.
pub proof fn lemma_index_in_grid(column: int, row: int, width: int, height: int)
    requires
        0 <= column < width,
        0 <= row < height,
    ensures
        0 <= index_of(column, row, width) < width * height,
{
    assert(0 <= row * width && row * width + width <= width * height) by (nonlinear_arith)
        requires
            0 <= row < height,
            0 < width,
    ;
}

/// A box of cells: the columns `xmin..=xmax` of the rows `ymin..=ymax`.
#[derive(Clone, Copy, Debug, PartialEq, Eq)]
pub struct BoundingBox {
    pub xmin: usize,
    pub xmax: usize,
    pub ymin: usize,
    pub ymax: usize,
}

impl BoundingBox {
    /// The number of columns.
    pub open spec fn width(self) -> int {
        self.xmax - self.xmin + 1
    }

    /// The number of rows.
    pub open spec fn height(self) -> int {
        self.ymax - self.ymin + 1
    }

    /// Whether the box holds every one of the cells at `positions`.
    pub open spec fn holds(self, positions: Seq<usize>, width: int) -> bool {
        forall|m: int|
            0 <= m < positions.len() ==> {
                &&& self.xmin <= column_of(#[trigger] positions[m] as int, width) <= self.xmax
                &&& self.ymin <= row_of(positions[m] as int, width) <= self.ymax
            }
    }

    /// Whether each of the four edges of the box holds one of the cells at
    /// `positions`: no row or column at the border is empty.
    pub open spec fn tight(self, positions: Seq<usize>, width: int) -> bool {
        &&& exists|m: int|
            0 <= m < positions.len() && column_of(#[trigger] positions[m] as int, width)
                == self.xmin
        &&& exists|m: int|
            0 <= m < positions.len() && column_of(#[trigger] positions[m] as int, width)
                == self.xmax
        &&& exists|m: int|
            0 <= m < positions.len() && row_of(#[trigger] positions[m] as int, width) == self.ymin
        &&& exists|m: int|
            0 <= m < positions.len() && row_of(#[trigger] positions[m] as int, width) == self.ymax
    }

    /// Whether the box is the bounding box of the cells at `positions`.
    pub open spec fn bounds(self, positions: Seq<usize>, width: int) -> bool {
        self.holds(positions, width) && self.tight(positions, width)
    }
}

/// The bounding box of the cells at `positions` on a grid `width` cells
/// wide; `None` where there is no cell.
pub fn bounding_box(width: usize, positions: &Vec<usize>) -> (found: Option<BoundingBox>)
    requires
        width > 0,
    ensures
        found is None <==> positions@.len() == 0,
        found matches Some(b) ==> b.bounds(positions@, width as int),
{
    if positions.len() == 0 {
        return None;
    }
    let first: usize = positions[0];
    let mut b = BoundingBox {
        xmin: first % width,
        xmax: first % width,
        ymin: first / width,
        ymax: first / width,
    };
    proof {
        let one = positions@.take(1);
        assert(one[0] == first);
        assert(column_of(one[0] as int, width as int) == b.xmin);
        assert(row_of(one[0] as int, width as int) == b.ymin);
    }
    let mut m: usize = 1;
    while m < positions.len()
        invariant
            width > 0,
            1 <= m <= positions@.len(),
            b.bounds(positions@.take(m as int), width as int),
        decreases positions@.len() - m,
    {
        let ghost seen = positions@.take(m as int);
        let ghost more = positions@.take(m as int + 1);
        let ghost before = b;
        let position: usize = positions[m];
        let x: usize = position % width;
        let y: usize = position / width;
        if x < b.xmin {
            b.xmin = x;
        }
        if x > b.xmax {
            b.xmax = x;
        }
        if y < b.ymin {
            b.ymin = y;
        }
        if y > b.ymax {
            b.ymax = y;
        }
        proof {
            assert(more[m as int] == position);
            assert forall|k: int| 0 <= k < seen.len() implies more[k] == #[trigger] seen[k] by {}
            assert(b.holds(more, width as int)) by {
                assert forall|k: int| 0 <= k < more.len() implies {
                    &&& b.xmin <= column_of(#[trigger] more[k] as int, width as int) <= b.xmax
                    &&& b.ymin <= row_of(more[k] as int, width as int) <= b.ymax
                } by {
                    if k < m {
                        assert(more[k] == seen[k]);
                    }
                }
            }
            let kx0 = choose|k: int|
                0 <= k < seen.len() && column_of(#[trigger] seen[k] as int, width as int)
                    == before.xmin;
            let kx1 = choose|k: int|
                0 <= k < seen.len() && column_of(#[trigger] seen[k] as int, width as int)
                    == before.xmax;
            let ky0 = choose|k: int|
                0 <= k < seen.len() && row_of(#[trigger] seen[k] as int, width as int)
                    == before.ymin;
            let ky1 = choose|k: int|
                0 <= k < seen.len() && row_of(#[trigger] seen[k] as int, width as int)
                    == before.ymax;
            let wx0 = if x < before.xmin { m as int } else { kx0 };
            let wx1 = if x > before.xmax { m as int } else { kx1 };
            let wy0 = if y < before.ymin { m as int } else { ky0 };
            let wy1 = if y > before.ymax { m as int } else { ky1 };
            assert(more[kx0] == seen[kx0] && more[kx1] == seen[kx1]);
            assert(more[ky0] == seen[ky0] && more[ky1] == seen[ky1]);
            assert(column_of(more[wx0] as int, width as int) == b.xmin);
            assert(column_of(more[wx1] as int, width as int) == b.xmax);
            assert(row_of(more[wy0] as int, width as int) == b.ymin);
            assert(row_of(more[wy1] as int, width as int) == b.ymax);
        }
        m = m + 1;
    }
    assert(positions@.take(m as int) =~= positions@);
    Some(b)
}

/// The cells of the box `b`, row by row, taken from a grid `width` cells
/// wide.
pub open spec fn cropped(cells: Seq<Seq<char>>, width: int, b: BoundingBox) -> Seq<Seq<char>> {
    Seq::new(
        (b.width() * b.height()) as nat,
        |k: int|
            cells[index_of(
                column_of(k, b.width()) + b.xmin,
                row_of(k, b.width()) + b.ymin,
                width,
            )],
    )
}

/// Cuts the box `b` out of a grid `width` cells wide: the result holds the
/// cell of column `x` and row `y` of the grid at column `x - b.xmin` of its
/// row `y - b.ymin`.
pub fn crop_cells(grid: &Vec<String>, width: usize, b: &BoundingBox) -> (out: Vec<String>)
    requires
        b.xmin <= b.xmax < width,
        b.ymin <= b.ymax,
        index_of(b.xmax as int, b.ymax as int, width as int) < grid@.len(),
    ensures
        out@.len() == b.width() * b.height(),
        texts(out@) == cropped(texts(grid@), width as int, *b),
{
    let ghost cells = texts(grid@);
    let ghost new_width = b.width();
    let size: usize = grid.len();
    assert(b.ymax <= b.ymax * width) by (nonlinear_arith)
        requires
            0 < width,
    ;
    let mut out: Vec<String> = Vec::new();
    let mut y: usize = b.ymin;
    while y <= b.ymax
        invariant
            b.xmin <= b.xmax < width,
            b.ymin <= y <= b.ymax + 1,
            b.ymax < usize::MAX,
            size == grid@.len(),
            index_of(b.xmax as int, b.ymax as int, width as int) < size,
            cells == texts(grid@),
            new_width == b.width(),
            out@.len() == (y - b.ymin) * new_width,
            forall|k: int|
                0 <= k < out@.len() ==> (#[trigger] out@[k])@ == cells[index_of(
                    column_of(k, new_width) + b.xmin,
                    row_of(k, new_width) + b.ymin,
                    width as int,
                )],
        decreases b.ymax + 1 - y,
    {
        assert(y * width + b.xmax <= b.ymax * width + b.xmax) by (nonlinear_arith)
            requires
                y <= b.ymax,
                0 < width,
        ;
        let row_start: usize = y * width;
        let mut x: usize = b.xmin;
        while x <= b.xmax
            invariant
                b.xmin <= x <= b.xmax + 1,
                b.xmax < width,
                b.ymin <= y <= b.ymax,
                row_start == y * width,
                size == grid@.len(),
                row_start + b.xmax < size,
                cells == texts(grid@),
                new_width == b.width(),
                out@.len() == (y - b.ymin) * new_width + (x - b.xmin),
                forall|k: int|
                    0 <= k < out@.len() ==> (#[trigger] out@[k])@ == cells[index_of(
                        column_of(k, new_width) + b.xmin,
                        row_of(k, new_width) + b.ymin,
                        width as int,
                    )],
            decreases b.xmax + 1 - x,
        {
            let ghost k = out@.len() as int;
            proof {
                lemma_fundamental_div_mod_converse(k, new_width, y - b.ymin, x - b.xmin);
            }
            let cell: String = grid[row_start + x].clone();
            out.push(cell);
            assert(out@[k]@ == cells[index_of(x as int, y as int, width as int)]);
            x = x + 1;
        }
        assert((y + 1 - b.ymin) * new_width == (y - b.ymin) * new_width + new_width)
            by (nonlinear_arith);
        y = y + 1;
    }
    assert((b.ymax + 1 - b.ymin) * new_width == b.width() * b.height()) by (nonlinear_arith)
        requires
            new_width == b.width(),
            b.height() == b.ymax + 1 - b.ymin,
    ;
    assert(texts(out@) =~= cropped(cells, width as int, *b));
    out
}

} // verus!
