//! Where an equation stands on a grid: the column and row of its first
//! cell and its direction. This is the record that the contracts of the
//! puzzle keep of each equation laid out.

use crate::cell::is_blank;
use crate::crop::index_of;
use crate::decimal::{decimal, digit_value, lemma_decimal_digits, lemma_decimal_round_trip};
use crate::equation::{direction_step, Direction, EquationView, MatchParameter};
use crate::insertion::cell_position;
use vstd::prelude::*;

verus! {

/// Whether a token index is that of a number: of the five tokens the first,
/// the third and the fifth are numbers.
pub open spec fn is_number_index(i: int) -> bool {
    i == 0 || i == 2 || i == 4
}

/// The column `count` cells further in direction `dir`.
pub open spec fn column_after(column: int, dir: Direction, count: int) -> int {
    match dir {
        Direction::Right => column + count,
        Direction::Left => column - count,
        _ => column,
    }
}

/// The row `count` cells further in direction `dir`.
pub open spec fn row_after(row: int, dir: Direction, count: int) -> int {
    match dir {
        Direction::Down => row + count,
        Direction::Up => row - count,
        _ => row,
    }
}

/// Going `count` cells in direction `dir` moves the index of a cell by
/// `count` steps of that direction.
pub proof fn lemma_index_after(column: int, row: int, width: int, dir: Direction, count: int)
    ensures
        index_of(column_after(column, dir, count), row_after(row, dir, count), width)
            == cell_position(index_of(column, row, width), direction_step(dir, width), count),
{
    assert((row + count) * width == row * width + count * width) by (nonlinear_arith);
    assert((row - count) * width == row * width - count * width) by (nonlinear_arith);
    assert(count * (-width) == -(count * width)) by (nonlinear_arith);
}

/// The number that the token at index `i` of an equation laid out in
/// direction `dir` holds, for the index of a number.
pub open spec fn token_number(eq: EquationView, dir: Direction, i: int) -> nat {
    if i == 4 {
        eq.result
    } else if (i == 0) == eq.mirrored(dir) {
        eq.y
    } else {
        eq.x
    }
}

/// The tokens at the number indices are the decimal texts of the numbers.
pub proof fn lemma_number_tokens(eq: EquationView, dir: Direction, i: int)
    requires
        is_number_index(i),
    ensures
        eq.tokens(dir)[i] == decimal(token_number(eq, dir, i)),
        eq.tokens(dir).len() == 5,
{
}

/// The token at the index of a slot is the decimal text of the number in
/// that slot.
pub proof fn lemma_slot_token(eq: EquationView, dir: Direction, param: MatchParameter)
    ensures
        is_number_index(eq.token_index(dir, param)),
        eq.tokens(dir)[eq.token_index(dir, param)] == decimal(eq.slot(param)),
{
}

/// The decimal text of a number is not the text of a blank cell.
pub proof fn lemma_decimal_not_blank(n: nat)
    ensures
        !is_blank(decimal(n)),
{
    lemma_decimal_round_trip(n);
    lemma_decimal_digits(n, 0);
    assert(digit_value(' ') is None);
}

/// None of the five tokens of an equation is the text of a blank cell.
pub proof fn lemma_token_not_blank(eq: EquationView, dir: Direction, i: int)
    requires
        0 <= i < 5,
    ensures
        !is_blank(eq.tokens(dir)[i]),
{
    if is_number_index(i) {
        lemma_number_tokens(eq, dir, i);
        lemma_decimal_not_blank(token_number(eq, dir, i));
    } else {
        assert(seq!['+'][0] != ' ');
        assert(seq!['-'][0] != ' ');
        assert(seq!['='][0] != ' ');
        assert(seq![' '][0] == ' ');
    }
}

/// Whether a direction runs along a row.
pub open spec fn is_horizontal(dir: Direction) -> bool {
    dir == Direction::Left || dir == Direction::Right
}

/// Whether one of two directions runs along a row and the other along a
/// column.
pub open spec fn at_right_angles(a: Direction, b: Direction) -> bool {
    is_horizontal(a) != is_horizontal(b)
}

/// An equation on a grid.
pub struct Placement {
    pub equation: EquationView,
    /// The column of the first token.
    pub column: int,
    /// The row of the first token.
    pub row: int,
    pub dir: Direction,
}

impl Placement {
    /// The column of the `i`-th token.
    pub open spec fn cell_column(self, i: int) -> int {
        column_after(self.column, self.dir, i)
    }

    /// The row of the `i`-th token.
    pub open spec fn cell_row(self, i: int) -> int {
        row_after(self.row, self.dir, i)
    }

    /// Whether the `i`-th cell lies on a grid of `width` columns and
    /// `height` rows and holds the `i`-th token.
    pub open spec fn cell_shown(self, cells: Seq<Seq<char>>, width: int, height: int, i: int)
        -> bool {
        &&& 0 <= self.cell_column(i) < width
        &&& 0 <= self.cell_row(i) < height
        &&& cells[index_of(self.cell_column(i), self.cell_row(i), width)]
            == self.equation.tokens(self.dir)[i]
    }

    /// Whether the grid shows the equation: the equation holds, and its five
    /// tokens stand in five cells of one row or one column of the grid.
    pub open spec fn shown(self, cells: Seq<Seq<char>>, width: int, height: int) -> bool {
        &&& self.equation.wf()
        &&& forall|i: int| 0 <= i < 5 ==> #[trigger] self.cell_shown(cells, width, height, i)
    }

    /// Whether two equations cross: they run at right angles and share a
    /// cell that holds a number of each.
    pub open spec fn crosses(self, other: Placement) -> bool {
        &&& at_right_angles(self.dir, other.dir)
        &&& exists|i: int, j: int|
            is_number_index(i) && is_number_index(j) && #[trigger] self.cell_column(i)
                == #[trigger] other.cell_column(j) && self.cell_row(i) == other.cell_row(j)
    }

    /// Whether the first and the last cell, and so all five, lie within
    /// `reach` columns and rows of the cell in column and row `center`.
    pub open spec fn within(self, center: int, reach: int) -> bool {
        &&& center - reach <= self.cell_column(0) <= center + reach
        &&& center - reach <= self.cell_column(4) <= center + reach
        &&& center - reach <= self.cell_row(0) <= center + reach
        &&& center - reach <= self.cell_row(4) <= center + reach
    }

    /// The same equation `columns` columns to the left and `rows` rows up.
    pub open spec fn moved(self, columns: int, rows: int) -> Placement {
        Placement {
            equation: self.equation,
            column: self.column - columns,
            row: self.row - rows,
            dir: self.dir,
        }
    }
}

/// Whether the equation at index `j` crosses one laid out before it.
pub open spec fn linked(placements: Seq<Placement>, j: int) -> bool {
    exists|k: int| 0 <= k < j && #[trigger] placements[j].crosses(placements[k])
}

/// Whether the cell at `position`, on a grid `width` cells wide, is one of
/// the five cells of one of the equations.
pub open spec fn on_equation(placements: Seq<Placement>, width: int, position: int) -> bool {
    exists|j: int, i: int|
        0 <= j < placements.len() && 0 <= i < 5 && position == index_of(
            #[trigger] placements[j].cell_column(i),
            placements[j].cell_row(i),
            width,
        )
}

/// Whether each cell of the grid that is not blank is a cell of one of the
/// equations.
pub open spec fn covered(placements: Seq<Placement>, cells: Seq<Seq<char>>, width: int) -> bool {
    forall|position: int|
        0 <= position < cells.len() ==> is_blank(#[trigger] cells[position]) || on_equation(
            placements,
            width,
            position,
        )
}

/// Whether each cell that two of the equations share is a crossing: it
/// holds a number of both, and the two run at right angles.
#[verifier::opaque]
pub open spec fn shared_cells_cross(placements: Seq<Placement>) -> bool {
    forall|j: int, a: int, k: int, b: int|
        0 <= j < placements.len() && 0 <= a < 5 && 0 <= k < placements.len() && 0 <= b < 5 && j
            != k && #[trigger] placements[j].cell_column(a) == #[trigger] placements[k].cell_column(
            b,
        ) && placements[j].cell_row(a) == placements[k].cell_row(b) ==> is_number_index(a)
            && is_number_index(b) && at_right_angles(placements[j].dir, placements[k].dir)
}

/// Whether the cell in column `column` of row `row` is a cell of no more
/// than one of the equations.
#[verifier::opaque]
pub open spec fn lone(placements: Seq<Placement>, column: int, row: int) -> bool {
    forall|j: int, a: int, k: int, b: int|
        0 <= j < placements.len() && 0 <= a < 5 && 0 <= k < placements.len() && 0 <= b < 5
            && #[trigger] placements[j].cell_column(a) == column && placements[j].cell_row(a) == row
            && #[trigger] placements[k].cell_column(b) == column && placements[k].cell_row(b) == row
            ==> j == k && a == b
}

/// A cell that two of the equations share is a crossing.
pub proof fn lemma_shared_cell(placements: Seq<Placement>, j: int, a: int, k: int, b: int)
    requires
        shared_cells_cross(placements),
        0 <= j < placements.len(),
        0 <= a < 5,
        0 <= k < placements.len(),
        0 <= b < 5,
        j != k,
        placements[j].cell_column(a) == placements[k].cell_column(b),
        placements[j].cell_row(a) == placements[k].cell_row(b),
    ensures
        is_number_index(a),
        is_number_index(b),
        at_right_angles(placements[j].dir, placements[k].dir),
{
    reveal(shared_cells_cross);
}

/// Two cells of equations that stand in a lone cell are the same cell of
/// the same equation.
pub proof fn lemma_lone_cell(
    placements: Seq<Placement>,
    column: int,
    row: int,
    j: int,
    a: int,
    k: int,
    b: int,
)
    requires
        lone(placements, column, row),
        0 <= j < placements.len(),
        0 <= a < 5,
        0 <= k < placements.len(),
        0 <= b < 5,
        placements[j].cell_column(a) == column,
        placements[j].cell_row(a) == row,
        placements[k].cell_column(b) == column,
        placements[k].cell_row(b) == row,
    ensures
        j == k,
        a == b,
{
    reveal(lone);
}

/// Moving all equations by the same distance keeps it that shared cells
/// are crossings.
pub proof fn lemma_moved_shared(
    placements: Seq<Placement>,
    moved: Seq<Placement>,
    columns: int,
    rows: int,
)
    requires
        shared_cells_cross(placements),
        moved.len() == placements.len(),
        forall|j: int|
            0 <= j < placements.len() ==> #[trigger] moved[j] == placements[j].moved(columns, rows),
    ensures
        shared_cells_cross(moved),
{
    assert forall|j: int, a: int, k: int, b: int|
        0 <= j < moved.len() && 0 <= a < 5 && 0 <= k < moved.len() && 0 <= b < 5 && j != k
            && #[trigger] moved[j].cell_column(a) == #[trigger] moved[k].cell_column(b)
            && moved[j].cell_row(a) == moved[k].cell_row(b) implies is_number_index(a)
        && is_number_index(b) && at_right_angles(moved[j].dir, moved[k].dir) by {
        assert(moved[j] == placements[j].moved(columns, rows));
        assert(moved[k] == placements[k].moved(columns, rows));
        lemma_shared_cell(placements, j, a, k, b);
    }
    assert(shared_cells_cross(moved)) by {
        reveal(shared_cells_cross);
    }
}

/// Whether no equation is recorded twice.
pub open spec fn all_distinct(placements: Seq<Placement>) -> bool {
    forall|j: int, k: int| 0 <= j < k < placements.len() ==> placements[j] != placements[k]
}

/// Moving two equations by the same distance keeps their crossing.
pub proof fn lemma_moved_crosses(a: Placement, b: Placement, columns: int, rows: int)
    requires
        a.crosses(b),
    ensures
        a.moved(columns, rows).crosses(b.moved(columns, rows)),
{
    let (i, j) = choose|i: int, j: int|
        is_number_index(i) && is_number_index(j) && #[trigger] a.cell_column(i)
            == #[trigger] b.cell_column(j) && a.cell_row(i) == b.cell_row(j);
    let a2 = a.moved(columns, rows);
    let b2 = b.moved(columns, rows);
    assert(a2.cell_column(i) == b2.cell_column(j) && a2.cell_row(i) == b2.cell_row(j));
}

} // verus!
