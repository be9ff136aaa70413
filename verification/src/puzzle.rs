//! The finished puzzle: a grid cut to its used extent, with the record of
//! the equations that it shows, and the loop that builds one at random.

use crate::builder::{PuzzleBuilder, MAX_EQUATION_COUNT};
use crate::cell::texts;
use crate::crop::{cropped, index_of, lemma_index_in_grid, BoundingBox};
use crate::equation::{Direction, Equation, MAX_NUMBER};
use crate::error::PuzzleError;
use crate::placement::{
    all_distinct, covered, is_number_index, linked, shared_cells_cross, Placement,
};
use crate::random::RandomSource;
use vstd::prelude::*;
use vstd::string::*;

verus! {


/// The number of random attempts that are made to lay out one more
/// equation before the construction is given up.
pub const ATTEMPTS_PER_EQUATION: u32 = 1000;

/// Whether a number of one of the equations stands in column `column`.
pub open spec fn column_touched(placements: Seq<Placement>, column: int) -> bool {
    exists|j: int, i: int|
        0 <= j < placements.len() && is_number_index(i) && #[trigger] placements[j].cell_column(i)
            == column
}

/// Whether a number of one of the equations stands in row `row`.
pub open spec fn row_touched(placements: Seq<Placement>, row: int) -> bool {
    exists|j: int, i: int|
        0 <= j < placements.len() && is_number_index(i) && #[trigger] placements[j].cell_row(i)
            == row
}

/// A crossmath puzzle.
pub struct Crossmath {
    width: u32,
    height: u32,
    grid: Vec<String>,
    placements: Ghost<Seq<Placement>>,
}

impl Crossmath {
    /// The number of columns.
    pub closed spec fn width_spec(&self) -> int {
        self.width as int
    }

    /// The number of rows.
    pub closed spec fn height_spec(&self) -> int {
        self.height as int
    }

    /// The texts of the cells, row by row.
    pub closed spec fn cells(&self) -> Seq<Seq<char>> {
        texts(self.grid@)
    }

    /// The equations of the puzzle, in the order in which they were laid
    /// out.
    pub closed spec fn placements(&self) -> Seq<Placement> {
        self.placements@
    }

    /// The invariant of a puzzle.
    ///
    /// The grid shows each of the equations, and each of them holds. No two
    /// of them are the same, and the grid shows nothing else: a cell of none
    /// of them is blank. Each but the first crosses an earlier one at right
    /// angles, in a cell that holds a number of both, so that all of them
    /// hang together, and two of them share no cell but in such a crossing. A number stands in the first and in the last
    /// column, and in the first and in the last row: the grid has no empty
    /// border.
    pub open spec fn wf(&self) -> bool {
        &&& self.cells().len() == self.width_spec() * self.height_spec()
        &&& self.cells().len() <= usize::MAX
        &&& self.placements().len() >= 1
        &&& forall|j: int|
            0 <= j < self.placements().len() ==> (#[trigger] self.placements()[j]).shown(
                self.cells(),
                self.width_spec(),
                self.height_spec(),
            )
        &&& forall|j: int| 1 <= j < self.placements().len() ==> #[trigger] linked(self.placements(), j)
        &&& all_distinct(self.placements())
        &&& shared_cells_cross(self.placements())
        &&& covered(self.placements(), self.cells(), self.width_spec())
        &&& column_touched(self.placements(), 0)
        &&& column_touched(self.placements(), self.width_spec() - 1)
        &&& row_touched(self.placements(), 0)
        &&& row_touched(self.placements(), self.height_spec() - 1)
    }

    /// Whether this puzzle is what `builder` leaves when its grid is cut
    /// down to `frame`, the bounding box of the cells that hold a number:
    /// the cells of the box, and each equation moved with them.
    pub open spec fn cut_from(&self, builder: &PuzzleBuilder, frame: BoundingBox) -> bool {
        &&& frame.bounds(builder.numbers(), builder.size() as int)
        &&& self.width_spec() == frame.width()
        &&& self.height_spec() == frame.height()
        &&& self.cells() == cropped(texts(builder.grid()), builder.size() as int, frame)
        &&& self.placements() == Seq::new(
            builder.placements().len(),
            |j: int| builder.placements()[j].moved(frame.xmin as int, frame.ymin as int),
        )
    }

    /// A puzzle of one equation that runs rightwards is one row of five
    /// cells.
    pub proof fn lemma_single_row(&self)
        requires
            self.wf(),
            self.placements().len() == 1,
            self.placements()[0].dir == Direction::Right,
        ensures
            self.width_spec() == 5,
            self.height_spec() == 1,
    {
        let only = self.placements()[0];
        assert(only.shown(self.cells(), self.width_spec(), self.height_spec()));
        assert(only.cell_shown(self.cells(), self.width_spec(), self.height_spec(), 0));
        assert(only.cell_shown(self.cells(), self.width_spec(), self.height_spec(), 4));
    }

    /// The puzzle of the given parts.
    pub(crate) fn from_parts(
        width: u32,
        height: u32,
        grid: Vec<String>,
        placements: Ghost<Seq<Placement>>,
    ) -> (puzzle: Crossmath)
        ensures
            puzzle.width_spec() == width,
            puzzle.height_spec() == height,
            puzzle.cells() == texts(grid@),
            puzzle.placements() == placements@,
    {
        Crossmath { width, height, grid, placements }
    }

    /// Builds a puzzle of `number_of_equations` equations.
    ///
    /// A random equation is written rightwards from the centre of a blank
    /// grid. Then, until the puzzle is complete, an anchor and a slot are
    /// drawn, a random equation is generated with the anchor's number in
    /// that slot, and the equation is laid across the anchor where it fits.
    /// Where `ATTEMPTS_PER_EQUATION` attempts in a row have laid nothing,
    /// the construction ends with `AttemptsExhausted`; that cannot come for
    /// up to three equations, since beside one equation, and beside two
    /// that cross, every crossing fits. At last the grid is cut down to its
    /// used extent.
    pub fn new(number_of_equations: u32, rng: &mut RandomSource) -> (made: Result<
        Crossmath,
        PuzzleError,
    >)
        requires
            number_of_equations <= MAX_EQUATION_COUNT,
        ensures
            number_of_equations == 0 ==> made is Err && made->Err_0 == PuzzleError::InvalidArgument,
            1 <= number_of_equations <= 3 ==> made is Ok,
            number_of_equations > 0 && made is Err ==> made->Err_0
                == PuzzleError::AttemptsExhausted,
            made matches Ok(puzzle) ==> {
                &&& puzzle.wf()
                &&& puzzle.placements().len() == number_of_equations
                &&& puzzle.placements()[0].dir == Direction::Right
                &&& number_of_equations == 1 ==> puzzle.width_spec() == 5 && puzzle.height_spec()
                    == 1
            },
    {
        Crossmath::with_attempts(number_of_equations, rng, ATTEMPTS_PER_EQUATION)
    }

    /// Builds a puzzle as `new` does, with `attempts` random attempts
    /// allowed for each equation after the first.
    pub fn with_attempts(number_of_equations: u32, rng: &mut RandomSource, attempts: u32) -> (made:
        Result<Crossmath, PuzzleError>)
        requires
            number_of_equations <= MAX_EQUATION_COUNT,
        ensures
            number_of_equations == 0 ==> made is Err && made->Err_0 == PuzzleError::InvalidArgument,
            number_of_equations == 1 ==> made is Ok,
            2 <= number_of_equations <= 3 && attempts >= 1 ==> made is Ok,
            number_of_equations > 1 && attempts == 0 ==> made is Err,
            number_of_equations > 0 && made is Err ==> made->Err_0
                == PuzzleError::AttemptsExhausted,
            made matches Ok(puzzle) ==> {
                &&& puzzle.wf()
                &&& puzzle.placements().len() == number_of_equations
                &&& puzzle.placements()[0].dir == Direction::Right
                &&& number_of_equations == 1 ==> puzzle.width_spec() == 5 && puzzle.height_spec()
                    == 1
            },
    {
        if number_of_equations == 0 {
            return Err(PuzzleError::InvalidArgument);
        }
        let first = Equation::random(rng);
        let mut builder = match PuzzleBuilder::start(number_of_equations, first) {
            Err(e) => {
                return Err(e);
            },
            Ok(builder) => builder,
        };
        while builder.placed_count() < number_of_equations
            invariant
                builder.wf(),
                builder.target() == number_of_equations,
                number_of_equations > 1 || builder.complete(),
                attempts == 0 ==> builder.placed() == 1,
                builder.bounded(2 * MAX_NUMBER + MAX_NUMBER * (builder.placed() - 1)),
                number_of_equations <= 3 ==> builder.sure_to_grow() || builder.complete(),
            decreases number_of_equations - builder.placed(),
        {
            let ghost bound = 2 * MAX_NUMBER + MAX_NUMBER * (builder.placed() - 1);
            assert(builder.bounded(bound));
            if !builder.grow(rng, attempts) {
                return Err(PuzzleError::AttemptsExhausted);
            }
        }
        let puzzle = builder.finish();
        proof {
            if number_of_equations == 1 {
                puzzle.lemma_single_row();
            }
        }
        Ok(puzzle)
    }

    /// The number of columns.
    pub fn width(&self) -> (width: u32)
        ensures
            width == self.width_spec(),
    {
        self.width
    }

    /// The number of rows.
    pub fn height(&self) -> (height: u32)
        ensures
            height == self.height_spec(),
    {
        self.height
    }

    /// The index of the cell in column `x` of row `y`. The index of a cell
    /// of the puzzle fits `usize`; that of a cell beyond it has to.
    pub fn get_idx(&self, x: u32, y: u32) -> (idx: usize)
        requires
            (self.wf() && x < self.width_spec() && y < self.height_spec()) || index_of(
                x as int,
                y as int,
                self.width_spec(),
            ) <= usize::MAX,
        ensures
            idx == index_of(x as int, y as int, self.width_spec()),
            self.wf() && x < self.width_spec() && y < self.height_spec() ==> idx
                < self.cells().len(),
    {
        assert(y * self.width <= 0xffff_ffff * 0xffff_ffff) by (nonlinear_arith)
            requires
                0 <= y <= 0xffff_ffff,
                0 <= self.width <= 0xffff_ffff,
        ;
        proof {
            if x < self.width_spec() && y < self.height_spec() {
                lemma_index_in_grid(x as int, y as int, self.width_spec(), self.height_spec());
            }
        }
        let wide: u64 = x as u64 + y as u64 * self.width as u64;
        wide as usize
    }

    /// The text of the cell in column `x` of row `y`.
    pub fn cell_text(&self, x: u32, y: u32) -> (text: String)
        requires
            self.wf(),
            x < self.width_spec(),
            y < self.height_spec(),
        ensures
            text@ == self.cells()[index_of(x as int, y as int, self.width_spec())],
    {
        let size: usize = self.grid.len();
        proof {
            lemma_index_in_grid(x as int, y as int, self.width_spec(), self.height_spec());
        }
        let idx: usize = self.get_idx(x, y);
        self.grid[idx].clone()
    }

    /// The puzzle as text: the cells of each row one after the other, a
    /// blank cell being a single space, and a line break between each two
    /// rows.
    pub fn render(&self) -> (text: String)
        requires
            self.wf(),
        ensures
            text@ == rendered(self.cells(), self.width_spec(), self.height_spec()),
    {
        let ghost cells = self.cells();
        let ghost width = self.width_spec();
        let size: usize = self.grid.len();
        let mut text = String::new();
        let mut y: u32 = 0;
        while y < self.height
            invariant
                self.wf(),
                size == cells.len(),
                0 <= y <= self.height,
                cells == self.cells(),
                width == self.width_spec(),
                text@ == rendered(cells, width, y as int),
            decreases self.height - y,
        {
            if y > 0 {
                text.append("\n");
            }
            let ghost head = text@;
            let mut x: u32 = 0;
            while x < self.width
                invariant
                    self.wf(),
                    size == cells.len(),
                    0 <= x <= self.width,
                    0 <= y < self.height,
                    cells == self.cells(),
                    width == self.width_spec(),
                    text@ == head + row_text(cells, width, y as int, x as int),
                decreases self.width - x,
            {
                proof {
                    lemma_index_in_grid(x as int, y as int, width, self.height_spec());
                }
                let idx: usize = self.get_idx(x, y);
                text.append(self.grid[idx].as_str());
                assert(text@ =~= head + row_text(cells, width, y as int, x as int + 1));
                x = x + 1;
            }
            assert(text@ =~= rendered(cells, width, y as int + 1)) by {
                reveal_strlit("\n");
                assert("\n"@ =~= seq!['\n']);
            }
            y = y + 1;
        }
        text
    }
}

/// The first `count` cells of row `row`, one after the other.
pub open spec fn row_text(cells: Seq<Seq<char>>, width: int, row: int, count: int) -> Seq<char>
    decreases count,
{
    if count <= 0 {
        Seq::empty()
    } else {
        row_text(cells, width, row, count - 1) + cells[index_of(count - 1, row, width)]
    }
}

/// The first `rows` rows of a grid `width` cells wide as text: the cells of
/// each row one after the other, and a line break between each two rows.
pub open spec fn rendered(cells: Seq<Seq<char>>, width: int, rows: int) -> Seq<char>
    decreases rows,
{
    if rows <= 0 {
        Seq::empty()
    } else if rows == 1 {
        row_text(cells, width, 0, width)
    } else {
        rendered(cells, width, rows - 1) + seq!['\n'] + row_text(cells, width, rows - 1, width)
    }
}

} // verus!
