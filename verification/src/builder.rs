//! The construction of a puzzle.
//!
//! A puzzle grows on a working grid far larger than it needs: the builder
//! keeps the anchors at which a further equation may cross and the record of
//! the equations laid out so far. At the end the working grid is cut down to
//! its used extent.

use crate::cell::{blank, blank_cells, is_blank, texts};
use crate::crop::{
    bounding_box, column_of, crop_cells, index_of, lemma_coordinates, lemma_index_in_grid,
    lemma_index_of_coordinates, row_of, BoundingBox,
};
use crate::decimal::{decimal, lemma_decimal_round_trip, number_value, parse_number, parsed};
use crate::equation::{
    direction_step, generated, lemma_generated_bound, Direction, Equation, EquationView,
    MatchParameter, Operation, MAX_NUMBER,
};
use crate::error::PuzzleError;
use crate::insertion::{
    cell_free, cell_position, direction_fits, get_random_match_parameter, insert_equation,
    is_insertion_possible, laid_out, lemma_cells_distinct, lemma_fitting_spares_cells,
    lemma_fitting_writes_anchor, lemma_laid_out_at, lemma_laid_out_elsewhere, lemma_laid_out_len,
    new_anchors, perpendicular, placement, span_in_grid,
};
use crate::placement::{
    all_distinct, at_right_angles, column_after, covered, is_number_index, lemma_index_after,
    lemma_lone_cell, lemma_moved_crosses, lemma_moved_shared, lemma_number_tokens,
    lemma_shared_cell, lemma_slot_token, lemma_token_not_blank, linked, lone, on_equation,
    row_after, shared_cells_cross, token_number, Placement,
};
use crate::puzzle::{column_touched, row_touched, Crossmath};
use crate::random::RandomSource;
use vstd::prelude::*;
use vstd::string::*;

verus! {

/// The largest number of equations of a puzzle. The working grid has ten
/// columns and ten rows for each equation, and its cells are counted in
/// `usize`, which may be no wider than 32 bits.
pub const MAX_EQUATION_COUNT: u32 = 6553;

/// Whether the three numeric cells of the `j`-th equation are the `j`-th
/// three of the cells recorded in `numbers`.
pub open spec fn recorded(numbers: Seq<usize>, placed: Placement, j: int, width: int) -> bool {
    &&& numbers[3 * j] == index_of(placed.cell_column(0), placed.cell_row(0), width)
    &&& numbers[3 * j + 1] == index_of(placed.cell_column(2), placed.cell_row(2), width)
    &&& numbers[3 * j + 2] == index_of(placed.cell_column(4), placed.cell_row(4), width)
}

/// Whether an anchor stands for a number of one of the equations: its cell
/// is one of the cells recorded in `numbers`, and its direction is that of
/// the equation which the cell was recorded for.
pub open spec fn is_anchor_of(
    anchor: (usize, Direction),
    numbers: Seq<usize>,
    placements: Seq<Placement>,
) -> bool {
    exists|m: int|
        0 <= m < numbers.len() && #[trigger] numbers[m] == anchor.0 && placements[m / 3].dir
            == anchor.1
}

/// The anchors that are not at `position`.
pub open spec fn not_at(position: usize) -> spec_fn((usize, Direction)) -> bool {
    |anchor: (usize, Direction)| anchor.0 != position
}

/// The equation `eq` laid out in direction `dir` so that its token at
/// `index` stands in column `column` of row `row`.
pub open spec fn placed_across(
    eq: EquationView,
    column: int,
    row: int,
    dir: Direction,
    index: int,
) -> Placement {
    Placement {
        equation: eq,
        column: column_after(column, dir, -index),
        row: row_after(row, dir, -index),
        dir,
    }
}

/// A puzzle under construction.
pub struct PuzzleBuilder {
    target: u32,
    size: u32,
    grid: Vec<String>,
    anchors: Vec<(usize, Direction)>,
    numbers: Vec<usize>,
    placed: u32,
    placements: Ghost<Seq<Placement>>,
}

impl PuzzleBuilder {
    /// The number of equations that the puzzle is to hold.
    pub closed spec fn target(&self) -> nat {
        self.target as nat
    }

    /// The number of columns, and of rows, of the working grid.
    pub closed spec fn size(&self) -> nat {
        self.size as nat
    }

    /// The working grid, row by row.
    pub closed spec fn grid(&self) -> Seq<String> {
        self.grid@
    }

    /// The anchors: cells that hold a number at which a further equation may
    /// cross, each with the direction of the equation that the number
    /// belongs to.
    pub closed spec fn anchors(&self) -> Seq<(usize, Direction)> {
        self.anchors@
    }

    /// Every cell in which a number was written, three for each equation in
    /// the order of laying out.
    pub closed spec fn numbers(&self) -> Seq<usize> {
        self.numbers@
    }

    /// The number of equations laid out so far.
    pub closed spec fn placed(&self) -> nat {
        self.placed as nat
    }

    /// The equations laid out so far, in their order.
    pub closed spec fn placements(&self) -> Seq<Placement> {
        self.placements@
    }

    /// The invariant of a builder.
    ///
    /// The grid shows each equation laid out and nothing else. The first
    /// runs rightwards from the centre of the grid, and each other crosses
    /// an earlier one. Each anchor is the cell of a number of
    /// one of them, with its direction. With `k` equations laid out, none
    /// reaches further than `4 * k` cells from the centre of the grid, so
    /// that none touches the border while fewer than `target` are laid out.
    pub open spec fn wf(&self) -> bool {
        let width = self.size() as int;
        let cells = texts(self.grid());
        let center = 5 * self.target() as int;
        let reach = 4 * self.placed() as int;
        &&& 1 <= self.target() <= MAX_EQUATION_COUNT
        &&& self.size() == 10 * self.target()
        &&& self.grid().len() == self.size() * self.size()
        &&& 1 <= self.placed() <= self.target()
        &&& self.placements().len() == self.placed()
        &&& self.numbers().len() == 3 * self.placed()
        &&& 1 <= self.anchors().len() <= 3 * self.placed()
        &&& forall|j: int|
            0 <= j < self.placed() ==> (#[trigger] self.placements()[j]).shown(cells, width, width)
        &&& forall|j: int|
            0 <= j < self.placed() ==> (#[trigger] self.placements()[j]).within(center, reach)
        &&& forall|j: int|
            0 <= j < self.placed() ==> recorded(
                self.numbers(),
                #[trigger] self.placements()[j],
                j,
                width,
            )
        &&& self.placements()[0].dir == Direction::Right
        &&& self.placements()[0].column == center
        &&& self.placements()[0].row == center
        &&& forall|j: int| 1 <= j < self.placed() ==> #[trigger] linked(self.placements(), j)
        &&& all_distinct(self.placements())
        &&& shared_cells_cross(self.placements())
        &&& covered(self.placements(), cells, width)
        &&& forall|a: int|
            0 <= a < self.anchors().len() ==> lone(
                self.placements(),
                column_of((#[trigger] self.anchors()[a]).0 as int, width),
                row_of(self.anchors()[a].0 as int, width),
            )
        &&& forall|a: int|
            0 <= a < self.anchors().len() ==> is_anchor_of(
                #[trigger] self.anchors()[a],
                self.numbers(),
                self.placements(),
            )
    }

    /// Whether all the equations asked for are laid out.
    pub open spec fn complete(&self) -> bool {
        self.placed() == self.target()
    }

    /// Starts a puzzle of `target` equations with the equation `first`,
    /// written rightwards from the centre of a blank grid of `10 * target`
    /// columns and rows. Its three numbers are the first anchors.
    pub fn start(target: u32, first: Equation) -> (begun: Result<PuzzleBuilder, PuzzleError>)
        requires
            target <= MAX_EQUATION_COUNT,
        ensures
            target == 0 <==> begun is Err,
            begun is Err ==> begun->Err_0 == PuzzleError::InvalidArgument,
            begun matches Ok(builder) ==> {
                &&& builder.wf()
                &&& builder.target() == target
                &&& builder.placed() == 1
                &&& builder.placements() == seq![
                    (Placement {
                        equation: first@,
                        column: 5 * target,
                        row: 5 * target,
                        dir: Direction::Right,
                    }),
                ]
                &&& builder.anchors() == new_anchors(
                    index_of(5 * target, 5 * target, 10 * target),
                    1,
                    Direction::Right,
                )
                &&& texts(builder.grid()) == laid_out(
                    Seq::new((10 * target * (10 * target)) as nat, |i: int| blank()),
                    index_of(5 * target, 5 * target, 10 * target),
                    1,
                    first@.tokens(Direction::Right),
                    5,
                )
            },
    {
        proof {
            use_type_invariant(&first);
        }
        if target == 0 {
            return Err(PuzzleError::InvalidArgument);
        }
        let size: u32 = 10 * target;
        let half: u32 = size / 2;
        let ghost width = size as int;
        assert(size * size <= 65530 * 65530) by (nonlinear_arith)
            requires
                0 <= size <= 65530,
        ;
        let ghost first_placement = Placement {
            equation: first@,
            column: half as int,
            row: half as int,
            dir: Direction::Right,
        };
        proof {
            lemma_index_in_grid(half as int, half as int, width, width);
            lemma_index_in_grid(half as int + 4, half as int, width, width);
        }
        let mut grid: Vec<String> = blank_cells(size as usize * size as usize);
        let origin: usize = half as usize + half as usize * size as usize;
        let mut anchors: Vec<(usize, Direction)> = Vec::new();
        let ghost blank_texts = texts(grid@);
        assert(blank_texts =~= Seq::new((10 * target * (10 * target)) as nat, |i: int| blank())) by {
            assert(size * size == 10 * target * (10 * target)) by (nonlinear_arith)
                requires
                    size == 10 * target,
            ;
        }
        assert(span_in_grid(grid@.len() as int, origin as int, 1)) by {
            assert forall|i: int| 0 <= i < 5 implies 0 <= #[trigger] cell_position(
                origin as int,
                1,
                i,
            ) < grid@.len() by {}
        }
        insert_equation(size as i32, &mut grid, origin, Direction::Right, first, &mut anchors);
        let mut numbers: Vec<usize> = Vec::new();
        numbers.push(anchors[0].0);
        numbers.push(anchors[1].0);
        numbers.push(anchors[2].0);
        let placements: Ghost<Seq<Placement>> = Ghost(Seq::empty().push(first_placement));
        let builder = PuzzleBuilder { target, size, grid, anchors, numbers, placed: 1, placements };
        proof {
            let cells = texts(builder.grid());
            let tokens = first@.tokens(Direction::Right);
            assert(builder.anchors() =~= new_anchors(origin as int, 1, Direction::Right));
            assert forall|i: int| 0 <= i < 5 implies #[trigger] first_placement.cell_shown(
                cells,
                width,
                width,
                i,
            ) by {
                lemma_laid_out_at(blank_texts, origin as int, 1, tokens, 5, i);
                assert(cell_position(origin as int, 1, i) == index_of(
                    first_placement.cell_column(i),
                    first_placement.cell_row(i),
                    width,
                ));
            }
            assert(builder.placements() =~= seq![first_placement]);
            assert(half == 5 * target && width == 10 * target);
            assert(origin == index_of(5 * target, 5 * target, 10 * target));
            assert(first_placement.within(5 * target as int, 4));
            assert(recorded(builder.numbers(), first_placement, 0, width));
            assert forall|a: int| 0 <= a < builder.anchors().len() implies is_anchor_of(
                #[trigger] builder.anchors()[a],
                builder.numbers(),
                builder.placements(),
            ) by {
                assert(builder.numbers()[a] == builder.anchors()[a].0);
            }
            assert forall|a: int| 0 <= a < builder.anchors().len() implies lone(
                builder.placements(),
                column_of((#[trigger] builder.anchors()[a]).0 as int, width),
                row_of(builder.anchors()[a].0 as int, width),
            ) by {
                lemma_coordinates(half as int + 2 * a, half as int, width);
                reveal(lone);
            }
            assert(shared_cells_cross(builder.placements())) by {
                reveal(shared_cells_cross);
            }
            assert forall|q: int| 0 <= q < cells.len() implies is_blank(#[trigger] cells[q])
                || on_equation(builder.placements(), width, q) by {
                if origin <= q < origin + 5 {
                    let i = q - origin;
                    assert(q == index_of(
                        builder.placements()[0].cell_column(i),
                        builder.placements()[0].cell_row(i),
                        width,
                    ));
                } else {
                    lemma_laid_out_elsewhere(blank_texts, origin as int, 1, tokens, 5, q);
                }
            }
        }
        Ok(builder)
    }

    /// The number of equations laid out so far.
    pub fn placed_count(&self) -> (count: u32)
        ensures
            count == self.placed(),
    {
        self.placed
    }

    /// The number of equations that the puzzle is to hold.
    pub fn target_count(&self) -> (count: u32)
        ensures
            count == self.target(),
    {
        self.target
    }

    /// The number of anchors.
    pub fn anchor_count(&self) -> (count: usize)
        ensures
            count == self.anchors().len(),
    {
        self.anchors.len()
    }

    /// The number in the cell of the anchor at `index`; `None` where there
    /// is no such anchor or its cell holds no number that fits `u32`.
    pub fn anchor_value(&self, index: usize) -> (value: Option<u32>)
        requires
            self.wf(),
        ensures
            index >= self.anchors().len() ==> value is None,
            index < self.anchors().len() ==> value == parsed(
                self.grid()[self.anchors()[index as int].0 as int]@,
            ),
    {
        if index >= self.anchors.len() {
            return None;
        }
        let position: usize = self.anchors[index].0;
        proof {
            self.lemma_anchor_on_grid(index as int);
        }
        parse_number(self.grid[position].as_str())
    }

    /// Each anchor is a numeric cell of an equation laid out, inside the
    /// grid and within reach of the centre.
    proof fn lemma_anchor_on_grid(&self, a: int)
        requires
            self.wf(),
            0 <= a < self.anchors().len(),
        ensures
            self.anchors()[a].0 < self.grid().len(),
            exists|j: int, i: int|
                0 <= j < self.placed() && is_number_index(i) && self.anchors()[a].0 == index_of(
                    (#[trigger] self.placements()[j]).cell_column(i),
                    #[trigger] self.placements()[j].cell_row(i),
                    self.size() as int,
                ) && self.placements()[j].dir == self.anchors()[a].1,
    {
        let position = self.anchors()[a].0;
        let width = self.size() as int;
        assert(is_anchor_of(self.anchors()[a], self.numbers(), self.placements()));
        let m = choose|m: int|
            0 <= m < self.numbers().len() && #[trigger] self.numbers()[m] == position
                && self.placements()[m / 3].dir == self.anchors()[a].1;
        let j = m / 3;
        let i = 2 * (m % 3);
        let p = self.placements()[j];
        assert(recorded(self.numbers(), p, j, width));
        assert(p.shown(texts(self.grid()), width, width));
        assert(p.cell_shown(texts(self.grid()), width, width, i));
        lemma_index_in_grid(p.cell_column(i), p.cell_row(i), width, width);
        assert(position == index_of(p.cell_column(i), p.cell_row(i), width));
    }

    /// The cell of an anchor holds one of the numbers of the equations, so
    /// none larger than a bound on them.
    proof fn lemma_anchor_bound(&self, a: int, bound: int)
        requires
            self.wf(),
            0 <= a < self.anchors().len(),
            self.bounded(bound),
        ensures
            number_value(self.grid()[self.anchors()[a].0 as int]@) matches Some(held) && held
                <= bound,
    {
        let width = self.size() as int;
        let cells = texts(self.grid());
        self.lemma_anchor_on_grid(a);
        let (owner, at) = choose|j: int, i: int|
            0 <= j < self.placed() && is_number_index(i) && self.anchors()[a].0 == index_of(
                (#[trigger] self.placements()[j]).cell_column(i),
                #[trigger] self.placements()[j].cell_row(i),
                width,
            ) && self.placements()[j].dir == self.anchors()[a].1;
        let own = self.placements()[owner];
        assert(own.shown(cells, width, width));
        assert(own.cell_shown(cells, width, width, at));
        lemma_number_tokens(own.equation, own.dir, at);
        lemma_decimal_round_trip(token_number(own.equation, own.dir, at));
    }

    /// Whether the equation `eq` can be laid across the anchor at `index`
    /// with the anchor's number in its slot `param`: the puzzle is not
    /// complete, there is such an anchor, its cell holds the number that
    /// `eq` has in slot `param`, and one of the two directions across the
    /// anchor's own equation fits.
    pub open spec fn accepts(&self, index: int, param: MatchParameter, eq: EquationView) -> bool {
        &&& !self.complete()
        &&& 0 <= index < self.anchors().len()
        &&& parsed(self.grid()[self.anchors()[index].0 as int]@) matches Some(value)
        &&& value == eq.slot(param)
        &&& placement(
            self.size() as int,
            self.grid(),
            self.anchors()[index].0 as int,
            self.anchors()[index].1,
            param,
            eq,
        ) is Some
    }

    /// The distance between two neighbouring cells of `eq` laid across the
    /// anchor at `index` in the direction found for it.
    pub open spec fn step_of(&self, index: int, param: MatchParameter, eq: EquationView) -> int {
        direction_step(
            placement(
                self.size() as int,
                self.grid(),
                self.anchors()[index].0 as int,
                self.anchors()[index].1,
                param,
                eq,
            )->0,
            self.size() as int,
        )
    }

    /// The position of the first token of `eq` laid across the anchor at
    /// `index` in the direction found for it.
    pub open spec fn start_of(&self, index: int, param: MatchParameter, eq: EquationView) -> int {
        eq.start_position(
            self.size() as int,
            placement(
                self.size() as int,
                self.grid(),
                self.anchors()[index].0 as int,
                self.anchors()[index].1,
                param,
                eq,
            )->0,
            param,
            self.anchors()[index].0 as int,
        )
    }

    /// Whether this builder is what `before` becomes when `eq` is laid
    /// across its anchor at `index`: the tokens are written in the direction
    /// found, the three numeric cells are recorded and become anchors, every
    /// anchor at the cell crossed is taken away, and the equation is added
    /// to the record.
    pub open spec fn follows(
        &self,
        before: &PuzzleBuilder,
        index: int,
        param: MatchParameter,
        eq: EquationView,
    ) -> bool {
        let position = before.anchors()[index].0;
        let width = before.size() as int;
        let dir = placement(
            width,
            before.grid(),
            position as int,
            before.anchors()[index].1,
            param,
            eq,
        )->0;
        let step = direction_step(dir, width);
        let start = eq.start_position(width, dir, param, position as int);
        &&& self.target() == before.target()
        &&& self.size() == before.size()
        &&& self.placed() == before.placed() + 1
        &&& self.grid().len() == before.grid().len()
        &&& texts(self.grid()) == laid_out(texts(before.grid()), start, step, eq.tokens(dir), 5)
        &&& self.anchors() == (before.anchors() + new_anchors(start, step, dir)).filter(
            not_at(position),
        )
        &&& self.numbers() == before.numbers().push(cell_position(start, step, 0) as usize).push(
            cell_position(start, step, 2) as usize,
        ).push(cell_position(start, step, 4) as usize)
        &&& self.placements() == before.placements().push(
            placed_across(
                eq,
                column_of(position as int, width),
                row_of(position as int, width),
                dir,
                eq.token_index(dir, param),
            ),
        )
    }

    /// What holds where an accepted equation is laid across an anchor, the
    /// anchor being the numeric cell at token index `at` of the equation
    /// `owner`: the direction found fits, the five cells are distinct cells
    /// of the grid, the cell of the slot is the anchor and holds the number
    /// of the slot, and the equation as a placement has its cells where the
    /// tokens are written, no further than four cells from the anchor.
    spec fn crossing(
        &self,
        index: int,
        param: MatchParameter,
        eq: EquationView,
        owner: int,
        at: int,
    ) -> bool {
        let position = self.anchors()[index].0 as int;
        let width = self.size() as int;
        let dir = placement(width, self.grid(), position, self.anchors()[index].1, param, eq)->0;
        let step = direction_step(dir, width);
        let start = eq.start_position(width, dir, param, position);
        let slot = eq.token_index(dir, param);
        let crossed = self.placements()[owner];
        let added = placed_across(
            eq,
            column_of(position, width),
            row_of(position, width),
            dir,
            slot,
        );
        &&& direction_fits(width, self.grid(), position, param, eq, dir)
        &&& step != 0
        &&& self.grid().len() <= 65530 * 65530
        &&& span_in_grid(self.grid().len() as int, start, step)
        &&& is_number_index(slot)
        &&& cell_position(start, step, slot) == position
        &&& texts(self.grid())[position] == decimal(eq.slot(param))
        &&& 0 <= owner < self.placed()
        &&& is_number_index(at)
        &&& at_right_angles(dir, crossed.dir)
        &&& crossed.cell_column(at) == added.cell_column(slot)
        &&& crossed.cell_row(at) == added.cell_row(slot)
        &&& added.within(5 * self.target() as int, 4 * (self.placed() as int + 1))
        &&& forall|i: int|
            0 <= i < 5 ==> index_of(added.cell_column(i), added.cell_row(i), width)
                == #[trigger] cell_position(start, step, i)
    }

    /// An accepted equation crosses a numeric cell of an equation laid out
    /// before, as `crossing` says.
    proof fn lemma_crossing(&self, index: int, param: MatchParameter, eq: EquationView) -> (found: (
        int,
        int,
    ))
        requires
            self.wf(),
            self.accepts(index, param, eq),
        ensures
            self.crossing(index, param, eq, found.0, found.1),
    {
        let position = self.anchors()[index].0;
        let width = self.size() as int;
        let count = self.placed() as int;
        let center = 5 * self.target() as int;
        let dir = placement(width, self.grid(), position as int, self.anchors()[index].1, param, eq)->0;
        let step = direction_step(dir, width);
        let start = eq.start_position(width, dir, param, position as int);
        let slot = eq.token_index(dir, param);
        let cells = texts(self.grid());
        assert(direction_fits(width, self.grid(), position as int, param, eq, dir));
        assert(width * width <= 65530 * 65530) by (nonlinear_arith)
            requires
                0 <= width <= 65530,
        ;
        assert forall|i: int| 0 <= i < 5 implies 0 <= #[trigger] cell_position(start, step, i)
            < self.grid().len() by {
            assert(cell_free(self.grid(), cell_position(start, step, i), position as int));
        }
        lemma_slot_token(eq, dir, param);

        self.lemma_anchor_on_grid(index);
        let (owner, at) = choose|j: int, i: int|
            0 <= j < self.placed() && is_number_index(i) && position == index_of(
                (#[trigger] self.placements()[j]).cell_column(i),
                #[trigger] self.placements()[j].cell_row(i),
                width,
            ) && self.placements()[j].dir == self.anchors()[index].1;
        let crossed = self.placements()[owner];
        let column = crossed.cell_column(at);
        let row = crossed.cell_row(at);
        assert(crossed.shown(cells, width, width));
        assert(crossed.cell_shown(cells, width, width, at));
        assert(crossed.within(center, 4 * count));
        lemma_coordinates(column, row, width);
        let added = placed_across(eq, column, row, dir, slot);
        assert(cells[position as int] == decimal(eq.slot(param))) by {
            lemma_number_tokens(crossed.equation, crossed.dir, at);
            lemma_decimal_round_trip(token_number(crossed.equation, crossed.dir, at));
        }
        assert(index_of(added.column, added.row, width) == start) by {
            lemma_index_after(column, row, width, dir, -slot);
            assert((-slot) * step == -(slot * step)) by (nonlinear_arith);
        }
        assert forall|i: int| 0 <= i < 5 implies index_of(
            added.cell_column(i),
            added.cell_row(i),
            width,
        ) == #[trigger] cell_position(start, step, i) by {
            lemma_index_after(added.column, added.row, width, dir, i);
        }
        (owner, at)
    }

    /// After an accepted equation is laid, the grid shows it, and shows the
    /// equations laid out before as it did.
    proof fn lemma_growth_shown(
        &self,
        before: &PuzzleBuilder,
        index: int,
        param: MatchParameter,
        eq: EquationView,
    )
        requires
            before.wf(),
            eq.wf(),
            before.accepts(index, param, eq),
            self.follows(before, index, param, eq),
        ensures
            forall|j: int|
                0 <= j < self.placed() ==> (#[trigger] self.placements()[j]).shown(
                    texts(self.grid()),
                    self.size() as int,
                    self.size() as int,
                ),
    {
        let position = before.anchors()[index].0;
        let width = before.size() as int;
        let count = before.placed() as int;
        let dir = placement(
            width,
            before.grid(),
            position as int,
            before.anchors()[index].1,
            param,
            eq,
        )->0;
        let step = direction_step(dir, width);
        let start = eq.start_position(width, dir, param, position as int);
        let slot = eq.token_index(dir, param);
        let tokens = eq.tokens(dir);
        let old_cells = texts(before.grid());
        let new_cells = texts(self.grid());
        let added = self.placements()[count];
        let found = before.lemma_crossing(index, param, eq);
        assert forall|j: int| 0 <= j < self.placed() implies (#[trigger] self.placements()[j]).shown(
            new_cells,
            width,
            width,
        ) by {
            if j < count {
                let earlier = before.placements()[j];
                assert(self.placements()[j] == earlier);
                assert(earlier.shown(old_cells, width, width));
                assert forall|i: int| 0 <= i < 5 implies #[trigger] earlier.cell_shown(
                    new_cells,
                    width,
                    width,
                    i,
                ) by {
                    assert(earlier.cell_shown(old_cells, width, width, i));
                    let cell = index_of(earlier.cell_column(i), earlier.cell_row(i), width);
                    lemma_index_in_grid(earlier.cell_column(i), earlier.cell_row(i), width, width);
                    lemma_token_not_blank(earlier.equation, earlier.dir, i);
                    assert(before.grid()[cell]@ == old_cells[cell]);
                    if cell == position {
                        lemma_fitting_writes_anchor(
                            width,
                            before.grid(),
                            position as int,
                            param,
                            eq,
                            dir,
                        );
                    } else {
                        lemma_fitting_spares_cells(
                            width,
                            before.grid(),
                            position as int,
                            param,
                            eq,
                            dir,
                            cell,
                        );
                    }
                }
            } else {
                assert forall|i: int| 0 <= i < 5 implies #[trigger] added.cell_shown(
                    new_cells,
                    width,
                    width,
                    i,
                ) by {
                    assert(index_of(added.cell_column(i), added.cell_row(i), width)
                        == cell_position(start, step, i));
                    lemma_laid_out_at(old_cells, start, step, tokens, 5, i);
                }
            }
        }
    }

    /// The equation laid has a cell that was blank: it is none of the
    /// equations laid out before.
    proof fn lemma_growth_distinct(
        &self,
        before: &PuzzleBuilder,
        index: int,
        param: MatchParameter,
        eq: EquationView,
    )
        requires
            before.wf(),
            before.accepts(index, param, eq),
            self.follows(before, index, param, eq),
        ensures
            all_distinct(self.placements()),
    {
        let position = before.anchors()[index].0;
        let width = before.size() as int;
        let count = before.placed() as int;
        let dir = placement(
            width,
            before.grid(),
            position as int,
            before.anchors()[index].1,
            param,
            eq,
        )->0;
        let step = direction_step(dir, width);
        let start = eq.start_position(width, dir, param, position as int);
        let slot = eq.token_index(dir, param);
        let old_cells = texts(before.grid());
        let added = self.placements()[count];
        let found = before.lemma_crossing(index, param, eq);
        let free: int = if slot == 0 {
            2
        } else {
            0
        };
        assert forall|j: int, k: int| 0 <= j < k < self.placements().len() implies self.placements()[j]
            != self.placements()[k] by {
            if k < count {
                assert(before.placements()[j] != before.placements()[k]);
            } else {
                let earlier = before.placements()[j];
                assert(self.placements()[j] == earlier);
                if earlier == added {
                    assert(earlier.shown(old_cells, width, width));
                    assert(earlier.cell_shown(old_cells, width, width, free));
                    lemma_cells_distinct(start, step, free, slot);
                    lemma_token_not_blank(earlier.equation, earlier.dir, free);
                    let cell = cell_position(start, step, free);
                    assert(cell == index_of(added.cell_column(free), added.cell_row(free), width));
                    assert(cell_free(before.grid(), cell, position as int));
                    assert(before.grid()[cell]@ == old_cells[cell]);
                }
            }
        }
    }

    /// After an accepted equation is laid, each anchor is a recorded cell,
    /// and at least one anchor is left.
    proof fn lemma_growth_anchors(
        &self,
        before: &PuzzleBuilder,
        index: int,
        param: MatchParameter,
        eq: EquationView,
    )
        requires
            before.wf(),
            before.accepts(index, param, eq),
            self.follows(before, index, param, eq),
        ensures
            1 <= self.anchors().len() <= 3 * self.placed(),
            forall|a: int|
                0 <= a < self.anchors().len() ==> is_anchor_of(
                    #[trigger] self.anchors()[a],
                    self.numbers(),
                    self.placements(),
                ),
    {
        let position = before.anchors()[index].0;
        let width = before.size() as int;
        let count = before.placed() as int;
        let dir = placement(
            width,
            before.grid(),
            position as int,
            before.anchors()[index].1,
            param,
            eq,
        )->0;
        let step = direction_step(dir, width);
        let start = eq.start_position(width, dir, param, position as int);
        let slot = eq.token_index(dir, param);
        let found = before.lemma_crossing(index, param, eq);
        let fresh = new_anchors(start, step, dir);
        let combined = before.anchors() + fresh;
        let kept = not_at(position);
        combined.lemma_filter_len(kept);
        assert forall|a: int| 0 <= a < self.anchors().len() implies is_anchor_of(
            #[trigger] self.anchors()[a],
            self.numbers(),
            self.placements(),
        ) by {
            let anchor = self.anchors()[a];
            assert(combined.filter(kept).contains(anchor));
            combined.lemma_filter_contains_rev(kept, anchor);
            let c = choose|c: int| 0 <= c < combined.len() && combined[c] == anchor;
            if c < before.anchors().len() {
                assert(before.anchors()[c] == anchor);
                assert(is_anchor_of(before.anchors()[c], before.numbers(), before.placements()));
                let m = choose|m: int|
                    0 <= m < before.numbers().len() && #[trigger] before.numbers()[m] == anchor.0
                        && before.placements()[m / 3].dir == anchor.1;
                assert(self.numbers()[m] == anchor.0);
                assert(self.placements()[m / 3] == before.placements()[m / 3]);
            } else {
                let b = c - before.anchors().len();
                assert(fresh[b] == anchor);
                assert(self.numbers()[3 * count + b] == anchor.0);
                assert(self.placements()[(3 * count + b) / 3].dir == dir);
            }
        }
        let other: int = if slot == 0 {
            2
        } else {
            0
        };
        lemma_cells_distinct(start, step, other, slot);
        assert(0 <= cell_position(start, step, other) < before.grid().len());
        let left = combined[before.anchors().len() + other / 2];
        assert(left == fresh[other / 2]);
        assert(left.0 == cell_position(start, step, other) as usize);
        assert(kept(left));
        combined.lemma_filter_contains(kept, before.anchors().len() + other / 2);
    }

    /// The equation laid shares with an equation laid out before no cell but
    /// the anchor, where it crosses the anchor's own equation.
    proof fn lemma_growth_meets(
        &self,
        before: &PuzzleBuilder,
        index: int,
        param: MatchParameter,
        eq: EquationView,
        j: int,
        a: int,
        b: int,
    )
        requires
            before.wf(),
            before.accepts(index, param, eq),
            self.follows(before, index, param, eq),
            0 <= j < before.placed(),
            0 <= a < 5,
            0 <= b < 5,
            before.placements()[j].cell_column(a) == self.placements()[before.placed() as int].cell_column(
                b,
            ),
            before.placements()[j].cell_row(a) == self.placements()[before.placed() as int].cell_row(
                b,
            ),
        ensures
            is_number_index(a),
            is_number_index(b),
            at_right_angles(
                before.placements()[j].dir,
                self.placements()[before.placed() as int].dir,
            ),
    {
        let position = before.anchors()[index].0;
        let width = before.size() as int;
        let count = before.placed() as int;
        let dir = placement(
            width,
            before.grid(),
            position as int,
            before.anchors()[index].1,
            param,
            eq,
        )->0;
        let step = direction_step(dir, width);
        let start = eq.start_position(width, dir, param, position as int);
        let slot = eq.token_index(dir, param);
        let old_cells = texts(before.grid());
        let added = self.placements()[count];
        let earlier = before.placements()[j];
        let (owner, at) = before.lemma_crossing(index, param, eq);
        let crossed = before.placements()[owner];
        let cell = cell_position(start, step, b);
        assert(cell == index_of(added.cell_column(b), added.cell_row(b), width));
        assert(earlier.shown(old_cells, width, width));
        assert(earlier.cell_shown(old_cells, width, width, a));
        lemma_token_not_blank(earlier.equation, earlier.dir, a);
        assert(cell_free(before.grid(), cell, position as int));
        assert(before.grid()[cell]@ == old_cells[cell]);
        assert(cell == position);
        if b != slot {
            lemma_cells_distinct(start, step, b, slot);
        }
        assert(crossed.shown(old_cells, width, width));
        assert(crossed.cell_shown(old_cells, width, width, at));
        lemma_coordinates(crossed.cell_column(at), crossed.cell_row(at), width);
        assert(index_of(added.cell_column(slot), added.cell_row(slot), width) == position);
        lemma_coordinates(added.cell_column(slot), added.cell_row(slot), width);
        lemma_lone_cell(
            before.placements(),
            column_of(position as int, width),
            row_of(position as int, width),
            j,
            a,
            owner,
            at,
        );
    }

    /// After an accepted equation is laid, two equations share no cell but
    /// in a crossing.
    proof fn lemma_growth_shared(
        &self,
        before: &PuzzleBuilder,
        index: int,
        param: MatchParameter,
        eq: EquationView,
    )
        requires
            before.wf(),
            before.accepts(index, param, eq),
            self.follows(before, index, param, eq),
        ensures
            shared_cells_cross(self.placements()),
    {
        let count = before.placed() as int;
        let placements = self.placements();
        assert forall|j: int, a: int, k: int, b: int|
            0 <= j < placements.len() && 0 <= a < 5 && 0 <= k < placements.len() && 0 <= b < 5 && j
                != k && #[trigger] placements[j].cell_column(a) == #[trigger] placements[k].cell_column(
                b,
            ) && placements[j].cell_row(a) == placements[k].cell_row(b) implies is_number_index(a)
            && is_number_index(b) && at_right_angles(placements[j].dir, placements[k].dir) by {
            if j < count && k < count {
                assert(placements[j] == before.placements()[j]);
                assert(placements[k] == before.placements()[k]);
                lemma_shared_cell(before.placements(), j, a, k, b);
            } else if j < count {
                assert(placements[j] == before.placements()[j]);
                self.lemma_growth_meets(before, index, param, eq, j, a, b);
            } else {
                assert(placements[k] == before.placements()[k]);
                self.lemma_growth_meets(before, index, param, eq, k, b, a);
            }
        }
        assert(shared_cells_cross(placements)) by {
            reveal(shared_cells_cross);
        }
    }

    /// A cell of the grid that holds a cell of the equation laid, other
    /// than the anchor, was blank; one that holds a cell of an equation
    /// laid out before was not.
    proof fn lemma_growth_cells(
        &self,
        before: &PuzzleBuilder,
        index: int,
        param: MatchParameter,
        eq: EquationView,
        spot: int,
        j: int,
        i: int,
    )
        requires
            before.wf(),
            before.accepts(index, param, eq),
            self.follows(before, index, param, eq),
            0 <= spot < before.grid().len(),
            0 <= j <= before.placed(),
            0 <= i < 5,
            self.placements()[j].cell_column(i) == column_of(spot, before.size() as int),
            self.placements()[j].cell_row(i) == row_of(spot, before.size() as int),
        ensures
            j < before.placed() ==> !is_blank(texts(before.grid())[spot]),
            j == before.placed() ==> spot == cell_position(
                before.start_of(index, param, eq),
                before.step_of(index, param, eq),
                i,
            ) && (is_blank(texts(before.grid())[spot]) || spot == before.anchors()[index].0),
    {
        let position = before.anchors()[index].0;
        let width = before.size() as int;
        let count = before.placed() as int;
        let start = before.start_of(index, param, eq);
        let step = before.step_of(index, param, eq);
        let old_cells = texts(before.grid());
        let found = before.lemma_crossing(index, param, eq);
        lemma_index_of_coordinates(spot, width);
        if j < count {
            let earlier = before.placements()[j];
            assert(self.placements()[j] == earlier);
            assert(earlier.shown(old_cells, width, width));
            assert(earlier.cell_shown(old_cells, width, width, i));
            lemma_token_not_blank(earlier.equation, earlier.dir, i);
        } else {
            let added = self.placements()[count];
            let cell = cell_position(start, step, i);
            assert(cell == index_of(added.cell_column(i), added.cell_row(i), width));
            assert(cell_free(before.grid(), cell, position as int));
            assert(before.grid()[cell]@ == old_cells[cell]);
        }
    }

    /// After an accepted equation is laid, the anchor at `n` is a cell of
    /// one equation only.
    proof fn lemma_growth_lone(
        &self,
        before: &PuzzleBuilder,
        index: int,
        param: MatchParameter,
        eq: EquationView,
        n: int,
    )
        requires
            before.wf(),
            before.accepts(index, param, eq),
            self.follows(before, index, param, eq),
            0 <= n < self.anchors().len(),
        ensures
            lone(
                self.placements(),
                column_of(self.anchors()[n].0 as int, self.size() as int),
                row_of(self.anchors()[n].0 as int, self.size() as int),
            ),
    {
        let position = before.anchors()[index].0;
        let width = before.size() as int;
        let count = before.placed() as int;
        let dir = placement(
            width,
            before.grid(),
            position as int,
            before.anchors()[index].1,
            param,
            eq,
        )->0;
        let start = before.start_of(index, param, eq);
        let step = before.step_of(index, param, eq);
        let old_cells = texts(before.grid());
        let placements = self.placements();
        let found = before.lemma_crossing(index, param, eq);
        let fresh = new_anchors(start, step, dir);
        let combined = before.anchors() + fresh;
        let kept = not_at(position);
        let anchor = self.anchors()[n];
        let spot = anchor.0 as int;
        let column = column_of(spot, width);
        let row = row_of(spot, width);
        assert(combined.filter(kept).contains(anchor));
        combined.lemma_filter_contains_rev(kept, anchor);
        combined.lemma_filter_pred(kept, n);
        assert(kept(anchor));
        let c = choose|c: int| 0 <= c < combined.len() && combined[c] == anchor;
        let old_anchor = c < before.anchors().len();
        if old_anchor {
            assert(before.anchors()[c] == anchor);
            before.lemma_anchor_on_grid(c);
        } else {
            let b0 = c - before.anchors().len();
            assert(fresh[b0] == anchor);
            assert(0 <= cell_position(start, step, 2 * b0) < old_cells.len());
            assert(spot == cell_position(start, step, 2 * b0));
            assert(cell_free(before.grid(), spot, position as int));
            assert(before.grid()[spot]@ == old_cells[spot]);
        }
        // The cell of an anchor that was there before is not blank, and
        // that of a new one was blank.
        if old_anchor {
            let (owner, at) = choose|j: int, i: int|
                0 <= j < before.placed() && is_number_index(i) && anchor.0 == index_of(
                    (#[trigger] before.placements()[j]).cell_column(i),
                    #[trigger] before.placements()[j].cell_row(i),
                    width,
                ) && before.placements()[j].dir == anchor.1;
            let own = before.placements()[owner];
            assert(own.shown(old_cells, width, width));
            assert(own.cell_shown(old_cells, width, width, at));
            lemma_coordinates(own.cell_column(at), own.cell_row(at), width);
            assert(placements[owner] == own);
            self.lemma_growth_cells(before, index, param, eq, spot, owner, at);
        }
        assert(old_anchor == !is_blank(old_cells[spot]));
        assert forall|j: int, a: int, k: int, b: int|
            0 <= j < placements.len() && 0 <= a < 5 && 0 <= k < placements.len() && 0 <= b < 5
                && #[trigger] placements[j].cell_column(a) == column && placements[j].cell_row(a)
                == row && #[trigger] placements[k].cell_column(b) == column
                && placements[k].cell_row(b) == row implies j == k && a == b by {
            self.lemma_growth_cells(before, index, param, eq, spot, j, a);
            self.lemma_growth_cells(before, index, param, eq, spot, k, b);
            if old_anchor {
                assert(placements[j] == before.placements()[j]);
                assert(placements[k] == before.placements()[k]);
                lemma_lone_cell(before.placements(), column, row, j, a, k, b);
            } else {
                if a != b {
                    lemma_cells_distinct(start, step, a, b);
                }
            }
        }
        assert(lone(placements, column, row)) by {
            reveal(lone);
        }
    }

    /// After an accepted equation is laid, each cell that is not blank is a
    /// cell of the equation laid or of one laid out before.
    proof fn lemma_growth_covered(
        &self,
        before: &PuzzleBuilder,
        index: int,
        param: MatchParameter,
        eq: EquationView,
    )
        requires
            before.wf(),
            before.accepts(index, param, eq),
            self.follows(before, index, param, eq),
        ensures
            covered(self.placements(), texts(self.grid()), self.size() as int),
    {
        let position = before.anchors()[index].0;
        let width = before.size() as int;
        let count = before.placed() as int;
        let dir = placement(
            width,
            before.grid(),
            position as int,
            before.anchors()[index].1,
            param,
            eq,
        )->0;
        let step = direction_step(dir, width);
        let start = eq.start_position(width, dir, param, position as int);
        let old_cells = texts(before.grid());
        let new_cells = texts(self.grid());
        let added = self.placements()[count];
        let found = before.lemma_crossing(index, param, eq);
        lemma_laid_out_len(old_cells, start, step, eq.tokens(dir), 5);
        assert forall|q: int| 0 <= q < new_cells.len() implies is_blank(#[trigger] new_cells[q])
            || on_equation(self.placements(), width, q) by {
            let written = choose|i: int| 0 <= i < 5 && #[trigger] cell_position(start, step, i) == q;
            if 0 <= written < 5 && cell_position(start, step, written) == q {
                assert(q == index_of(added.cell_column(written), added.cell_row(written), width));
            } else {
                lemma_laid_out_elsewhere(old_cells, start, step, eq.tokens(dir), 5, q);
                if !is_blank(old_cells[q]) {
                    assert(on_equation(before.placements(), width, q));
                    let (j, i) = choose|j: int, i: int|
                        0 <= j < before.placements().len() && 0 <= i < 5 && q == index_of(
                            #[trigger] before.placements()[j].cell_column(i),
                            before.placements()[j].cell_row(i),
                            width,
                        );
                    assert(self.placements()[j] == before.placements()[j]);
                }
            }
        }
    }

    /// Laying an accepted equation keeps the invariant.
    proof fn lemma_growth(
        &self,
        before: &PuzzleBuilder,
        index: int,
        param: MatchParameter,
        eq: EquationView,
    )
        requires
            before.wf(),
            eq.wf(),
            before.accepts(index, param, eq),
            self.follows(before, index, param, eq),
        ensures
            self.wf(),
    {
        let position = before.anchors()[index].0;
        let width = before.size() as int;
        let count = before.placed() as int;
        let center = 5 * before.target() as int;
        let dir = placement(
            width,
            before.grid(),
            position as int,
            before.anchors()[index].1,
            param,
            eq,
        )->0;
        let step = direction_step(dir, width);
        let start = eq.start_position(width, dir, param, position as int);
        let slot = eq.token_index(dir, param);
        let added = self.placements()[count];
        let (owner, at) = before.lemma_crossing(index, param, eq);
        let crossed = before.placements()[owner];
        self.lemma_growth_shown(before, index, param, eq);
        self.lemma_growth_distinct(before, index, param, eq);
        self.lemma_growth_anchors(before, index, param, eq);
        self.lemma_growth_covered(before, index, param, eq);
        self.lemma_growth_shared(before, index, param, eq);
        assert forall|n: int| 0 <= n < self.anchors().len() implies lone(
            self.placements(),
            column_of((#[trigger] self.anchors()[n]).0 as int, width),
            row_of(self.anchors()[n].0 as int, width),
        ) by {
            self.lemma_growth_lone(before, index, param, eq, n);
        }
        assert forall|j: int| 0 <= j < self.placed() implies (#[trigger] self.placements()[j]).within(
            center,
            4 * (count + 1),
        ) by {
            if j < count {
                assert(self.placements()[j] == before.placements()[j]);
                assert(before.placements()[j].within(center, 4 * count));
            }
        }
        assert forall|j: int| 0 <= j < self.placed() implies recorded(
            self.numbers(),
            #[trigger] self.placements()[j],
            j,
            width,
        ) by {
            if j < count {
                assert(self.placements()[j] == before.placements()[j]);
                assert(recorded(before.numbers(), before.placements()[j], j, width));
            } else {
                assert(0 <= cell_position(start, step, 0) < before.grid().len());
                assert(0 <= cell_position(start, step, 2) < before.grid().len());
                assert(0 <= cell_position(start, step, 4) < before.grid().len());
            }
        }
        assert forall|j: int| 1 <= j < self.placed() implies #[trigger] linked(
            self.placements(),
            j,
        ) by {
            if j < count {
                assert(linked(before.placements(), j));
                let k = choose|k: int|
                    0 <= k < j && #[trigger] before.placements()[j].crosses(
                        before.placements()[k],
                    );
                assert(self.placements()[j] == before.placements()[j]);
                assert(self.placements()[k] == before.placements()[k]);
                assert(self.placements()[j].crosses(self.placements()[k]));
            } else {
                assert(added.cell_column(slot) == crossed.cell_column(at));
                assert(added.cell_row(slot) == crossed.cell_row(at));
                assert(added.crosses(crossed));
                assert(self.placements()[owner] == crossed);
                assert(self.placements()[j].crosses(self.placements()[owner]));
            }
        }
    }

    /// Tries to lay `eq` across the anchor at `index`, with the anchor's
    /// number in slot `param` of `eq`.
    ///
    /// Where `accepts` holds, the equation is written in the first of the
    /// two directions across the anchor's own equation that fits, and the
    /// builder becomes what `follows` describes. Else nothing changes.
    pub fn try_place(&mut self, index: usize, param: MatchParameter, eq: Equation) -> (placed: bool)
        requires
            old(self).wf(),
        ensures
            final(self).wf(),
            placed == old(self).accepts(index as int, param, eq@),
            placed ==> final(self).follows(old(self), index as int, param, eq@),
            !placed ==> *final(self) == *old(self),
    {
        proof {
            use_type_invariant(&eq);
        }
        if self.placed >= self.target || index >= self.anchors.len() {
            return false;
        }
        let position: usize = self.anchors[index].0;
        let former: Direction = self.anchors[index].1;
        proof {
            self.lemma_anchor_on_grid(index as int);
        }
        let value: u32 = match parse_number(self.grid[position].as_str()) {
            None => {
                return false;
            },
            Some(value) => value,
        };
        if value != eq.get_number(param) {
            return false;
        }
        let width: i32 = self.size as i32;
        let dir: Direction = match is_insertion_possible(
            width,
            &self.grid,
            position,
            former,
            param,
            &eq,
        ) {
            None => {
                return false;
            },
            Some(dir) => dir,
        };
        let origin: i128 = eq.get_start_position(width, dir, param, position);
        let ghost step = direction_step(dir, width as int);
        proof {
            assert(direction_fits(width as int, self.grid(), position as int, param, eq@, dir));
            assert forall|i: int| 0 <= i < 5 implies 0 <= #[trigger] cell_position(
                origin as int,
                step,
                i,
            ) < self.grid().len() by {
                assert(cell_free(self.grid(), cell_position(origin as int, step, i), position as int));
            }
            assert(cell_position(origin as int, step, 0) == origin);
            assert(self.size * self.size <= 65530 * 65530) by (nonlinear_arith)
                requires
                    0 <= self.size <= 65530,
            ;
        }
        let start: usize = origin as usize;
        insert_equation(width, &mut self.grid, start, dir, eq, &mut self.anchors);
        let count: usize = self.anchors.len();
        assert(count == old(self).anchors().len() + 3);
        let first: usize = self.anchors[count - 3].0;
        let second: usize = self.anchors[count - 2].0;
        let third: usize = self.anchors[count - 1].0;
        self.numbers.push(first);
        self.numbers.push(second);
        self.numbers.push(third);
        let kept: Vec<(usize, Direction)> = without_position(&self.anchors, position);
        self.anchors = kept;
        self.placed = self.placed + 1;
        let ghost added = placed_across(
            eq@,
            column_of(position as int, width as int),
            row_of(position as int, width as int),
            dir,
            eq@.token_index(dir, param),
        );
        proof {
            self.placements@ = self.placements@.push(added);
            assert(self.follows(old(self), index as int, param, eq@));
            self.lemma_growth(old(self), index as int, param, eq@);
        }
        true
    }

    /// Whether none of the numbers of the equations laid out is larger than
    /// `bound`.
    pub open spec fn bounded(&self, bound: int) -> bool {
        forall|j: int|
            0 <= j < self.placed() ==> {
                &&& (#[trigger] self.placements()[j]).equation.x <= bound
                &&& self.placements()[j].equation.y <= bound
                &&& self.placements()[j].equation.result <= bound
            }
    }

    /// Whether the next attempt is sure to lay its equation: no more than
    /// two equations are laid out, a further one is asked for, and each
    /// number on the grid leaves room for a second operand. Beside one
    /// equation, and beside two that cross, every equation across one of
    /// the anchors fits in the direction that is tried first.
    pub open spec fn sure_to_grow(&self) -> bool {
        &&& self.placed() <= 2
        &&& self.target() > self.placed()
        &&& self.bounded(u32::MAX - MAX_NUMBER)
    }

    /// Where the next attempt is sure to lay its equation, an equation can
    /// be generated for each anchor and each slot, and each equation that
    /// can be generated is accepted.
    proof fn lemma_sure_crossing(&self, index: int, param: MatchParameter, eq: EquationView)
        requires
            self.wf(),
            self.sure_to_grow(),
            0 <= index < self.anchors().len(),
        ensures
            self.can_generate(index, param),
            self.is_candidate(index, param, eq) ==> self.accepts(index, param, eq),
    {
        let position = self.anchors()[index].0 as int;
        let width = self.size() as int;
        let center = 5 * self.target() as int;
        let cells = texts(self.grid());
        let placements = self.placements();
        self.lemma_anchor_on_grid(index);
        let (owner, at) = choose|j: int, i: int|
            0 <= j < self.placed() && is_number_index(i) && position == index_of(
                (#[trigger] self.placements()[j]).cell_column(i),
                #[trigger] self.placements()[j].cell_row(i),
                width,
            ) && self.placements()[j].dir == self.anchors()[index].1;
        let own = placements[owner];
        let column = own.cell_column(at);
        let row = own.cell_row(at);
        assert(own.shown(cells, width, width));
        assert(own.cell_shown(cells, width, width, at));
        assert(own.within(center, 4 * self.placed() as int));
        lemma_coordinates(column, row, width);
        lemma_number_tokens(own.equation, own.dir, at);
        let held = token_number(own.equation, own.dir, at);
        lemma_decimal_round_trip(held);
        assert(self.can_generate(index, param));
        if self.is_candidate(index, param, eq) {
            lemma_generated_bound(param, held, eq);
            let dir = perpendicular(own.dir).0;
            let step = direction_step(dir, width);
            let slot = eq.token_index(dir, param);
            let start = eq.start_position(width, dir, param, position);
            assert forall|i: int| 0 <= i < 5 implies cell_free(
                self.grid(),
                #[trigger] cell_position(start, step, i),
                position,
            ) by {
                let cell = cell_position(start, step, i);
                let x = column_after(column, dir, i - slot);
                let y = row_after(row, dir, i - slot);
                lemma_index_after(column, row, width, dir, i - slot);
                assert((i - slot) * step == i * step - slot * step) by (nonlinear_arith);
                assert(cell == index_of(x, y, width));
                lemma_index_in_grid(x, y, width, width);
                lemma_coordinates(x, y, width);
                if !is_blank(cells[cell]) {
                    assert(on_equation(placements, width, cell));
                    let (j, k) = choose|j: int, k: int|
                        0 <= j < placements.len() && 0 <= k < 5 && cell == index_of(
                            #[trigger] placements[j].cell_column(k),
                            placements[j].cell_row(k),
                            width,
                        );
                    let other = placements[j];
                    assert(other.shown(cells, width, width));
                    assert(other.cell_shown(cells, width, width, k));
                    lemma_coordinates(other.cell_column(k), other.cell_row(k), width);
                    if j != owner {
                        // The other equation runs along the line of the
                        // new one, so it would cross the anchor's own
                        // equation in the anchor.
                        assert(linked(placements, 1));
                        assert(placements[1].crosses(placements[0]));
                        let (i1, i0) = choose|i1: int, i0: int|
                            is_number_index(i1) && is_number_index(i0)
                                && #[trigger] placements[1].cell_column(i1)
                                == #[trigger] placements[0].cell_column(i0)
                                && placements[1].cell_row(i1) == placements[0].cell_row(i0);
                        let met = if j == 1 {
                            i1
                        } else {
                            i0
                        };
                        assert(other.cell_column(met) == column && other.cell_row(met) == row);
                        lemma_lone_cell(placements, column, row, owner, at, j, met);
                    }
                }
            }
            assert(direction_fits(width, self.grid(), position, param, eq, dir));
        }
    }

    /// Whether an equation can be generated with the number of the anchor
    /// at `index` in its slot `param`: the cell of the anchor holds a
    /// number, small enough for the sum with a second operand where slot
    /// `param` is that of an operand.
    pub open spec fn can_generate(&self, index: int, param: MatchParameter) -> bool {
        &&& parsed(self.grid()[self.anchors()[index].0 as int]@) matches Some(value)
        &&& param != MatchParameter::Result ==> value + MAX_NUMBER <= u32::MAX
    }

    /// Whether `eq` is one of the equations that can be generated with the
    /// number of the anchor at `index` in its slot `param`.
    pub open spec fn is_candidate(&self, index: int, param: MatchParameter, eq: EquationView)
        -> bool {
        &&& eq.wf()
        &&& parsed(self.grid()[self.anchors()[index].0 as int]@) matches Some(value)
        &&& generated(param, value as nat, eq)
    }

    /// What one attempt does, given the anchor `index` and the slot `param`
    /// that it drew and, where an equation can be generated for them, the
    /// equation `eq` that was generated: the equation is laid where the
    /// builder accepts it, which `placed` tells, and `after` is the builder
    /// that follows. Where none can be generated or the equation is not
    /// accepted, nothing is laid and the builder stays as it is.
    pub open spec fn attempt_outcome(
        &self,
        after: &PuzzleBuilder,
        placed: bool,
        index: int,
        param: MatchParameter,
        eq: EquationView,
    ) -> bool {
        &&& 0 <= index < self.anchors().len()
        &&& if self.can_generate(index, param) {
            &&& self.is_candidate(index, param, eq)
            &&& placed == self.accepts(index, param, eq)
            &&& placed ==> after.follows(self, index, param, eq)
        } else {
            !placed
        }
        &&& !placed ==> *after == *self
    }

    /// What `grow` does, given what its attempts drew and generated, in
    /// their order: each attempt but the last lays nothing; the last lays
    /// its equation where `grown` holds and nothing where it does not, all
    /// `attempts` being used up then.
    pub open spec fn grow_outcome(
        &self,
        after: &PuzzleBuilder,
        grown: bool,
        attempts: nat,
        tries: Seq<(int, MatchParameter, EquationView)>,
    ) -> bool {
        let failed = if grown {
            tries.len() - 1
        } else {
            tries.len() as int
        };
        &&& if grown {
            1 <= tries.len() <= attempts
        } else {
            tries.len() == attempts
        }
        &&& forall|i: int|
            0 <= i < failed ==> self.attempt_outcome(
                self,
                false,
                (#[trigger] tries[i]).0,
                tries[i].1,
                tries[i].2,
            )
        &&& grown ==> self.attempt_outcome(
            after,
            true,
            tries.last().0,
            tries.last().1,
            tries.last().2,
        )
        &&& !grown ==> *after == *self
    }

    /// One random attempt at a further equation: draws an anchor and a
    /// slot, generates an equation with the anchor's number in that slot,
    /// and lays it across the anchor where the builder accepts it.
    pub fn attempt(&mut self, rng: &mut RandomSource) -> (placed: bool)
        requires
            old(self).wf(),
        ensures
            final(self).wf(),
            old(self).complete() ==> !placed,
            old(self).sure_to_grow() ==> placed,
            forall|bound: int| #[trigger]
                old(self).bounded(bound) ==> final(self).bounded(bound + MAX_NUMBER),
            exists|index: int, param: MatchParameter, eq: EquationView| #[trigger]
                old(self).attempt_outcome(final(self), placed, index, param, eq),
    {
        let ghost nothing = EquationView { x: 0, y: 0, operator: Operation::Plus, result: 0 };
        let count: usize = self.anchors.len();
        let index: usize = rng.next_in_range(0, count as u32) as usize;
        let param: MatchParameter = get_random_match_parameter(rng);
        proof {
            if self.sure_to_grow() {
                self.lemma_sure_crossing(index as int, param, nothing);
            }
        }
        let value: u32 = match self.anchor_value(index) {
            None => {
                assert(old(self).attempt_outcome(self, false, index as int, param, nothing));
                return false;
            },
            Some(value) => value,
        };
        if param != MatchParameter::Result && value > u32::MAX - MAX_NUMBER {
            assert(old(self).attempt_outcome(self, false, index as int, param, nothing));
            return false;
        }
        let eq: Equation = Equation::generate(rng, param, value);
        assert(generated(param, value as nat, eq@));
        proof {
            if self.sure_to_grow() {
                self.lemma_sure_crossing(index as int, param, eq@);
            }
        }
        let placed = self.try_place(index, param, eq);
        assert(old(self).attempt_outcome(self, placed, index as int, param, eq@));
        proof {
            assert forall|bound: int| #[trigger] old(self).bounded(bound) implies self.bounded(
                bound + MAX_NUMBER,
            ) by {
                if placed {
                    old(self).lemma_anchor_bound(index as int, bound);
                    lemma_generated_bound(param, value as nat, eq@);
                    assert forall|j: int| 0 <= j < self.placed() implies {
                        &&& (#[trigger] self.placements()[j]).equation.x <= bound + MAX_NUMBER
                        &&& self.placements()[j].equation.y <= bound + MAX_NUMBER
                        &&& self.placements()[j].equation.result <= bound + MAX_NUMBER
                    } by {
                        if j < old(self).placed() {
                            assert(self.placements()[j] == old(self).placements()[j]);
                        }
                    }
                }
            }
        }
        placed
    }

    /// Lays out one more equation: up to `attempts` random attempts are
    /// made, one after the other, until one of them lays its equation.
    /// `false` says that none did, and nothing has changed then.
    pub fn grow(&mut self, rng: &mut RandomSource, attempts: u32) -> (grown: bool)
        requires
            old(self).wf(),
        ensures
            final(self).wf(),
            attempts == 0 || old(self).complete() ==> !grown,
            attempts >= 1 && old(self).sure_to_grow() ==> grown,
            forall|bound: int| #[trigger]
                old(self).bounded(bound) ==> final(self).bounded(bound + MAX_NUMBER),
            grown ==> final(self).placed() == old(self).placed() + 1 && final(self).target() == old(
                self,
            ).target(),
            exists|tries: Seq<(int, MatchParameter, EquationView)>| #[trigger]
                old(self).grow_outcome(final(self), grown, attempts as nat, tries),
    {
        let mut made: u32 = 0;
        let ghost mut tries: Seq<(int, MatchParameter, EquationView)> = Seq::empty();
        while made < attempts
            invariant
                *self == *old(self),
                self.wf(),
                made <= attempts,
                old(self).sure_to_grow() ==> made == 0,
                tries.len() == made,
                forall|i: int|
                    0 <= i < tries.len() ==> old(self).attempt_outcome(
                        old(self),
                        false,
                        (#[trigger] tries[i]).0,
                        tries[i].1,
                        tries[i].2,
                    ),
            decreases attempts - made,
        {
            let ghost failed = tries;
            let placed = self.attempt(rng);
            proof {
                let (index, param, eq) = choose|index: int, param: MatchParameter, eq: EquationView| #[trigger]
                    old(self).attempt_outcome(self, placed, index, param, eq);
                tries = failed.push((index, param, eq));
                assert forall|i: int| 0 <= i < failed.len() implies (#[trigger] tries[i])
                    == failed[i] by {}
            }
            if placed {
                assert(old(self).grow_outcome(self, true, attempts as nat, tries));
                return true;
            }
            made = made + 1;
        }
        assert(old(self).grow_outcome(self, false, attempts as nat, tries));
        false
    }

    /// Ends the construction: the grid is cut down to the bounding box of
    /// the cells that hold a number, which holds every equation laid out
    /// and has no empty row or column at its border.
    pub fn finish(self) -> (puzzle: Crossmath)
        requires
            self.wf(),
        ensures
            puzzle.wf(),
            puzzle.placements().len() == self.placed(),
            puzzle.placements()[0].dir == Direction::Right,
            exists|frame: BoundingBox| #[trigger] puzzle.cut_from(&self, frame),
    {
        let width: usize = self.size as usize;
        let frame: BoundingBox = match bounding_box(width, &self.numbers) {
            None => {
                assert(false);
                BoundingBox { xmin: 0, xmax: 0, ymin: 0, ymax: 0 }
            },
            Some(frame) => frame,
        };
        proof {
            self.lemma_frame(frame);
            lemma_index_in_grid(frame.xmax as int, frame.ymax as int, width as int, width as int);
        }
        let grid: Vec<String> = crop_cells(&self.grid, width, &frame);
        let new_width: u32 = (frame.xmax - frame.xmin + 1) as u32;
        let new_height: u32 = (frame.ymax - frame.ymin + 1) as u32;
        let placements: Ghost<Seq<Placement>> = Ghost(
            Seq::new(
                self.placements().len(),
                |j: int| self.placements()[j].moved(frame.xmin as int, frame.ymin as int),
            ),
        );
        let puzzle = Crossmath::from_parts(new_width, new_height, grid, placements);
        proof {
            assert(puzzle.cut_from(&self, frame));
            self.lemma_cropped(frame, puzzle);
        }
        puzzle
    }

    /// The bounding box of the recorded cells lies on the grid and holds
    /// every cell of every equation.
    proof fn lemma_frame(&self, frame: BoundingBox)
        requires
            self.wf(),
            frame.bounds(self.numbers(), self.size() as int),
        ensures
            frame.xmin <= frame.xmax < self.size(),
            frame.ymin <= frame.ymax < self.size(),
            forall|j: int, i: int|
                0 <= j < self.placed() && 0 <= i < 5 ==> {
                    &&& frame.xmin <= (#[trigger] self.placements()[j]).cell_column(i) <= frame.xmax
                    &&& frame.ymin <= #[trigger] self.placements()[j].cell_row(i) <= frame.ymax
                },
    {
        let width = self.size() as int;
        let cells = texts(self.grid());
        assert forall|j: int, i: int| 0 <= j < self.placed() && 0 <= i < 5 implies {
            &&& frame.xmin <= (#[trigger] self.placements()[j]).cell_column(i) <= frame.xmax
            &&& frame.ymin <= #[trigger] self.placements()[j].cell_row(i) <= frame.ymax
        } by {
            let p = self.placements()[j];
            assert(p.shown(cells, width, width));
            assert(recorded(self.numbers(), p, j, width));
            assert(p.cell_shown(cells, width, width, 0));
            assert(p.cell_shown(cells, width, width, 4));
            lemma_coordinates(p.cell_column(0), p.cell_row(0), width);
            lemma_coordinates(p.cell_column(4), p.cell_row(4), width);
            let head = self.numbers()[3 * j];
            let tail = self.numbers()[3 * j + 2];
            assert(frame.xmin <= column_of(head as int, width) <= frame.xmax);
            assert(frame.xmin <= column_of(tail as int, width) <= frame.xmax);
        }
        let p = self.placements()[0];
        assert(p.shown(cells, width, width));
        assert(p.cell_shown(cells, width, width, 0));
        assert(frame.xmin <= p.cell_column(0) <= frame.xmax);
        assert(frame.ymin <= p.cell_row(0) <= frame.ymax);
        let numbers = self.numbers();
        let lowest = choose|m: int|
            0 <= m < numbers.len() && row_of(#[trigger] numbers[m] as int, width) == frame.ymax;
        self.lemma_recorded_cell(lowest);
        let q = self.placements()[lowest / 3];
        assert(q.shown(cells, width, width));
        assert(q.cell_shown(cells, width, width, 2 * (lowest % 3)));
    }

    /// The grid cut down to the bounding box of the recorded cells is a
    /// puzzle that shows every equation, moved with the grid.
    proof fn lemma_cropped(&self, frame: BoundingBox, puzzle: Crossmath)
        requires
            self.wf(),
            puzzle.cut_from(self, frame),
        ensures
            puzzle.wf(),
    {
        let width = self.size() as int;
        let cells = texts(self.grid());
        let new_width = frame.width();
        let new_height = frame.height();
        let new_cells = puzzle.cells();
        let left = frame.xmin as int;
        let top = frame.ymin as int;
        self.lemma_frame(frame);
        assert forall|j: int| 0 <= j < puzzle.placements().len() implies (
        #[trigger] puzzle.placements()[j]).shown(new_cells, new_width, new_height) by {
            let p = self.placements()[j];
            let q = puzzle.placements()[j];
            assert(q == p.moved(left, top));
            assert(p.shown(cells, width, width));
            assert forall|i: int| 0 <= i < 5 implies #[trigger] q.cell_shown(
                new_cells,
                new_width,
                new_height,
                i,
            ) by {
                assert(p.cell_shown(cells, width, width, i));
                assert(frame.xmin <= p.cell_column(i) <= frame.xmax);
                assert(frame.ymin <= p.cell_row(i) <= frame.ymax);
                assert(q.cell_column(i) == p.cell_column(i) - left);
                assert(q.cell_row(i) == p.cell_row(i) - top);
                let k = index_of(q.cell_column(i), q.cell_row(i), new_width);
                lemma_index_in_grid(q.cell_column(i), q.cell_row(i), new_width, new_height);
                lemma_coordinates(q.cell_column(i), q.cell_row(i), new_width);
                assert(new_cells[k] == cells[index_of(
                    column_of(k, new_width) + left,
                    row_of(k, new_width) + top,
                    width,
                )]);
            }
        }
        assert forall|j: int| 1 <= j < puzzle.placements().len() implies #[trigger] linked(
            puzzle.placements(),
            j,
        ) by {
            assert(linked(self.placements(), j));
            let k = choose|k: int|
                0 <= k < j && #[trigger] self.placements()[j].crosses(self.placements()[k]);
            lemma_moved_crosses(self.placements()[j], self.placements()[k], left, top);
            assert(puzzle.placements()[j].crosses(puzzle.placements()[k]));
        }
        assert forall|j: int, k: int| 0 <= j < k < puzzle.placements().len() implies puzzle.placements()[j]
            != puzzle.placements()[k] by {
            assert(self.placements()[j] != self.placements()[k]);
        }
        lemma_moved_shared(self.placements(), puzzle.placements(), left, top);
        assert forall|k: int| 0 <= k < new_cells.len() implies is_blank(#[trigger] new_cells[k])
            || on_equation(puzzle.placements(), new_width, k) by {
            lemma_index_of_coordinates(k, new_width);
            let x = column_of(k, new_width);
            let y = row_of(k, new_width);
            assert(0 <= y) by (nonlinear_arith)
                requires
                    y == k / new_width,
                    0 <= k,
                    0 < new_width,
            ;
            assert(y < new_height) by (nonlinear_arith)
                requires
                    index_of(x, y, new_width) == k,
                    k < new_width * new_height,
                    0 <= x,
                    0 < new_width,
            ;
            let q = index_of(x + left, y + top, width);
            lemma_index_in_grid(x + left, y + top, width, width);
            assert(new_cells[k] == cells[q]);
            if !is_blank(cells[q]) {
                assert(on_equation(self.placements(), width, q));
                let (j, i) = choose|j: int, i: int|
                    0 <= j < self.placements().len() && 0 <= i < 5 && q == index_of(
                        #[trigger] self.placements()[j].cell_column(i),
                        self.placements()[j].cell_row(i),
                        width,
                    );
                let p = self.placements()[j];
                assert(p.shown(cells, width, width));
                assert(p.cell_shown(cells, width, width, i));
                lemma_coordinates(p.cell_column(i), p.cell_row(i), width);
                lemma_coordinates(x + left, y + top, width);
                assert(puzzle.placements()[j].cell_column(i) == x);
                assert(puzzle.placements()[j].cell_row(i) == y);
            }
        }
        let numbers = self.numbers();
        let mx0 = choose|m: int|
            0 <= m < numbers.len() && column_of(#[trigger] numbers[m] as int, width) == frame.xmin;
        let mx1 = choose|m: int|
            0 <= m < numbers.len() && column_of(#[trigger] numbers[m] as int, width) == frame.xmax;
        let my0 = choose|m: int|
            0 <= m < numbers.len() && row_of(#[trigger] numbers[m] as int, width) == frame.ymin;
        let my1 = choose|m: int|
            0 <= m < numbers.len() && row_of(#[trigger] numbers[m] as int, width) == frame.ymax;
        self.lemma_recorded_cell(mx0);
        self.lemma_recorded_cell(mx1);
        self.lemma_recorded_cell(my0);
        self.lemma_recorded_cell(my1);
        assert(puzzle.placements()[mx0 / 3].cell_column(2 * (mx0 % 3)) == 0);
        assert(puzzle.placements()[mx1 / 3].cell_column(2 * (mx1 % 3)) == new_width - 1);
        assert(puzzle.placements()[my0 / 3].cell_row(2 * (my0 % 3)) == 0);
        assert(puzzle.placements()[my1 / 3].cell_row(2 * (my1 % 3)) == new_height - 1);
        assert(column_touched(puzzle.placements(), 0));
        assert(column_touched(puzzle.placements(), new_width - 1));
        assert(row_touched(puzzle.placements(), 0));
        assert(row_touched(puzzle.placements(), new_height - 1));
        assert(new_cells.len() == new_width * new_height);
        assert(new_width * new_height <= 65530 * 65530) by (nonlinear_arith)
            requires
                0 <= new_width <= 65530,
                0 <= new_height <= 65530,
        ;
    }

    /// The `m`-th recorded cell is a numeric cell of the equation at
    /// `m / 3`.
    proof fn lemma_recorded_cell(&self, m: int)
        requires
            self.wf(),
            0 <= m < self.numbers().len(),
        ensures
            0 <= m / 3 < self.placed(),
            is_number_index(2 * (m % 3)),
            column_of(self.numbers()[m] as int, self.size() as int) == self.placements()[m
                / 3].cell_column(2 * (m % 3)),
            row_of(self.numbers()[m] as int, self.size() as int) == self.placements()[m
                / 3].cell_row(2 * (m % 3)),
    {
        let width = self.size() as int;
        let j = m / 3;
        let i = 2 * (m % 3);
        let p = self.placements()[j];
        assert(recorded(self.numbers(), p, j, width));
        assert(p.shown(texts(self.grid()), width, width));
        assert(p.cell_shown(texts(self.grid()), width, width, i));
        lemma_coordinates(p.cell_column(i), p.cell_row(i), width);
    }
}

/// The anchors that are not at `position`, in their order.
fn without_position(anchors: &Vec<(usize, Direction)>, position: usize) -> (kept: Vec<
    (usize, Direction),
>)
    ensures
        kept@ == anchors@.filter(not_at(position)),
{
    let mut kept: Vec<(usize, Direction)> = Vec::new();
    let mut i: usize = 0;
    assert(anchors@.take(0).filter(not_at(position)) =~= Seq::<(usize, Direction)>::empty()) by {
        reveal(Seq::filter);
    }
    while i < anchors.len()
        invariant
            0 <= i <= anchors@.len(),
            kept@ == anchors@.take(i as int).filter(not_at(position)),
        decreases anchors@.len() - i,
    {
        let anchor: (usize, Direction) = anchors[i];
        proof {
            reveal(Seq::filter);
            assert(anchors@.take(i as int + 1).drop_last() =~= anchors@.take(i as int));
            assert(anchors@.take(i as int + 1).last() == anchor);
        }
        if anchor.0 != position {
            kept.push(anchor);
        }
        i = i + 1;
    }
    assert(anchors@.take(i as int) =~= anchors@);
    kept
}

} // verus!
