//! The placement engine: whether an equation can cross a number that is
//! already on the grid, in which direction, and the writing of its tokens.

use crate::cell::{cell_is_blank, is_blank, texts};
use crate::decimal::decimal;
use crate::equation::{
    direction_step, get_direction_step, match_parameter_for_draw, parameter_of_draw, Direction,
    Equation, EquationView, MatchParameter,
};
use crate::error::PuzzleError;
use crate::random::RandomSource;
use vstd::prelude::*;
use vstd::string::*;

verus! {

/// The position of the `i`-th cell of an equation whose first cell is at
/// `start` and whose cells lie `step` apart.
pub open spec fn cell_position(start: int, step: int, i: int) -> int {
    start + i * step
}

/// Whether the five cells of an equation all lie on a grid of `len` cells.
pub open spec fn span_in_grid(len: int, start: int, step: int) -> bool {
    forall|i: int| 0 <= i < 5 ==> 0 <= #[trigger] cell_position(start, step, i) < len
}

/// Whether a token may be written at `position`: the position lies on the
/// grid, and the cell is blank unless it is the anchor cell itself.
pub open spec fn cell_free(grid: Seq<String>, position: int, anchor: int) -> bool {
    0 <= position < grid.len() && (is_blank(grid[position]@) || position == anchor)
}

/// Whether `eq` can be laid out in direction `dir` with the number of its
/// slot `param` on the anchor cell: each of its five cells is free.
pub open spec fn direction_fits(
    width: int,
    grid: Seq<String>,
    anchor: int,
    param: MatchParameter,
    eq: EquationView,
    dir: Direction,
) -> bool {
    let step = direction_step(dir, width);
    let start = eq.start_position(width, dir, param, anchor);
    forall|i: int| 0 <= i < 5 ==> cell_free(grid, #[trigger] cell_position(start, step, i), anchor)
}

/// The two directions at right angles to `former`, in the order in which
/// they are tried.
pub open spec fn perpendicular(former: Direction) -> (Direction, Direction) {
    match former {
        Direction::Down | Direction::Up => (Direction::Left, Direction::Right),
        Direction::Right | Direction::Left => (Direction::Down, Direction::Up),
    }
}

/// The direction in which `eq` is placed across the anchor, whose own
/// equation runs in direction `former`: the first of the two perpendicular
/// directions that fits, if one does.
pub open spec fn placement(
    width: int,
    grid: Seq<String>,
    anchor: int,
    former: Direction,
    param: MatchParameter,
    eq: EquationView,
) -> Option<Direction> {
    let (first, second) = perpendicular(former);
    if direction_fits(width, grid, anchor, param, eq, first) {
        Some(first)
    } else if direction_fits(width, grid, anchor, param, eq, second) {
        Some(second)
    } else {
        None
    }
}

/// The grid after the first `count` of `tokens` were written, one after the
/// other, at `start`, `start + step`, and so on.
pub open spec fn laid_out(
    cells: Seq<Seq<char>>,
    start: int,
    step: int,
    tokens: Seq<Seq<char>>,
    count: int,
) -> Seq<Seq<char>>
    decreases count,
{
    if count <= 0 {
        cells
    } else {
        laid_out(cells, start, step, tokens, count - 1).update(
            cell_position(start, step, count - 1),
            tokens[count - 1],
        )
    }
}

/// The anchors that an equation leaves: its three numeric cells, which are
/// the first, the third and the fifth, each with the direction of the
/// equation.
pub open spec fn new_anchors(start: int, step: int, dir: Direction) -> Seq<(usize, Direction)> {
    seq![
        (cell_position(start, step, 0) as usize, dir),
        (cell_position(start, step, 2) as usize, dir),
        (cell_position(start, step, 4) as usize, dir),
    ]
}

/// Writing leaves the number of cells as it is.
pub proof fn lemma_laid_out_len(
    cells: Seq<Seq<char>>,
    start: int,
    step: int,
    tokens: Seq<Seq<char>>,
    count: int,
)
    requires
        forall|i: int| 0 <= i < count ==> 0 <= #[trigger] cell_position(start, step, i) < cells.len(),
    ensures
        laid_out(cells, start, step, tokens, count).len() == cells.len(),
    decreases count,
{
    if count > 0 {
        lemma_laid_out_len(cells, start, step, tokens, count - 1);
        assert(0 <= cell_position(start, step, count - 1) < cells.len());
    }
}

/// A cell that is none of the cells written keeps its text.
pub proof fn lemma_laid_out_elsewhere(
    cells: Seq<Seq<char>>,
    start: int,
    step: int,
    tokens: Seq<Seq<char>>,
    count: int,
    j: int,
)
    requires
        0 <= j < cells.len(),
        forall|i: int| 0 <= i < count ==> 0 <= #[trigger] cell_position(start, step, i) < cells.len(),
        forall|i: int| 0 <= i < count ==> #[trigger] cell_position(start, step, i) != j,
    ensures
        laid_out(cells, start, step, tokens, count)[j] == cells[j],
    decreases count,
{
    if count > 0 {
        lemma_laid_out_len(cells, start, step, tokens, count - 1);
        lemma_laid_out_elsewhere(cells, start, step, tokens, count - 1, j);
        assert(cell_position(start, step, count - 1) != j);
        assert(0 <= cell_position(start, step, count - 1) < cells.len());
    }
}

/// Cells that lie a step other than zero apart are pairwise distinct.
pub proof fn lemma_cells_distinct(start: int, step: int, i: int, j: int)
    requires
        step != 0,
        i != j,
    ensures
        cell_position(start, step, i) != cell_position(start, step, j),
{
    assert((i - j) * step != 0) by (nonlinear_arith)
        requires
            step != 0,
            i != j,
    ;
    assert((i - j) * step == i * step - j * step) by (nonlinear_arith);
}

/// Where the cells written lie on the grid and are distinct, each of them
/// holds its token afterwards.
pub proof fn lemma_laid_out_at(
    cells: Seq<Seq<char>>,
    start: int,
    step: int,
    tokens: Seq<Seq<char>>,
    count: int,
    i: int,
)
    requires
        step != 0,
        0 <= i < count,
        forall|k: int| 0 <= k < count ==> 0 <= #[trigger] cell_position(start, step, k) < cells.len(),
    ensures
        laid_out(cells, start, step, tokens, count)[cell_position(start, step, i)] == tokens[i],
    decreases count,
{
    lemma_laid_out_len(cells, start, step, tokens, count - 1);
    assert(0 <= cell_position(start, step, count - 1) < cells.len());
    assert(0 <= cell_position(start, step, i) < cells.len());
    if i < count - 1 {
        lemma_laid_out_at(cells, start, step, tokens, count - 1, i);
        lemma_cells_distinct(start, step, i, count - 1);
    }
}

/// An equation that is written to the grid is read back from it: each of
/// its five cells holds its token, and from the cell of each of its three
/// numbers the position of the first token is found again. This holds for
/// both operators and all four directions.
pub proof fn lemma_written_equation_is_read_back(
    cells: Seq<Seq<char>>,
    width: int,
    start: int,
    dir: Direction,
    eq: EquationView,
    param: MatchParameter,
    i: int,
)
    requires
        direction_step(dir, width) != 0,
        span_in_grid(cells.len() as int, start, direction_step(dir, width)),
        0 <= i < 5,
    ensures
        laid_out(cells, start, direction_step(dir, width), eq.tokens(dir), 5)[cell_position(
            start,
            direction_step(dir, width),
            i,
        )] == eq.tokens(dir)[i],
        eq.tokens(dir)[eq.token_index(dir, param)] == decimal(eq.slot(param)),
        eq.start_position(
            width,
            dir,
            param,
            cell_position(start, direction_step(dir, width), eq.token_index(dir, param)),
        ) == start,
{
    lemma_laid_out_at(cells, start, direction_step(dir, width), eq.tokens(dir), 5, i);
}

/// A direction that is found for an equation leaves every cell as it is
/// that is not blank and is not the anchor cell: no token on the grid is
/// written over.
pub proof fn lemma_placement_spares_cells(
    width: int,
    grid: Seq<String>,
    anchor: int,
    former: Direction,
    param: MatchParameter,
    eq: EquationView,
    dir: Direction,
    cell: int,
)
    requires
        placement(width, grid, anchor, former, param, eq) == Some(dir),
        0 <= cell < grid.len(),
        cell != anchor,
        !is_blank(grid[cell]@),
    ensures
        laid_out(
            texts(grid),
            eq.start_position(width, dir, param, anchor),
            direction_step(dir, width),
            eq.tokens(dir),
            5,
        )[cell] == grid[cell]@,
{
    lemma_fitting_spares_cells(width, grid, anchor, param, eq, dir, cell);
}

/// The same of any direction that fits.
pub proof fn lemma_fitting_spares_cells(
    width: int,
    grid: Seq<String>,
    anchor: int,
    param: MatchParameter,
    eq: EquationView,
    dir: Direction,
    cell: int,
)
    requires
        direction_fits(width, grid, anchor, param, eq, dir),
        0 <= cell < grid.len(),
        cell != anchor,
        !is_blank(grid[cell]@),
    ensures
        laid_out(
            texts(grid),
            eq.start_position(width, dir, param, anchor),
            direction_step(dir, width),
            eq.tokens(dir),
            5,
        )[cell] == grid[cell]@,
{
    let start = eq.start_position(width, dir, param, anchor);
    let step = direction_step(dir, width);
    assert forall|i: int| 0 <= i < 5 implies 0 <= #[trigger] cell_position(start, step, i)
        < texts(grid).len() && cell_position(start, step, i) != cell by {
        assert(cell_free(grid, cell_position(start, step, i), anchor));
    }
    lemma_laid_out_elsewhere(texts(grid), start, step, eq.tokens(dir), 5, cell);
}

/// Where the cells of the equation are distinct, the anchor cell holds the
/// number of slot `param` after the writing. Where it held that number
/// before, the writing has changed no cell that was not blank.
pub proof fn lemma_fitting_writes_anchor(
    width: int,
    grid: Seq<String>,
    anchor: int,
    param: MatchParameter,
    eq: EquationView,
    dir: Direction,
)
    requires
        direction_fits(width, grid, anchor, param, eq, dir),
        direction_step(dir, width) != 0,
    ensures
        0 <= anchor < grid.len(),
        laid_out(
            texts(grid),
            eq.start_position(width, dir, param, anchor),
            direction_step(dir, width),
            eq.tokens(dir),
            5,
        )[anchor] == decimal(eq.slot(param)),
{
    let start = eq.start_position(width, dir, param, anchor);
    let step = direction_step(dir, width);
    let index = eq.token_index(dir, param);
    assert forall|i: int| 0 <= i < 5 implies 0 <= #[trigger] cell_position(start, step, i)
        < texts(grid).len() by {
        assert(cell_free(grid, cell_position(start, step, i), anchor));
    }
    assert(cell_position(start, step, index) == anchor);
    lemma_laid_out_at(texts(grid), start, step, eq.tokens(dir), 5, index);
}

/// Draws the slot of the next equation that is to hold the anchor's number:
/// `X` and `Y` with 33 chances in a hundred each, `Result` with 34.
pub fn get_random_match_parameter(rng: &mut RandomSource) -> (param: MatchParameter)
    ensures
        exists|draw: u32| draw < 100 && param == #[trigger] parameter_of_draw(draw),
{
    let draw: u32 = rng.next_in_range(0, 100);
    match_parameter_for_draw(draw)
}

/// Whether `eq` fits in direction `dir`.
fn direction_is_free(
    width: i32,
    grid: &Vec<String>,
    position: usize,
    match_param: MatchParameter,
    eq: &Equation,
    dir: Direction,
) -> (free: bool)
    requires
        width > i32::MIN,
    ensures
        free == direction_fits(width as int, grid@, position as int, match_param, eq@, dir),
{
    let step: i128 = get_direction_step(dir, width) as i128;
    let origin: i128 = eq.get_start_position(width, dir, match_param, position);
    let ghost token = eq@.token_index(dir, match_param);
    assert(-0x2_0000_0000 <= token * step <= 0x2_0000_0000) by (nonlinear_arith)
        requires
            0 <= token <= 4,
            -0x8000_0000 <= step <= 0x8000_0000,
    ;
    let mut i: i128 = 0;
    while i < 5
        invariant
            0 <= i <= 5,
            step == direction_step(dir, width as int),
            -0x8000_0000 <= step <= 0x8000_0000,
            origin == eq@.start_position(width as int, dir, match_param, position as int),
            -0x2_0000_0000 <= origin <= usize::MAX + 0x2_0000_0000,
            forall|j: int|
                0 <= j < i ==> cell_free(
                    grid@,
                    #[trigger] cell_position(origin as int, step as int, j),
                    position as int,
                ),
        decreases 5 - i,
    {
        assert(-0x2_0000_0000 <= i * step <= 0x2_0000_0000) by (nonlinear_arith)
            requires
                0 <= i <= 4,
                -0x8000_0000 <= step <= 0x8000_0000,
        ;
        let cell: i128 = origin + i * step;
        assert(cell == cell_position(origin as int, step as int, i as int));
        if cell < 0 || cell >= grid.len() as i128 {
            return false;
        }
        let index: usize = cell as usize;
        if !cell_is_blank(grid[index].as_str()) && index != position {
            return false;
        }
        i = i + 1;
    }
    true
}

/// Looks for a direction in which `eq` can cross the number at `position`,
/// with that number in its slot `match_param`.
///
/// The number at `position` belongs to an equation laid out in direction
/// `former_dir`; the two directions at right angles to it are tried in turn.
/// A direction is turned down where one of the five cells lies off the grid
/// or, unless it is the cell at `position`, is not blank. `None` says that
/// neither direction fits.
pub fn is_insertion_possible(
    width: i32,
    grid: &Vec<String>,
    position: usize,
    former_dir: Direction,
    match_param: MatchParameter,
    eq: &Equation,
) -> (found: Option<Direction>)
    requires
        width > i32::MIN,
    ensures
        found == placement(width as int, grid@, position as int, former_dir, match_param, eq@),
{
    let (first, second) = match former_dir {
        Direction::Down | Direction::Up => (Direction::Left, Direction::Right),
        Direction::Right | Direction::Left => (Direction::Down, Direction::Up),
    };
    if direction_is_free(width, grid, position, match_param, eq, first) {
        Some(first)
    } else if direction_is_free(width, grid, position, match_param, eq, second) {
        Some(second)
    } else {
        None
    }
}

/// Whether the five cells from `start` on, `step` apart, lie on a grid of
/// `len` cells.
fn span_is_in_grid(len: usize, start: usize, step: i32) -> (inside: bool)
    ensures
        inside == span_in_grid(len as int, start as int, step as int),
{
    let mut i: i128 = 0;
    while i < 5
        invariant
            0 <= i <= 5,
            forall|j: int|
                0 <= j < i ==> 0 <= #[trigger] cell_position(start as int, step as int, j) < len,
        decreases 5 - i,
    {
        assert(-0x2_0000_0000 <= i * step <= 0x2_0000_0000) by (nonlinear_arith)
            requires
                0 <= i <= 4,
                -0x8000_0000 <= step <= 0x8000_0000,
        ;
        let cell: i128 = start as i128 + i * (step as i128);
        assert(cell == cell_position(start as int, step as int, i as int));
        if cell < 0 || cell >= len as i128 {
            return false;
        }
        i = i + 1;
    }
    true
}

/// Tells whether an equation can be written from `start_position` on in
/// direction `dir`: `InternalBoundsError` says that one of its five cells
/// lies off the grid, which is then too small for it.
pub fn check_bounds(width: i32, grid: &Vec<String>, start_position: usize, dir: Direction) -> (checked:
    Result<(), PuzzleError>)
    requires
        width > i32::MIN,
    ensures
        checked is Ok <==> span_in_grid(
            grid@.len() as int,
            start_position as int,
            direction_step(dir, width as int),
        ),
        checked is Err ==> checked->Err_0 == PuzzleError::InternalBoundsError,
{
    let delta: i32 = get_direction_step(dir, width);
    if span_is_in_grid(grid.len(), start_position, delta) {
        Ok(())
    } else {
        Err(PuzzleError::InternalBoundsError)
    }
}

/// Writes the five tokens of `eq` into the grid, from `start_position` on in
/// direction `dir`, and appends its three numeric cells to `marked`, each
/// with `dir`.
///
/// The five cells have to lie on the grid, which `check_bounds` tells: a
/// grid too small for the equation is the caller's fault, and nothing can
/// be done about it here.
pub fn insert_equation(
    width: i32,
    grid: &mut Vec<String>,
    start_position: usize,
    dir: Direction,
    eq: Equation,
    marked: &mut Vec<(usize, Direction)>,
)
    requires
        width > i32::MIN,
        span_in_grid(
            old(grid)@.len() as int,
            start_position as int,
            direction_step(dir, width as int),
        ),
    ensures
        final(grid)@.len() == old(grid)@.len(),
        texts(final(grid)@) == laid_out(
            texts(old(grid)@),
            start_position as int,
            direction_step(dir, width as int),
            eq@.tokens(dir),
            5,
        ),
        final(marked)@ == old(marked)@ + new_anchors(
            start_position as int,
            direction_step(dir, width as int),
            dir,
        ),
{
    let delta: i32 = get_direction_step(dir, width);
    let representation: Vec<String> = eq.to_array(dir);
    let ghost before = texts(grid@);
    let ghost tokens = eq@.tokens(dir);
    let ghost anchors = marked@;
    assert(tokens.len() == 5);
    assert(texts(representation@).len() == representation@.len());
    let mut idx: usize = 0;
    while idx < 5
        invariant
            0 <= idx <= 5,
            representation@.len() == 5,
            texts(representation@) == tokens,
            grid@.len() == before.len(),
            span_in_grid(before.len() as int, start_position as int, delta as int),
            texts(grid@) == laid_out(before, start_position as int, delta as int, tokens, idx as int),
            idx == 0 ==> marked@ == anchors,
            idx == 1 || idx == 2 ==> marked@ == anchors.push(
                (cell_position(start_position as int, delta as int, 0) as usize, dir),
            ),
            idx == 3 || idx == 4 ==> marked@ == anchors.push(
                (cell_position(start_position as int, delta as int, 0) as usize, dir),
            ).push((cell_position(start_position as int, delta as int, 2) as usize, dir)),
            idx == 5 ==> marked@ == anchors + new_anchors(
                start_position as int,
                delta as int,
                dir,
            ),
        decreases 5 - idx,
    {
        assert(-0x2_0000_0000 <= idx * delta <= 0x2_0000_0000) by (nonlinear_arith)
            requires
                0 <= idx <= 4,
                -0x8000_0000 <= delta <= 0x8000_0000,
        ;
        let cell: i128 = start_position as i128 + (idx as i128) * (delta as i128);
        assert(cell == cell_position(start_position as int, delta as int, idx as int));
        let size: usize = grid.len();
        assert(0 <= cell < size);
        let position: usize = cell as usize;
        proof {
            lemma_laid_out_len(before, start_position as int, delta as int, tokens, idx as int);
        }
        let term: String = representation[idx].clone();
        assert(term@ == tokens[idx as int]) by {
            assert(texts(representation@)[idx as int] == representation@[idx as int]@);
        }
        let ghost previous = texts(grid@);
        grid.set(position, term);
        assert(texts(grid@) =~= previous.update(position as int, tokens[idx as int]));
        assert(texts(grid@) =~= laid_out(
            before,
            start_position as int,
            delta as int,
            tokens,
            idx as int + 1,
        ));
        if idx == 0 || idx == 2 || idx == 4 {
            marked.push((position, dir));
        }
        idx = idx + 1;
    }
    assert(anchors.push((cell_position(start_position as int, delta as int, 0) as usize, dir)).push(
        (cell_position(start_position as int, delta as int, 2) as usize, dir),
    ).push((cell_position(start_position as int, delta as int, 4) as usize, dir)) =~= anchors
        + new_anchors(start_position as int, delta as int, dir));
}

} // verus!
