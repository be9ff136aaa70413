use crossmath::equation::{Direction, Equation, MatchParameter, Operation};
use crossmath::error::PuzzleError;
use crossmath::insertion::{
    check_bounds, get_random_match_parameter, insert_equation, is_insertion_possible,
};
use crossmath::random::RandomSource;

fn blank_grid(len: usize) -> Vec<String> {
    (0..len).map(|_| " ".to_string()).collect()
}

#[test]
fn test_is_insertion_possible() {
    let eq = Equation::new(3, 4, Operation::Plus);
    let grid: Vec<String> = (0..100).map(|_| " ".to_string()).collect();
    match is_insertion_possible(100, &grid, 50, Direction::Up, MatchParameter::X, &eq) {
        Some(_) => {}
        None => assert!(false, "The insertion is not working"),
    }
}

#[test]
fn perpendicular_directions_are_tried_in_order() {
    let eq = Equation::new(3, 4, Operation::Plus);
    let grid = blank_grid(100);
    // Across a vertical equation: Left first. From cell 50 leftwards all is blank.
    assert_eq!(
        is_insertion_possible(10, &grid, 50, Direction::Up, MatchParameter::X, &eq),
        Some(Direction::Left)
    );
    // Left leaves the grid at cell 2, Right fits.
    assert_eq!(
        is_insertion_possible(10, &grid, 2, Direction::Down, MatchParameter::X, &eq),
        Some(Direction::Right)
    );
    // Across a horizontal equation: Down first.
    assert_eq!(
        is_insertion_possible(10, &grid, 55, Direction::Right, MatchParameter::X, &eq),
        Some(Direction::Down)
    );
    // Down leaves the grid (55 + 40 = 95 fits, 65 + 40 does not), Up fits.
    assert_eq!(
        is_insertion_possible(10, &grid, 65, Direction::Left, MatchParameter::X, &eq),
        Some(Direction::Up)
    );
}

#[test]
fn no_direction_on_a_small_grid() {
    let eq = Equation::new(3, 4, Operation::Plus);
    let grid = blank_grid(4);
    assert_eq!(is_insertion_possible(2, &grid, 1, Direction::Up, MatchParameter::X, &eq), None);
    assert_eq!(is_insertion_possible(2, &grid, 1, Direction::Left, MatchParameter::X, &eq), None);
    // The anchor itself lies off the grid.
    let grid = blank_grid(100);
    assert_eq!(is_insertion_possible(10, &grid, 100, Direction::Up, MatchParameter::X, &eq), None);
    // The last cell is on the grid, the one after it is not.
    assert_eq!(
        is_insertion_possible(10, &grid, 95, Direction::Up, MatchParameter::X, &eq),
        Some(Direction::Left)
    );
    assert_eq!(
        is_insertion_possible(10, &grid, 99, Direction::Up, MatchParameter::Result, &eq),
        Some(Direction::Right)
    );
}

#[test]
fn occupied_cell_turns_a_direction_down_but_not_the_other() {
    let eq = Equation::new(3, 4, Operation::Plus);
    let mut grid = blank_grid(100);
    grid[50] = "3".to_string();
    // The anchor cell itself may be occupied.
    assert_eq!(
        is_insertion_possible(10, &grid, 50, Direction::Up, MatchParameter::X, &eq),
        Some(Direction::Left)
    );
    // A token in the way to the left: Right is taken.
    grid[48] = "9".to_string();
    assert_eq!(
        is_insertion_possible(10, &grid, 50, Direction::Up, MatchParameter::X, &eq),
        Some(Direction::Right)
    );
    // A token in the way on both sides: no placement.
    grid[54] = "=".to_string();
    assert_eq!(is_insertion_possible(10, &grid, 50, Direction::Up, MatchParameter::X, &eq), None);
    // With the anchor as the result, Right covers cells 46..=50 and meets the 9.
    assert_eq!(
        is_insertion_possible(10, &grid, 50, Direction::Down, MatchParameter::Result, &eq),
        None
    );
    // With the anchor as y, Right covers cells 48..=52: the 9 again; Left covers 52..=48.
    assert_eq!(is_insertion_possible(10, &grid, 50, Direction::Down, MatchParameter::Y, &eq), None);
}

#[test]
fn mirrored_subtraction_starts_elsewhere() {
    let eq = Equation::new(9, 4, Operation::Minus);
    let mut grid = blank_grid(100);
    grid[47] = "x".to_string();
    // Left with x on the anchor: x is the third token, so the cells are 52..=48.
    assert_eq!(
        is_insertion_possible(10, &grid, 50, Direction::Up, MatchParameter::X, &eq),
        Some(Direction::Left)
    );
    // Left with y on the anchor: y is the first token, the cells are 50..=46 and meet cell 47.
    assert_eq!(
        is_insertion_possible(10, &grid, 50, Direction::Up, MatchParameter::Y, &eq),
        Some(Direction::Right)
    );
}

#[test]
fn insert_writes_tokens_and_marks_numbers() {
    let mut grid = blank_grid(30);
    let mut marked = vec![(7usize, Direction::Up)];
    let eq = Equation::new(12, 5, Operation::Plus);
    assert_eq!(check_bounds(10, &grid, 3, Direction::Right), Ok(()));
    insert_equation(10, &mut grid, 3, Direction::Right, eq, &mut marked);
    assert_eq!(grid[3..8], ["12", "+", "5", "=", "17"]);
    for (i, cell) in grid.iter().enumerate() {
        if !(3..8).contains(&i) {
            assert_eq!(cell, " ");
        }
    }
    assert_eq!(
        marked,
        [
            (7, Direction::Up),
            (3, Direction::Right),
            (5, Direction::Right),
            (7, Direction::Right)
        ]
    );
}

#[test]
fn insert_downwards_and_upwards() {
    let mut grid = blank_grid(25);
    let mut marked = Vec::new();
    let eq = Equation::new(9, 4, Operation::Minus);
    assert_eq!(check_bounds(5, &grid, 1, Direction::Down), Ok(()));
    insert_equation(5, &mut grid, 1, Direction::Down, eq, &mut marked);
    assert_eq!(
        [&grid[1], &grid[6], &grid[11], &grid[16], &grid[21]],
        ["9", "-", "4", "=", "5"]
    );
    assert_eq!(marked, [(1, Direction::Down), (11, Direction::Down), (21, Direction::Down)]);

    let mut marked = Vec::new();
    assert_eq!(check_bounds(5, &grid, 23, Direction::Up), Ok(()));
    insert_equation(5, &mut grid, 23, Direction::Up, eq, &mut marked);
    // Upwards the subtraction is written with y first, so that it reads downwards.
    assert_eq!(
        [&grid[3], &grid[8], &grid[13], &grid[18], &grid[23]],
        ["5", "=", "9", "-", "4"]
    );
    assert_eq!(marked, [(23, Direction::Up), (13, Direction::Up), (3, Direction::Up)]);
}

#[test]
fn a_start_off_the_grid_is_an_internal_bounds_error() {
    let mut grid = blank_grid(30);
    let off = Err(PuzzleError::InternalBoundsError);
    assert_eq!(check_bounds(10, &grid, 26, Direction::Right), off);
    assert_eq!(check_bounds(10, &grid, 3, Direction::Left), off);
    assert_eq!(check_bounds(10, &grid, 5, Direction::Down), off);
    assert_eq!(check_bounds(10, &grid, 30, Direction::Up), off);
    // On 20 cells the third token from cell 18 rightwards would go to cell 20.
    assert_eq!(check_bounds(10, &blank_grid(20), 18, Direction::Right), off);
    assert_eq!(check_bounds(10, &grid, 4, Direction::Left), Ok(()));
    // The last cell of the grid can be written.
    assert_eq!(check_bounds(10, &grid, 25, Direction::Right), Ok(()));
    let mut marked = Vec::new();
    let eq = Equation::new(12, 5, Operation::Plus);
    insert_equation(10, &mut grid, 25, Direction::Right, eq, &mut marked);
    assert_eq!(grid[29], "17");
}

#[test]
fn with_no_step_the_last_token_stays() {
    // On a grid without width a vertical equation has all its tokens in one cell.
    let mut grid = blank_grid(3);
    let mut marked = Vec::new();
    let eq = Equation::new(12, 5, Operation::Plus);
    assert_eq!(
        is_insertion_possible(0, &grid, 1, Direction::Left, MatchParameter::Y, &eq),
        Some(Direction::Down)
    );
    assert_eq!(check_bounds(0, &grid, 1, Direction::Down), Ok(()));
    insert_equation(0, &mut grid, 1, Direction::Down, eq, &mut marked);
    assert_eq!(grid, [" ", "17", " "]);
    assert_eq!(marked, [(1, Direction::Down), (1, Direction::Down), (1, Direction::Down)]);
}

#[test]
fn written_tokens_are_found_again_from_each_number() {
    let width = 20;
    for operator in [Operation::Plus, Operation::Minus] {
        for dir in [Direction::Up, Direction::Down, Direction::Left, Direction::Right] {
            let eq = Equation::new(31, 12, operator);
            let mut grid = blank_grid(400);
            let mut marked = Vec::new();
            let start = 210usize;
            assert_eq!(check_bounds(width, &grid, start, dir), Ok(()));
            insert_equation(width, &mut grid, start, dir, eq, &mut marked);
            let step = crossmath::equation::get_direction_step(dir, width) as i128;
            let read: Vec<String> =
                (0..5).map(|i| grid[(start as i128 + i * step) as usize].clone()).collect();
            assert_eq!(read, eq.to_array(dir));
            for (param, number) in [
                (MatchParameter::X, eq.get_x()),
                (MatchParameter::Y, eq.get_y()),
                (MatchParameter::Result, eq.get_result()),
            ] {
                let cell = grid.iter().position(|c| *c == number.to_string()).unwrap();
                assert_eq!(eq.get_start_position(width, dir, param, cell), start as i128);
            }
        }
    }
}

#[test]
fn random_match_parameter_gives_each_slot() {
    let mut rng = RandomSource::from_seed(5);
    let mut seen = [false; 3];
    for _ in 0..300 {
        match get_random_match_parameter(&mut rng) {
            MatchParameter::X => seen[0] = true,
            MatchParameter::Y => seen[1] = true,
            MatchParameter::Result => seen[2] = true,
        }
    }
    assert_eq!(seen, [true, true, true]);
}
