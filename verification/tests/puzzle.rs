use crossmath::decimal::parse_number;
use crossmath::equation::{Equation, MatchParameter, Operation};
use crossmath::error::PuzzleError;
use crossmath::builder::{PuzzleBuilder, MAX_EQUATION_COUNT};
use crossmath::puzzle::{Crossmath, ATTEMPTS_PER_EQUATION};
use crossmath::random::RandomSource;

const PLUS: Operation = Operation::Plus;

fn cells_of(puzzle: &Crossmath) -> Vec<Vec<String>> {
    (0..puzzle.height())
        .map(|y| (0..puzzle.width()).map(|x| puzzle.cell_text(x, y)).collect())
        .collect()
}

/// Whether five cells, in the order in which they were laid out, spell an equation that
/// holds. A subtraction laid out leftwards or upwards has its operands the other way round.
fn spelled(line: [&str; 5], backwards: bool) -> bool {
    let (Some(a), Some(b), Some(c)) =
        (parse_number(line[0]), parse_number(line[2]), parse_number(line[4]))
    else {
        return false;
    };
    if line[3] != "=" {
        return false;
    }
    match line[1] {
        "+" => a as u64 + b as u64 == c as u64,
        "-" if backwards => b >= a && b - a == c,
        "-" => a >= b && a - b == c,
        _ => false,
    }
}

/// The runs of five cells, along a row or a column and in either direction, that spell an
/// equation that holds: each as the three cells of its numbers.
fn equations_of(cells: &[Vec<String>]) -> Vec<[(usize, usize); 3]> {
    let height = cells.len() as i64;
    let width = cells[0].len() as i64;
    let mut found = Vec::new();
    for y in 0..height {
        for x in 0..width {
            for (dx, dy) in [(1i64, 0i64), (-1, 0), (0, 1), (0, -1)] {
                let (ex, ey) = (x + 4 * dx, y + 4 * dy);
                if ex < 0 || ex >= width || ey < 0 || ey >= height {
                    continue;
                }
                let at = |i: i64| ((x + i * dx) as usize, (y + i * dy) as usize);
                let text = |i: i64| cells[at(i).1][at(i).0].as_str();
                if spelled([text(0), text(1), text(2), text(3), text(4)], dx + dy < 0) {
                    found.push([at(0), at(2), at(4)]);
                }
            }
        }
    }
    found
}

fn connected(equations: &[[(usize, usize); 3]]) -> bool {
    let mut reached = vec![false; equations.len()];
    reached[0] = true;
    loop {
        let mut grew = false;
        for i in 0..equations.len() {
            if reached[i] {
                continue;
            }
            let touches = (0..equations.len()).any(|j| {
                reached[j] && equations[i].iter().any(|cell| equations[j].contains(cell))
            });
            if touches {
                reached[i] = true;
                grew = true;
            }
        }
        if !grew {
            return reached.iter().all(|r| *r);
        }
    }
}

fn border_holds_numbers(cells: &[Vec<String>]) -> bool {
    let number = |c: &String| parse_number(c).is_some();
    let last = cells[0].len() - 1;
    cells[0].iter().any(number)
        && cells[cells.len() - 1].iter().any(number)
        && cells.iter().any(|row| number(&row[0]))
        && cells.iter().any(|row| number(&row[last]))
}

#[test]
#[should_panic]
fn generation_safety() {
    let mut rng = RandomSource::from_seed(0);
    Crossmath::new(0, &mut rng).unwrap();
}

#[test]
fn generation_works() {
    let mut rng = RandomSource::from_seed(0);
    let entity = Crossmath::new(2, &mut rng).unwrap();
    entity.render();
}

#[test]
fn zero_equations_is_an_invalid_argument() {
    let mut rng = RandomSource::from_seed(8);
    assert!(matches!(Crossmath::new(0, &mut rng), Err(PuzzleError::InvalidArgument)));
    let first = Equation::new(2, 3, Operation::Plus);
    assert!(matches!(PuzzleBuilder::start(0, first), Err(PuzzleError::InvalidArgument)));
}

#[test]
fn without_attempts_only_the_first_equation_is_laid() {
    let mut rng = RandomSource::from_seed(8);
    assert!(matches!(
        Crossmath::with_attempts(2, &mut rng, 0),
        Err(PuzzleError::AttemptsExhausted)
    ));
    assert!(matches!(
        Crossmath::with_attempts(0, &mut rng, 0),
        Err(PuzzleError::InvalidArgument)
    ));
    let puzzle = Crossmath::with_attempts(1, &mut rng, 0).unwrap();
    assert_eq!((puzzle.width(), puzzle.height()), (5, 1));
    let puzzle = Crossmath::with_attempts(3, &mut rng, 1).unwrap();
    assert_eq!(equations_of(&cells_of(&puzzle)).len(), 3);
    let mut builder = PuzzleBuilder::start(2, Equation::new(2, 3, PLUS)).unwrap();
    assert!(!builder.grow(&mut rng, 0));
    assert_eq!(builder.placed_count(), 1);
}

#[test]
fn the_second_equation_is_laid_at_the_first_attempt() {
    for seed in 0..300 {
        let mut rng = RandomSource::from_seed(seed);
        let puzzle = Crossmath::with_attempts(2, &mut rng, 1).unwrap();
        let cells = cells_of(&puzzle);
        // The first equation runs along a row, the second downwards across it.
        assert_eq!((puzzle.width(), puzzle.height()), (5, 5));
        assert_eq!(equations_of(&cells).len(), 2);
        let mut builder = PuzzleBuilder::start(5, Equation::random(&mut rng)).unwrap();
        assert!(builder.attempt(&mut rng));
    }
}

#[test]
fn the_third_equation_is_laid_at_the_first_attempt() {
    for seed in 0..300 {
        let mut rng = RandomSource::from_seed(seed);
        let puzzle = Crossmath::with_attempts(3, &mut rng, 1).unwrap();
        assert_eq!(equations_of(&cells_of(&puzzle)).len(), 3);
        let mut builder = PuzzleBuilder::start(9, Equation::random(&mut rng)).unwrap();
        assert!(builder.grow(&mut rng, 1));
        assert!(builder.grow(&mut rng, 1));
        assert_eq!(builder.placed_count(), 3);
    }
}

#[test]
fn limits() {
    assert_eq!(MAX_EQUATION_COUNT, 6553);
    assert_eq!(ATTEMPTS_PER_EQUATION, 1000);
}

#[test]
fn one_equation_is_one_row() {
    for seed in 0..50 {
        let mut rng = RandomSource::from_seed(seed);
        let puzzle = Crossmath::new(1, &mut rng).unwrap();
        assert_eq!((puzzle.width(), puzzle.height()), (5, 1));
        let cells = cells_of(&puzzle);
        let row: Vec<&str> = cells[0].iter().map(|c| c.as_str()).collect();
        assert!(spelled([row[0], row[1], row[2], row[3], row[4]], false));
        assert_eq!(puzzle.render(), row.concat());
    }
}

#[test]
fn two_equations_share_one_number() {
    for seed in 0..200 {
        let mut rng = RandomSource::from_seed(seed);
        let puzzle = Crossmath::new(2, &mut rng).unwrap();
        assert!(!puzzle.render().is_empty());
        let cells = cells_of(&puzzle);
        let equations = equations_of(&cells);
        assert_eq!(equations.len(), 2, "seed {seed}:\n{}", puzzle.render());
        let shared = equations[0].iter().filter(|cell| equations[1].contains(cell)).count();
        assert_eq!(shared, 1);
        assert!(border_holds_numbers(&cells));
        assert_eq!((puzzle.width().max(puzzle.height())), 5);
    }
}

#[test]
fn puzzles_show_their_equations_connected_and_tight() {
    for seed in 0..40 {
        for count in [3u32, 4, 7, 12] {
            let mut rng = RandomSource::from_seed(seed);
            let puzzle = Crossmath::new(count, &mut rng).unwrap();
            let cells = cells_of(&puzzle);
            assert_eq!(cells.len(), puzzle.height() as usize);
            let equations = equations_of(&cells);
            assert!(equations.len() >= count as usize, "seed {seed}:\n{}", puzzle.render());
            assert!(connected(&equations));
            assert!(border_holds_numbers(&cells));
            let filled = cells.iter().flatten().filter(|c| *c != " ").count();
            assert_eq!(filled, 5 * count as usize - (count as usize - 1));
        }
    }
}

#[test]
fn the_same_seed_builds_the_same_puzzle() {
    let mut a = RandomSource::from_seed(77);
    let mut b = RandomSource::from_seed(77);
    let first = Crossmath::new(6, &mut a).unwrap();
    let second = Crossmath::new(6, &mut b).unwrap();
    assert_eq!(first.render(), second.render());
    assert_eq!((first.width(), first.height()), (second.width(), second.height()));
    let renders: Vec<String> = (0..20)
        .map(|seed| Crossmath::new(6, &mut RandomSource::from_seed(seed)).unwrap().render())
        .collect();
    assert!(renders.iter().any(|r| *r != renders[0]));
}

#[test]
fn render_joins_cells_and_separates_rows() {
    let first = Equation::new(2, 3, Operation::Plus);
    let mut builder = PuzzleBuilder::start(2, first).unwrap();
    assert_eq!(builder.placed_count(), 1);
    assert_eq!(builder.target_count(), 2);
    assert_eq!(builder.anchor_count(), 3);
    assert_eq!(builder.anchor_value(0), Some(2));
    assert_eq!(builder.anchor_value(1), Some(3));
    assert_eq!(builder.anchor_value(2), Some(5));
    assert_eq!(builder.anchor_value(3), None);
    // Across a rightward equation, downwards comes first.
    assert!(builder.try_place(0, MatchParameter::X, Equation::new(2, 17, PLUS)));
    assert_eq!(builder.placed_count(), 2);
    let puzzle = builder.finish();
    assert_eq!((puzzle.width(), puzzle.height()), (5, 5));
    assert_eq!(puzzle.render(), "2+3=5\n+    \n17    \n=    \n19    ");
    assert_eq!(puzzle.cell_text(0, 2), "17");
    assert_eq!(puzzle.cell_text(4, 0), "5");
    assert_eq!(puzzle.cell_text(4, 4), " ");
    assert_eq!(puzzle.get_idx(0, 0), 0);
    assert_eq!(puzzle.get_idx(4, 0), 4);
    assert_eq!(puzzle.get_idx(0, 1), 5);
    assert_eq!(puzzle.get_idx(3, 4), 23);
}


#[test]
fn crossing_at_the_result_reaches_upwards_and_the_grid_is_cut_around_it() {
    let mut builder = PuzzleBuilder::start(3, Equation::new(9, 4, Operation::Minus)).unwrap();
    // 9 - 4 = 5; the anchor at index 1 holds 4. With 4 as the result of 1 + 3 = 4 laid
    // downwards, the equation starts four rows above.
    assert!(builder.try_place(1, MatchParameter::Result, Equation::new(1, 3, PLUS)));
    // The anchor crossed is gone, the two others of the first equation are left, then the
    // numbers 1 and 3 of the second.
    assert_eq!(builder.anchor_count(), 4);
    assert_eq!(
        (0..4).map(|i| builder.anchor_value(i)).collect::<Vec<_>>(),
        [Some(9), Some(5), Some(1), Some(3)]
    );
    let puzzle = builder.finish();
    assert_eq!((puzzle.width(), puzzle.height()), (5, 5));
    assert_eq!(puzzle.render(), "  1  \n  +  \n  3  \n  =  \n9-4=5");
}

#[test]
fn try_place_turns_down_what_does_not_fit() {
    let first = Equation::new(2, 3, PLUS);
    let mut builder = PuzzleBuilder::start(3, first).unwrap();
    // No such anchor.
    assert!(!builder.try_place(3, MatchParameter::X, Equation::new(2, 1, PLUS)));
    // The anchor holds 2, the equation has 4 in slot X.
    assert!(!builder.try_place(0, MatchParameter::X, Equation::new(4, 2, PLUS)));
    assert!(!builder.try_place(0, MatchParameter::Result, Equation::new(2, 1, PLUS)));
    assert_eq!(builder.placed_count(), 1);
    assert_eq!(builder.anchor_count(), 3);
    // 2 as y of 7 - 2 = 5, downwards: the equation starts two rows above the anchor.
    assert!(builder.try_place(0, MatchParameter::Y, Equation::new(7, 2, Operation::Minus)));
    assert_eq!(builder.anchor_count(), 4);
    // The new anchors are crossed leftwards or rightwards. Leftwards comes first, and from
    // the 7 the cells to the left are blank.
    assert_eq!(builder.anchor_value(2), Some(7));
    assert!(builder.try_place(2, MatchParameter::X, Equation::new(7, 1, PLUS)));
    assert_eq!(builder.placed_count(), 3);
    // The puzzle is complete.
    assert_eq!(builder.anchor_value(0), Some(3));
    assert!(!builder.try_place(0, MatchParameter::X, Equation::new(3, 1, PLUS)));
    let puzzle = builder.finish();
    assert_eq!(puzzle.render(), "8=1+7    \n    -    \n    2+3=5\n    =    \n    5    ");
}

#[test]
fn a_blocked_direction_gives_way_to_the_other() {
    let mut builder = PuzzleBuilder::start(4, Equation::new(1, 2, PLUS)).unwrap();
    // 1 + 2 = 3 at the centre. Down from the 1 and down from the 2, side by side in
    // neighbouring number columns (two apart): both fit.
    assert!(builder.try_place(0, MatchParameter::X, Equation::new(1, 1, PLUS)));
    assert!(builder.try_place(0, MatchParameter::X, Equation::new(2, 2, PLUS)));
    // Anchors now: 3 (first), 1 and 2 of the second equation, 2 and 4 of the third.
    assert_eq!(
        (0..5).map(|i| builder.anchor_value(i)).collect::<Vec<_>>(),
        [Some(3), Some(1), Some(2), Some(2), Some(4)]
    );
    // Across the middle 1 of the second equation, with that 1 as the result. Leftwards comes
    // first: the equation would start four cells to the right and run through the 2 of the
    // third equation. Rightwards it starts four cells to the left, where all is blank.
    assert!(builder.try_place(1, MatchParameter::Result, Equation::new(0, 1, PLUS)));
    let puzzle = builder.finish();
    assert_eq!(
        puzzle.render(),
        "    1+2=3\n    + +  \n0+1=1 2  \n    = =  \n    2 4  "
    );
}

#[test]
fn a_builder_can_be_finished_early() {
    let builder = PuzzleBuilder::start(4, Equation::new(40, 2, Operation::Minus)).unwrap();
    let puzzle = builder.finish();
    assert_eq!((puzzle.width(), puzzle.height()), (5, 1));
    assert_eq!(puzzle.render(), "40-2=38");
}

#[test]
fn grow_lays_one_equation() {
    let mut rng = RandomSource::from_seed(21);
    let mut builder = PuzzleBuilder::start(5, Equation::new(20, 30, PLUS)).unwrap();
    for placed in 2..=5 {
        assert!(builder.grow(&mut rng, 50));
        assert_eq!(builder.placed_count(), placed);
        // Three anchors come with each equation; the two at the cell crossed go.
        assert_eq!(builder.anchor_count(), 2 + placed as usize);
    }
    // Complete: no attempt is accepted any more.
    assert!(!builder.grow(&mut rng, 50));
    assert!(!builder.attempt(&mut rng));
    assert_eq!(builder.placed_count(), 5);
    let cells = cells_of(&builder.finish());
    assert!(equations_of(&cells).len() >= 5);
}
