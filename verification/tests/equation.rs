use crossmath::equation::{
    get_direction_step, match_parameter_for_draw, operation_for_draw, Direction, Equation,
    MatchParameter, Operation, MAX_NUMBER,
};
use crossmath::random::RandomSource;

fn holds(eq: &Equation) -> bool {
    match eq.get_operation() {
        Operation::Plus => eq.get_x() + eq.get_y() == eq.get_result(),
        Operation::Minus => eq.get_x() >= eq.get_y() && eq.get_x() - eq.get_y() == eq.get_result(),
    }
}

#[test]
fn check_formatting() {
    let eq = Equation::new(2, 3, Operation::Plus);
    assert_eq!(eq.to_string(), "2 + 3 = 5", "Addition has failed");

    let eq2 = Equation::new(5, 3, Operation::Minus);
    assert_eq!(eq2.to_string(), "5 - 3 = 2", "Substraction has failed");
}

#[test]
fn check_random_with() {
    let mut rng = RandomSource::from_seed(11);
    let random_match = 2;
    let eq = Equation::random_with(&mut rng, random_match);
    assert!(eq.to_string().contains('2'));
}

#[test]
fn test_representation() {
    let eq = Equation::new(3, 4, Operation::Plus);
    assert_eq!(eq.to_array(Direction::Right), ["3", "+", "4", "=", "7"]);

    let eq = Equation::new(4, 3, Operation::Minus);
    assert_eq!(eq.to_array(Direction::Right), ["4", "-", "3", "=", "1"]);

    let eq = Equation::new(4, 3, Operation::Minus);
    assert_eq!(eq.to_array(Direction::Left), ["3", "-", "4", "=", "1"]);
}

#[test]
fn test_get_start_position_for_addition() {
    let directions = [Direction::Left, Direction::Right, Direction::Down, Direction::Up];
    let width = 100;
    let param_position = 50;
    let eq = Equation::new(3, 4, Operation::Plus);

    let param = MatchParameter::X;
    for dir in directions {
        let pos = eq.get_start_position(width, dir, param, param_position);
        assert_eq!(param_position as i128, pos);
    }

    let param = MatchParameter::Y;
    for dir in directions {
        let delta = get_direction_step(dir, width);
        let pos = eq.get_start_position(width, dir, param, param_position);
        assert_eq!(50 - 2 * delta, pos as i32);
    }

    let param = MatchParameter::Result;
    for dir in directions {
        let delta = get_direction_step(dir, width);
        let pos = eq.get_start_position(width, dir, param, param_position);
        assert_eq!(50 - 4 * delta, pos as i32);
    }
}

#[test]
fn test_get_start_position_for_substraction() {
    let directions = [Direction::Left, Direction::Right, Direction::Down, Direction::Up];
    let width = 100;
    let param_position = 50;
    let eq = Equation::new(4, 3, Operation::Minus);

    let param = MatchParameter::X;
    for dir in [Direction::Right, Direction::Down] {
        let pos = eq.get_start_position(width, dir, param, param_position);
        assert_eq!(param_position as i128, pos);
    }

    for dir in [Direction::Left, Direction::Up] {
        let delta = get_direction_step(dir, width);
        let pos = eq.get_start_position(width, dir, param, param_position);
        assert_eq!(50 - 2 * delta, pos as i32);
    }

    let param = MatchParameter::Y;
    for dir in [Direction::Right, Direction::Down] {
        let delta = get_direction_step(dir, width);
        let pos = eq.get_start_position(width, dir, param, param_position);
        assert_eq!(50 - 2 * delta, pos as i32);
    }

    for dir in [Direction::Left, Direction::Up] {
        let pos = eq.get_start_position(width, dir, param, param_position);
        assert_eq!(param_position as i128, pos);
    }

    let param = MatchParameter::Result;
    for dir in directions {
        let delta = get_direction_step(dir, width);
        let pos = eq.get_start_position(width, dir, param, param_position);
        assert_eq!(50 - 4 * delta, pos as i32);
    }
}

#[test]
fn start_position_before_the_grid_is_negative() {
    let eq = Equation::new(3, 4, Operation::Plus);
    assert_eq!(eq.get_start_position(100, Direction::Down, MatchParameter::Result, 50), -350);
    assert_eq!(eq.get_start_position(100, Direction::Up, MatchParameter::Result, 50), 450);
    assert_eq!(eq.get_start_position(100, Direction::Right, MatchParameter::Y, 1), -1);
}

#[test]
fn direction_steps() {
    assert_eq!(get_direction_step(Direction::Right, 7), 1);
    assert_eq!(get_direction_step(Direction::Left, 7), -1);
    assert_eq!(get_direction_step(Direction::Down, 7), 7);
    assert_eq!(get_direction_step(Direction::Up, 7), -7);
}

#[test]
fn new_swaps_the_operands_of_a_subtraction() {
    let eq = Equation::new(3, 5, Operation::Minus);
    assert_eq!((eq.get_x(), eq.get_y(), eq.get_result()), (5, 3, 2));
    assert_eq!(eq.get_operation(), Operation::Minus);
    let eq = Equation::new(5, 5, Operation::Minus);
    assert_eq!((eq.get_x(), eq.get_y(), eq.get_result()), (5, 5, 0));
    let eq = Equation::new(3, 5, Operation::Plus);
    assert_eq!((eq.get_x(), eq.get_y(), eq.get_result()), (3, 5, 8));
}

#[test]
fn tokens_of_a_mirrored_subtraction() {
    let eq = Equation::new(12, 7, Operation::Minus);
    assert_eq!(eq.to_array(Direction::Up), ["7", "-", "12", "=", "5"]);
    assert_eq!(eq.to_array(Direction::Down), ["12", "-", "7", "=", "5"]);
    let eq = Equation::new(12, 7, Operation::Plus);
    assert_eq!(eq.to_array(Direction::Up), ["12", "+", "7", "=", "19"]);
    assert_eq!(eq.to_array(Direction::Left), ["12", "+", "7", "=", "19"]);
}

#[test]
fn to_string_writes_large_numbers() {
    let eq = Equation::new(4_000_000_000, 294_967_295, Operation::Plus);
    assert_eq!(eq.to_string(), "4000000000 + 294967295 = 4294967295");
    let eq = Equation::new(0, 0, Operation::Plus);
    assert_eq!(eq.to_string(), "0 + 0 = 0");
}

#[test]
fn draws_select_operator_and_slot() {
    assert_eq!(operation_for_draw(0), Operation::Plus);
    assert_eq!(operation_for_draw(1), Operation::Minus);
    assert_eq!(match_parameter_for_draw(0), MatchParameter::X);
    assert_eq!(match_parameter_for_draw(32), MatchParameter::X);
    assert_eq!(match_parameter_for_draw(33), MatchParameter::Y);
    assert_eq!(match_parameter_for_draw(65), MatchParameter::Y);
    assert_eq!(match_parameter_for_draw(66), MatchParameter::Result);
    assert_eq!(match_parameter_for_draw(99), MatchParameter::Result);
}

#[test]
fn number_for_draw_picks_by_weight() {
    let eq = Equation::new(9, 4, Operation::Minus);
    assert_eq!(eq.number_for_draw(0), 9);
    assert_eq!(eq.number_for_draw(32), 9);
    assert_eq!(eq.number_for_draw(33), 4);
    assert_eq!(eq.number_for_draw(65), 4);
    assert_eq!(eq.number_for_draw(66), 5);
    assert_eq!(eq.number_for_draw(99), 5);
}

#[test]
fn from_draws_with_the_value_as_result() {
    let eq = Equation::from_draws(MatchParameter::Result, 10, 30, Operation::Plus, 0);
    assert_eq!(eq.to_string(), "30 - 20 = 10");
    let eq = Equation::from_draws(MatchParameter::Result, 10, 4, Operation::Minus, 0);
    assert_eq!(eq.to_string(), "4 + 6 = 10");
    let eq = Equation::from_draws(MatchParameter::Result, 10, 10, Operation::Minus, 0);
    assert_eq!(eq.to_string(), "10 + 0 = 10");
}

#[test]
fn from_draws_with_the_value_as_x() {
    let eq = Equation::from_draws(MatchParameter::X, 10, 4, Operation::Minus, 0);
    assert_eq!(eq.to_string(), "10 - 4 = 6");
    let eq = Equation::from_draws(MatchParameter::X, 10, 4, Operation::Plus, 0);
    assert_eq!(eq.to_string(), "10 + 4 = 14");
    let eq = Equation::from_draws(MatchParameter::X, 10, 10, Operation::Minus, 0);
    assert_eq!(eq.to_string(), "10 + 10 = 20");
    let eq = Equation::from_draws(MatchParameter::X, 10, 50, Operation::Minus, 0);
    assert_eq!(eq.to_string(), "10 + 50 = 60");
}

#[test]
fn from_draws_with_the_value_as_y() {
    let eq = Equation::from_draws(MatchParameter::Y, 10, 40, Operation::Minus, 0);
    assert_eq!(eq.to_string(), "40 - 10 = 30");
    let eq = Equation::from_draws(MatchParameter::Y, 10, 4, Operation::Plus, 0);
    assert_eq!(eq.to_string(), "4 + 10 = 14");
    let eq = Equation::from_draws(MatchParameter::Y, 10, 4, Operation::Minus, 77);
    assert_eq!(eq.to_string(), "77 - 10 = 67");
    let eq = Equation::from_draws(MatchParameter::Y, 10, 4, Operation::Minus, 10);
    assert_eq!(eq.to_string(), "10 - 10 = 0");
    let eq = Equation::from_draws(MatchParameter::Y, 150, 4, Operation::Minus, 0);
    assert_eq!(eq.to_string(), "4 + 150 = 154");
}

#[test]
fn from_choice_places_the_value() {
    let eq = Equation::from_choice(7, 80, 30, Operation::Plus);
    assert_eq!(eq.to_string(), "30 - 23 = 7");
    let eq = Equation::from_choice(7, 10, 30, Operation::Minus);
    assert_eq!(eq.to_string(), "30 - 7 = 23");
    let eq = Equation::from_choice(7, 40, 30, Operation::Plus);
    assert_eq!(eq.to_string(), "30 + 7 = 37");
}

#[test]
fn random_equations_hold() {
    let mut rng = RandomSource::from_seed(1);
    for _ in 0..500 {
        let eq = Equation::random(&mut rng);
        assert!(holds(&eq));
        assert!(eq.get_y() >= 1 && eq.get_x() < MAX_NUMBER && eq.get_y() < MAX_NUMBER);
    }
}

#[test]
fn generated_equations_hold_and_keep_the_value() {
    let mut rng = RandomSource::from_seed(2);
    for value in [0u32, 1, 2, 50, 99, 100, 101, 198, 5000] {
        for _ in 0..200 {
            let eq = Equation::generate(&mut rng, MatchParameter::X, value);
            assert!(holds(&eq));
            assert_eq!(eq.get_x(), value);
            let eq = Equation::generate(&mut rng, MatchParameter::Y, value);
            assert!(holds(&eq));
            assert_eq!(eq.get_y(), value);
            let eq = Equation::generate(&mut rng, MatchParameter::Result, value);
            assert!(holds(&eq));
            assert_eq!(eq.get_result(), value);
        }
    }
}

#[test]
fn random_with_holds_the_value() {
    let mut rng = RandomSource::from_seed(3);
    for _ in 0..300 {
        let eq = Equation::random_with(&mut rng, 17);
        assert!(holds(&eq));
        assert!(eq.get_x() == 17 || eq.get_y() == 17 || eq.get_result() == 17);
    }
}

#[test]
fn get_random_number_is_one_of_the_three() {
    let mut rng = RandomSource::from_seed(4);
    let eq = Equation::new(31, 12, Operation::Plus);
    let mut seen = [false; 3];
    for _ in 0..300 {
        let n = eq.get_random_number(&mut rng);
        assert!(n == 31 || n == 12 || n == 43);
        seen[if n == 31 { 0 } else if n == 12 { 1 } else { 2 }] = true;
    }
    assert_eq!(seen, [true, true, true]);
}

#[test]
fn draws_stay_in_range_and_follow_the_seed() {
    let mut a = RandomSource::from_seed(99);
    let mut b = RandomSource::from_seed(99);
    let mut differs = false;
    let mut last = 0;
    for i in 0..200 {
        let x = a.next_in_range(5, 9);
        assert!((5..9).contains(&x));
        assert_eq!(x, b.next_in_range(5, 9));
        if i > 0 && x != last {
            differs = true;
        }
        last = x;
    }
    assert!(differs);
    assert_eq!(a.next_in_range(41, 42), 41);
}
