//! The equation model: one arithmetic fact `x + y = result` or
//! `x - y = result`, its five tokens, and where its first token stands when
//! one of its numbers is known to sit in a given cell.

use crate::cell::texts;
use crate::decimal::{decimal, decimal_string};
use crate::random::RandomSource;
use vstd::prelude::*;
use vstd::string::*;

verus! {

/// Operands are drawn from `1..MAX_NUMBER`.
pub const MAX_NUMBER: u32 = 100;

/// The operator of an equation.
#[derive(Clone, Copy, Debug, PartialEq, Eq, Structural)]
pub enum Operation {
    Plus,
    Minus,
}

/// The slot of a new equation that must hold a number already on the grid.
#[derive(Clone, Copy, Debug, PartialEq, Eq, Structural)]
pub enum MatchParameter {
    X,
    Y,
    Result,
}

/// The direction in which the five tokens of an equation follow each other
/// on the grid.
#[derive(Clone, Copy, Debug, PartialEq, Eq, Structural)]
pub enum Direction {
    Up,
    Down,
    Left,
    Right,
}

/// `x + y = result` or `x - y = result`.
#[derive(Clone, Copy, Debug, PartialEq, Eq)]
pub struct Equation {
    x: u32,
    y: u32,
    operator: Operation,
    result: u32,
}

/// An equation as a mathematical value.
pub struct EquationView {
    pub x: nat,
    pub y: nat,
    pub operator: Operation,
    pub result: nat,
}

/// The distance between two neighbouring cells of an equation laid out in
/// direction `dir`, on a grid stored row by row with `width` cells a row.
pub open spec fn direction_step(dir: Direction, width: int) -> int {
    match dir {
        Direction::Down => width,
        Direction::Up => -width,
        Direction::Left => -1,
        Direction::Right => 1,
    }
}

/// The token of an operator.
pub open spec fn operator_symbol(operator: Operation) -> Seq<char> {
    match operator {
        Operation::Plus => seq!['+'],
        Operation::Minus => seq!['-'],
    }
}

/// The token `=`.
pub open spec fn equals_symbol() -> Seq<char> {
    seq!['=']
}

/// The equation that two numbers and an operator stand for: a subtraction
/// has its operands swapped where the first is the smaller one.
pub open spec fn canonical(x: nat, y: nat, operator: Operation) -> EquationView {
    match operator {
        Operation::Plus => EquationView { x, y, operator, result: x + y },
        Operation::Minus => if x < y {
            EquationView { x: y, y: x, operator, result: (y - x) as nat }
        } else {
            EquationView { x, y, operator, result: (x - y) as nat }
        },
    }
}

/// The operator that a draw from `0..2` selects.
pub open spec fn operation_of_draw(draw: u32) -> Operation {
    if draw == 0 {
        Operation::Plus
    } else {
        Operation::Minus
    }
}

/// The slot that a draw from `0..100` selects: `X` and `Y` with 33 draws
/// each, `Result` with the remaining 34.
pub open spec fn parameter_of_draw(draw: u32) -> MatchParameter {
    if draw < 33 {
        MatchParameter::X
    } else if draw < 66 {
        MatchParameter::Y
    } else {
        MatchParameter::Result
    }
}

/// The equation with `value` in slot `param` that the draws select.
///
/// `operand` is the draw for the other operand (for the first operand where
/// `param` is `Result`), `operator` the drawn operator, and `resample` the
/// second draw for `x`, which counts only where `value` is in slot `Y`, the
/// operator is `Minus` and `operand` is too small to subtract `value` from.
/// Where `resample` is too small as well, the equation is an addition.
pub open spec fn constrained(
    param: MatchParameter,
    value: nat,
    operand: nat,
    operator: Operation,
    resample: nat,
) -> EquationView {
    match param {
        MatchParameter::Result => if operand > value {
            EquationView {
                x: operand,
                y: (operand - value) as nat,
                operator: Operation::Minus,
                result: value,
            }
        } else {
            EquationView {
                x: operand,
                y: (value - operand) as nat,
                operator: Operation::Plus,
                result: value,
            }
        },
        MatchParameter::X => if value > operand {
            canonical(value, operand, operator)
        } else {
            canonical(value, operand, Operation::Plus)
        },
        MatchParameter::Y => if operator == Operation::Minus && operand < value {
            if value <= resample {
                canonical(resample, value, Operation::Minus)
            } else {
                canonical(operand, value, Operation::Plus)
            }
        } else {
            canonical(operand, value, operator)
        },
    }
}

/// Whether `eq` is one of the equations with `value` in slot `param` that
/// can be generated: the one that some draws select, the operands drawn
/// from `1..MAX_NUMBER`.
pub open spec fn generated(param: MatchParameter, value: nat, eq: EquationView) -> bool {
    exists|operand: nat, operator: Operation, resample: nat|
        1 <= operand < MAX_NUMBER && resample < MAX_NUMBER && eq == #[trigger] constrained(
            param,
            value,
            operand,
            operator,
            resample,
        )
}

/// The equation that the draws select has `value` in slot `param`, and it
/// holds.
pub proof fn lemma_constrained_slot(
    param: MatchParameter,
    value: nat,
    operand: nat,
    operator: Operation,
    resample: nat,
)
    ensures
        constrained(param, value, operand, operator, resample).slot(param) == value,
        constrained(param, value, operand, operator, resample).wf(),
{
}

/// None of the numbers of an equation that can be generated with `value`
/// in one of its slots is larger than `value + MAX_NUMBER`.
pub proof fn lemma_generated_bound(param: MatchParameter, value: nat, eq: EquationView)
    requires
        generated(param, value, eq),
    ensures
        eq.x <= value + MAX_NUMBER,
        eq.y <= value + MAX_NUMBER,
        eq.result <= value + MAX_NUMBER,
        eq.slot(param) == value,
        eq.wf(),
{
    let (operand, operator, resample) = choose|operand: nat, operator: Operation, resample: nat|
        1 <= operand < MAX_NUMBER && resample < MAX_NUMBER && eq == #[trigger] constrained(
            param,
            value,
            operand,
            operator,
            resample,
        );
    lemma_constrained_slot(param, value, operand, operator, resample);
}

/// The equation holding `value` that the draws select: `choice`, a draw from
/// `0..100`, picks the slot as `parameter_of_draw` does. In slot `X` or `Y`
/// the value may change sides where the equation is a subtraction.
pub open spec fn containing(value: nat, choice: u32, operand: nat, operator: Operation)
    -> EquationView {
    match parameter_of_draw(choice) {
        MatchParameter::Result => constrained(
            MatchParameter::Result,
            value,
            operand,
            operator,
            operand,
        ),
        MatchParameter::X => canonical(value, operand, operator),
        MatchParameter::Y => canonical(operand, value, operator),
    }
}

impl EquationView {
    /// The invariant of an equation.
    pub open spec fn wf(self) -> bool {
        match self.operator {
            Operation::Plus => self.x + self.y == self.result,
            Operation::Minus => self.x >= self.y && self.x - self.y == self.result,
        }
    }

    /// The number in a slot.
    pub open spec fn slot(self, param: MatchParameter) -> nat {
        match param {
            MatchParameter::X => self.x,
            MatchParameter::Y => self.y,
            MatchParameter::Result => self.result,
        }
    }

    /// Whether the operands change places in the token sequence: a
    /// subtraction laid out leftwards or upwards is written with `y` first,
    /// so that `x` stands before `y` where the grid is read from left to
    /// right or from top to bottom.
    pub open spec fn mirrored(self, dir: Direction) -> bool {
        self.operator == Operation::Minus && (dir == Direction::Left || dir == Direction::Up)
    }

    /// The five tokens in the order in which they are laid out.
    pub open spec fn tokens(self, dir: Direction) -> Seq<Seq<char>> {
        if self.mirrored(dir) {
            seq![
                decimal(self.y),
                operator_symbol(self.operator),
                decimal(self.x),
                equals_symbol(),
                decimal(self.result),
            ]
        } else {
            seq![
                decimal(self.x),
                operator_symbol(self.operator),
                decimal(self.y),
                equals_symbol(),
                decimal(self.result),
            ]
        }
    }

    /// The equation on one line: `x`, the operator, `y`, `=` and the result,
    /// with a space between each two.
    pub open spec fn text(self) -> Seq<char> {
        decimal(self.x) + seq![' '] + operator_symbol(self.operator) + seq![' '] + decimal(self.y)
            + seq![' ', '=', ' '] + decimal(self.result)
    }

    /// The index, among the five tokens laid out in direction `dir`, of the
    /// token that holds the number of slot `param`.
    pub open spec fn token_index(self, dir: Direction, param: MatchParameter) -> int {
        match param {
            MatchParameter::X => if self.mirrored(dir) {
                2
            } else {
                0
            },
            MatchParameter::Y => if self.mirrored(dir) {
                0
            } else {
                2
            },
            MatchParameter::Result => 4,
        }
    }

    /// The position of the first token, given that the cell at `position`
    /// holds the number of slot `param` and that the equation is laid out in
    /// direction `dir` on a grid `width` cells wide. It may lie before the
    /// first cell of the grid, and is negative then.
    pub open spec fn start_position(
        self,
        width: int,
        dir: Direction,
        param: MatchParameter,
        position: int,
    ) -> int {
        position - self.token_index(dir, param) * direction_step(dir, width)
    }

    /// One of the three numbers, as a draw from `0..100` selects it: `x` and
    /// `y` with 33 draws each, the result with the remaining 34.
    pub open spec fn number_of_draw(self, draw: u32) -> nat {
        self.slot(parameter_of_draw(draw))
    }
}

impl View for Equation {
    type V = EquationView;

    closed spec fn view(&self) -> EquationView {
        EquationView {
            x: self.x as nat,
            y: self.y as nat,
            operator: self.operator,
            result: self.result as nat,
        }
    }
}

/// The result and the operands of the equation that two numbers and an
/// operator stand for, in the order result, `x`, `y`.
fn get_result(x: u32, y: u32, operator: Operation) -> (r: (u32, u32, u32))
    requires
        operator == Operation::Plus ==> x + y <= u32::MAX,
    ensures
        (EquationView { x: r.1 as nat, y: r.2 as nat, operator, result: r.0 as nat }) == canonical(
            x as nat,
            y as nat,
            operator,
        ),
{
    match operator {
        Operation::Plus => (x + y, x, y),
        Operation::Minus => if x < y {
            (y - x, y, x)
        } else {
            (x - y, x, y)
        },
    }
}

/// The operator that a draw from `0..2` selects.
pub fn operation_for_draw(draw: u32) -> (operator: Operation)
    ensures
        operator == operation_of_draw(draw),
{
    if draw == 0 {
        Operation::Plus
    } else {
        Operation::Minus
    }
}

/// The slot that a draw from `0..100` selects.
pub fn match_parameter_for_draw(draw: u32) -> (param: MatchParameter)
    ensures
        param == parameter_of_draw(draw),
{
    if draw < 33 {
        MatchParameter::X
    } else if draw < 66 {
        MatchParameter::Y
    } else {
        MatchParameter::Result
    }
}

/// Draws an operator, `Plus` and `Minus` being equally likely.
fn get_random_operator(rng: &mut RandomSource) -> (operator: Operation) {
    let draw: u32 = rng.next_in_range(0, 2);
    operation_for_draw(draw)
}

/// The token of an operator.
fn operator_text(operator: Operation) -> (t: &'static str)
    ensures
        t@ == operator_symbol(operator),
{
    proof {
        reveal_strlit("+");
        reveal_strlit("-");
    }
    let t = match operator {
        Operation::Plus => "+",
        Operation::Minus => "-",
    };
    assert(t@ =~= operator_symbol(operator));
    t
}

impl Equation {
    /// Every equation holds.
    #[verifier::type_invariant]
    pub open spec fn holds(&self) -> bool {
        self@.wf()
    }

    /// The equation of two numbers and an operator. A subtraction whose
    /// first number is the smaller one has its operands swapped.
    pub fn new(x: u32, y: u32, operator: Operation) -> (eq: Self)
        requires
            operator == Operation::Plus ==> x + y <= u32::MAX,
        ensures
            eq@ == canonical(x as nat, y as nat, operator),
            eq@.wf(),
    {
        let (result, x, y) = get_result(x, y, operator);
        Self { x, y, operator, result }
    }

    /// A random equation: both operands are drawn from `1..MAX_NUMBER`, then
    /// the operator.
    pub fn random(rng: &mut RandomSource) -> (eq: Self)
        ensures
            eq@.wf(),
            exists|x: nat, y: nat, operator: Operation|
                1 <= x < MAX_NUMBER && 1 <= y < MAX_NUMBER && eq@ == #[trigger] canonical(
                    x,
                    y,
                    operator,
                ),
    {
        let x: u32 = rng.next_in_range(1, MAX_NUMBER);
        let y: u32 = rng.next_in_range(1, MAX_NUMBER);
        let operator = get_random_operator(rng);
        Equation::new(x, y, operator)
    }

    /// The equation with `value` in slot `param` that the given draws
    /// select; see `constrained`.
    pub fn from_draws(
        param: MatchParameter,
        value: u32,
        operand: u32,
        operator: Operation,
        resample: u32,
    ) -> (eq: Self)
        requires
            operand < MAX_NUMBER,
            resample < MAX_NUMBER,
            param != MatchParameter::Result ==> value + MAX_NUMBER <= u32::MAX,
        ensures
            eq@ == constrained(param, value as nat, operand as nat, operator, resample as nat),
            eq@.wf(),
            eq@.slot(param) == value,
    {
        match param {
            MatchParameter::Result => {
                if operand > value {
                    Self { x: operand, y: operand - value, operator: Operation::Minus, result: value }
                } else {
                    Self { x: operand, y: value - operand, operator: Operation::Plus, result: value }
                }
            },
            MatchParameter::X => {
                if value > operand {
                    Equation::new(value, operand, operator)
                } else {
                    Equation::new(value, operand, Operation::Plus)
                }
            },
            MatchParameter::Y => {
                if operator == Operation::Minus && operand < value {
                    if value <= resample {
                        Equation::new(resample, value, Operation::Minus)
                    } else {
                        Equation::new(operand, value, Operation::Plus)
                    }
                } else {
                    Equation::new(operand, value, operator)
                }
            },
        }
    }

    /// A random equation with `value` in slot `param`.
    ///
    /// With `value` as the result, `x` is drawn from `1..MAX_NUMBER` and
    /// decides the operator. With `value` as `x`, `y` is drawn, and the
    /// operator too unless `x <= y`, which forces an addition. With `value`
    /// as `y`, `x` and the operator are drawn; where a subtraction needs a
    /// larger `x`, `x` is drawn again from `value..MAX_NUMBER`, and where
    /// that range is empty the equation is the addition of the first draw.
    pub fn generate(rng: &mut RandomSource, param: MatchParameter, value: u32) -> (eq: Self)
        requires
            param != MatchParameter::Result ==> value + MAX_NUMBER <= u32::MAX,
        ensures
            eq@.wf(),
            eq@.slot(param) == value,
            exists|operand: nat, operator: Operation, resample: nat|
                1 <= operand < MAX_NUMBER && resample < MAX_NUMBER && eq@ == #[trigger] constrained(
                    param,
                    value as nat,
                    operand,
                    operator,
                    resample,
                ),
    {
        let operand: u32 = rng.next_in_range(1, MAX_NUMBER);
        let mut operator = Operation::Plus;
        let mut resample: u32 = 0;
        match param {
            MatchParameter::Result => {},
            MatchParameter::X => {
                if value > operand {
                    operator = get_random_operator(rng);
                }
            },
            MatchParameter::Y => {
                operator = get_random_operator(rng);
                if operator == Operation::Minus && operand < value && value < MAX_NUMBER {
                    resample = rng.next_in_range(value, MAX_NUMBER);
                }
            },
        }
        Equation::from_draws(param, value, operand, operator, resample)
    }

    /// The equation holding `value` that the given draws select; see
    /// `containing`.
    pub fn from_choice(value: u32, choice: u32, operand: u32, operator: Operation) -> (eq: Self)
        requires
            operand < MAX_NUMBER,
            value + MAX_NUMBER <= u32::MAX,
        ensures
            eq@ == containing(value as nat, choice, operand as nat, operator),
            eq@.wf(),
            eq@.x == value || eq@.y == value || eq@.result == value,
    {
        match match_parameter_for_draw(choice) {
            MatchParameter::Result => Equation::from_draws(
                MatchParameter::Result,
                value,
                operand,
                operator,
                operand,
            ),
            MatchParameter::X => Equation::new(value, operand, operator),
            MatchParameter::Y => Equation::new(operand, value, operator),
        }
    }

    /// A random equation that holds `value` as one of its three numbers.
    pub fn random_with(rng: &mut RandomSource, value: u32) -> (eq: Self)
        requires
            value + MAX_NUMBER <= u32::MAX,
        ensures
            eq@.wf(),
            eq@.x == value || eq@.y == value || eq@.result == value,
            exists|choice: u32, operand: nat, operator: Operation|
                choice < 100 && 1 <= operand < MAX_NUMBER && eq@ == #[trigger] containing(
                    value as nat,
                    choice,
                    operand,
                    operator,
                ),
    {
        let choice: u32 = rng.next_in_range(0, 100);
        let operand: u32 = rng.next_in_range(1, MAX_NUMBER);
        let operator = match match_parameter_for_draw(choice) {
            MatchParameter::Result => Operation::Plus,
            _ => get_random_operator(rng),
        };
        Equation::from_choice(value, choice, operand, operator)
    }

    /// One of the three numbers, as a draw from `0..100` selects it.
    pub fn number_for_draw(&self, draw: u32) -> (number: u32)
        ensures
            number == self@.number_of_draw(draw),
    {
        match match_parameter_for_draw(draw) {
            MatchParameter::X => self.x,
            MatchParameter::Y => self.y,
            MatchParameter::Result => self.result,
        }
    }

    /// One of the three numbers at random: `x` and `y` with 33 chances in a
    /// hundred each, the result with 34.
    pub fn get_random_number(&self, rng: &mut RandomSource) -> (number: u32)
        ensures
            number == self@.x || number == self@.y || number == self@.result,
            exists|draw: u32| draw < 100 && number == #[trigger] self@.number_of_draw(draw),
    {
        let draw: u32 = rng.next_in_range(0, 100);
        self.number_for_draw(draw)
    }

    pub fn get_x(&self) -> (x: u32)
        ensures
            x == self@.x,
    {
        self.x
    }

    pub fn get_y(&self) -> (y: u32)
        ensures
            y == self@.y,
    {
        self.y
    }

    pub fn get_result(&self) -> (result: u32)
        ensures
            result == self@.result,
    {
        self.result
    }

    pub fn get_operation(&self) -> (operator: Operation)
        ensures
            operator == self@.operator,
    {
        self.operator
    }

    /// The number in slot `param`.
    pub fn get_number(&self, param: MatchParameter) -> (number: u32)
        ensures
            number == self@.slot(param),
    {
        match param {
            MatchParameter::X => self.x,
            MatchParameter::Y => self.y,
            MatchParameter::Result => self.result,
        }
    }

    /// The five tokens in the order in which they are laid out in direction
    /// `dir`.
    pub fn to_array(&self, dir: Direction) -> (tokens: Vec<String>)
        ensures
            texts(tokens@) == self@.tokens(dir),
    {
        let mirrored = match (self.operator, dir) {
            (Operation::Minus, Direction::Left) => true,
            (Operation::Minus, Direction::Up) => true,
            _ => false,
        };
        let (first, second) = if mirrored {
            (self.y, self.x)
        } else {
            (self.x, self.y)
        };
        proof {
            reveal_strlit("=");
        }
        let mut tokens: Vec<String> = Vec::new();
        tokens.push(decimal_string(first));
        tokens.push(String::from_str(operator_text(self.operator)));
        tokens.push(decimal_string(second));
        tokens.push(String::from_str("="));
        tokens.push(decimal_string(self.result));
        assert(tokens@[3]@ =~= equals_symbol());
        assert(texts(tokens@) =~= self@.tokens(dir));
        tokens
    }

    /// The equation on one line, as in `2 + 3 = 5`.
    pub fn to_string(&self) -> (line: String)
        ensures
            line@ == self@.text(),
    {
        proof {
            reveal_strlit(" ");
            reveal_strlit(" = ");
        }
        let mut line = decimal_string(self.x);
        line.append(" ");
        line.append(operator_text(self.operator));
        line.append(" ");
        let second = decimal_string(self.y);
        line.append(second.as_str());
        line.append(" = ");
        let last = decimal_string(self.result);
        line.append(last.as_str());
        assert(line@ =~= self@.text());
        line
    }

    /// The position of the first token, given that the cell at
    /// `param_position` holds the number of slot `param` and that the
    /// equation is laid out in direction `dir`. A position before the first
    /// cell of the grid is negative.
    pub fn get_start_position(
        &self,
        grid_width: i32,
        dir: Direction,
        param: MatchParameter,
        param_position: usize,
    ) -> (start: i128)
        requires
            grid_width > i32::MIN,
        ensures
            start == self@.start_position(grid_width as int, dir, param, param_position as int),
    {
        let dir_step: i128 = get_direction_step(dir, grid_width) as i128;
        let mirrored = match (self.operator, dir) {
            (Operation::Minus, Direction::Left) => true,
            (Operation::Minus, Direction::Up) => true,
            _ => false,
        };
        let index: i128 = match param {
            MatchParameter::X => if mirrored {
                2
            } else {
                0
            },
            MatchParameter::Y => if mirrored {
                0
            } else {
                2
            },
            MatchParameter::Result => 4,
        };
        param_position as i128 - index * dir_step
    }
}

/// The distance between two neighbouring cells of an equation laid out in
/// direction `dir`.
pub fn get_direction_step(dir: Direction, width: i32) -> (step: i32)
    requires
        width > i32::MIN,
    ensures
        step == direction_step(dir, width as int),
{
    match dir {
        Direction::Down => width,
        Direction::Up => -width,
        Direction::Left => -1,
        Direction::Right => 1,
    }
}

} // verus!
