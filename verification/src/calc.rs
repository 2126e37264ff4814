//! The decisions of the calculators: which command a line is, which operation a
//! sign names and when it cannot be carried out, and integer arithmetic.
use crate::text::{chars_of, split_whitespace, str_eq, words};
use vstd::prelude::*;

verus! {

/// An arithmetic operation of the calculator.
pub enum Operation {
    Add,
    Subtract,
    Multiply,
    Divide,
    Remainder,
    Power,
}

/// The operation that the sign `op` names: `+ - * / % ^`.
pub open spec fn operation_for(op: Seq<char>) -> Option<Operation> {
    if op == seq!['+'] {
        Some(Operation::Add)
    } else if op == seq!['-'] {
        Some(Operation::Subtract)
    } else if op == seq!['*'] {
        Some(Operation::Multiply)
    } else if op == seq!['/'] {
        Some(Operation::Divide)
    } else if op == seq!['%'] {
        Some(Operation::Remainder)
    } else if op == seq!['^'] {
        Some(Operation::Power)
    } else {
        None
    }
}

/// The operation would divide by zero: a division or remainder by zero, or zero
/// raised to a negative power.
pub open spec fn divides_by_zero(o: Operation, a_is_zero: bool, b_is_zero: bool, b_is_negative: bool) -> bool {
    match o {
        Operation::Divide | Operation::Remainder => b_is_zero,
        Operation::Power => a_is_zero && b_is_negative,
        _ => false,
    }
}

/// Picks the operation that `op` names for operands `a` and `b` (of which the
/// caller gives whether `a` is zero, whether `b` is zero and whether `b` is
/// negative). Fails with `Неизвестная операция: <op>` where `op` names none, and
/// with `Деление на ноль!` where the operation would divide by zero.
pub fn select_operation(op: &str, a_is_zero: bool, b_is_zero: bool, b_is_negative: bool) -> (r: Result<Operation, String>)
    ensures
        match operation_for(op@) {
            None => r matches Err(e) && e@ == "Неизвестная операция: "@ + op@,
            Some(o) => if divides_by_zero(o, a_is_zero, b_is_zero, b_is_negative) {
                r matches Err(e) && e@ == "Деление на ноль!"@
            } else {
                r == Ok::<Operation, String>(o)
            },
        },
{
    let cs = chars_of(op);
    let sign: char = if cs.len() == 1 { cs[0] } else { ' ' };
    proof {
        if cs.len() == 1 {
            assert(cs@ =~= seq![sign]);
        }
    }
    if sign == '+' {
        Ok(Operation::Add)
    } else if sign == '-' {
        Ok(Operation::Subtract)
    } else if sign == '*' {
        Ok(Operation::Multiply)
    } else if sign == '/' {
        if b_is_zero {
            Err("Деление на ноль!".to_owned())
        } else {
            Ok(Operation::Divide)
        }
    } else if sign == '%' {
        if b_is_zero {
            Err("Деление на ноль!".to_owned())
        } else {
            Ok(Operation::Remainder)
        }
    } else if sign == '^' {
        if a_is_zero && b_is_negative {
            Err("Деление на ноль!".to_owned())
        } else {
            Ok(Operation::Power)
        }
    } else {
        let mut e = "Неизвестная операция: ".to_owned();
        e.append(op);
        Err(e)
    }
}

/// A line typed at the calculator's prompt, once trimmed.
pub enum Command {
    /// `выход` or `exit`.
    Exit,
    /// `помощь` or `help`.
    Help,
    /// Anything that is not three words.
    Malformed,
    /// Three words: an operand, an operation sign and an operand.
    Expression { left: String, op: String, right: String },
}

/// The command that the trimmed line `input` stands for.
pub open spec fn command_is(r: Command, input: Seq<char>) -> bool {
    if input == "выход"@ || input == "exit"@ {
        r is Exit
    } else if input == "помощь"@ || input == "help"@ {
        r is Help
    } else if words(input).len() != 3 {
        r is Malformed
    } else {
        r matches Command::Expression { left, op, right } && left@ == words(input)[0] && op@
            == words(input)[1] && right@ == words(input)[2]
    }
}

/// Decides what the trimmed line `input` asks the calculator to do.
pub fn classify_input(input: &str) -> (r: Command)
    ensures
        command_is(r, input@),
{
    if str_eq(input, "выход") || str_eq(input, "exit") {
        return Command::Exit;
    }
    if str_eq(input, "помощь") || str_eq(input, "help") {
        return Command::Help;
    }
    let mut parts = split_whitespace(input);
    if parts.len() != 3 {
        return Command::Malformed;
    }
    let right = parts.pop().unwrap();
    let op = parts.pop().unwrap();
    let left = parts.pop().unwrap();
    Command::Expression { left, op, right }
}

/// The sum, difference and product of `a` and `b`.
pub fn sum_difference_product(a: i64, b: i64) -> (r: (i64, i64, i64))
    requires
        i64::MIN <= a + b <= i64::MAX,
        i64::MIN <= a - b <= i64::MAX,
        i64::MIN <= a * b <= i64::MAX,
    ensures
        r.0 == a + b,
        r.1 == a - b,
        r.2 == a * b,
{
    (a + b, a - b, a * b)
}


/// Each of the six signs names its operation, and no text of any other length names
/// one. A division or a remainder is refused exactly when the divisor is zero,
/// whatever the dividend (`0 / 5` is carried out); a power is refused exactly when
/// zero is raised to a negative power; sums, differences and products never are.
pub proof fn only_zero_divisors_are_refused(a_is_zero: bool, b_is_zero: bool, b_is_negative: bool, op: Seq<char>)
    ensures
        operation_for(seq!['+']) == Some(Operation::Add),
        operation_for(seq!['-']) == Some(Operation::Subtract),
        operation_for(seq!['*']) == Some(Operation::Multiply),
        operation_for(seq!['/']) == Some(Operation::Divide),
        operation_for(seq!['%']) == Some(Operation::Remainder),
        operation_for(seq!['^']) == Some(Operation::Power),
        op.len() != 1 ==> operation_for(op) is None,
        divides_by_zero(Operation::Divide, a_is_zero, b_is_zero, b_is_negative) == b_is_zero,
        divides_by_zero(Operation::Remainder, a_is_zero, b_is_zero, b_is_negative) == b_is_zero,
        divides_by_zero(Operation::Power, a_is_zero, b_is_zero, b_is_negative) == (a_is_zero
            && b_is_negative),
        !divides_by_zero(Operation::Add, a_is_zero, b_is_zero, b_is_negative),
        !divides_by_zero(Operation::Subtract, a_is_zero, b_is_zero, b_is_negative),
        !divides_by_zero(Operation::Multiply, a_is_zero, b_is_zero, b_is_negative),
{
    let signs = seq!['+', '-', '*', '/', '%', '^'];
    assert forall|i: int, j: int| 0 <= i < j < 6 implies seq![signs[i]] != seq![signs[j]] by {
        assert(seq![signs[i]][0] != seq![signs[j]][0]);
    }
    assert(seq!['+'] == seq![signs[0]]);
    assert(seq!['-'] == seq![signs[1]]);
    assert(seq!['*'] == seq![signs[2]]);
    assert(seq!['/'] == seq![signs[3]]);
    assert(seq!['%'] == seq![signs[4]]);
    assert(seq!['^'] == seq![signs[5]]);
}

} // verus!
