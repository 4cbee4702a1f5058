//! What the value of a text is: the tokens are brought into postfix order by
//! operator precedence, and the postfix sequence is evaluated.

use crate::environment::{Type, Value};
use crate::error::Error;
use crate::grid::{grid_add, grid_mul, grid_neg, grid_pow, grid_scale, grid_sub};
use crate::lexer::{lemma_lexeme_consumes, next_lexeme, Lexeme};
use crate::traits::MatrixNumber;
use vstd::prelude::*;

verus! {

/// What the parser keeps on its two stacks: a value, an operator or a bracket.
pub enum Symbol<T> {
    Value(Value<T>),
    UnaryOp(char),
    BinaryOp(char),
    LeftBracket,
    RightBracket,
}

/// The kind of the token that was accepted last.
#[derive(Debug, Clone, Copy, PartialEq, Eq, Structural)]
pub enum Kind {
    Value,
    UnaryOp,
    BinaryOp,
    LeftBracket,
    RightBracket,
}

/// The parser between two tokens: the operator stack with its top at the end, the
/// output queue in postfix order, and the kind of the last token.
pub struct Shunting<T> {
    pub operators: Seq<Symbol<T>>,
    pub outputs: Seq<Symbol<T>>,
    pub previous: Option<Kind>,
}

/// How tightly a binary operator binds: sums below products below powers.
pub open spec fn precedence(c: char) -> int {
    if c == '+' || c == '-' {
        0
    } else if c == '*' || c == '/' {
        1
    } else {
        2
    }
}

/// Whether a token may follow the token before it. An operand or an opening
/// bracket needs the start, an opening bracket or an operator before it; an
/// operator must not follow a unary operator; a closing bracket needs an operand
/// or a closing bracket before it.
pub open spec fn neighbours_ok(previous: Option<Kind>, current: Lexeme) -> bool {
    match current {
        Lexeme::Integer(_) | Lexeme::Identifier(_) | Lexeme::LeftBracket => {
            previous == None::<Kind> || previous == Some(Kind::LeftBracket) || previous == Some(
                Kind::BinaryOp,
            ) || previous == Some(Kind::UnaryOp)
        },
        Lexeme::Operator(_) => {
            previous == None::<Kind> || previous == Some(Kind::RightBracket) || previous == Some(
                Kind::Value,
            ) || previous == Some(Kind::BinaryOp) || previous == Some(Kind::LeftBracket)
        },
        Lexeme::RightBracket => {
            previous == Some(Kind::RightBracket) || previous == Some(Kind::Value)
        },
    }
}

/// Moves operators to the output until the opening bracket, which is dropped.
/// Nothing when there is no opening bracket.
pub open spec fn close_bracket<T>(operators: Seq<Symbol<T>>, outputs: Seq<Symbol<T>>) -> Option<
    (Seq<Symbol<T>>, Seq<Symbol<T>>),
>
    decreases operators.len(),
{
    if operators.len() == 0 {
        None
    } else if operators.last() is LeftBracket {
        Some((operators.drop_last(), outputs))
    } else {
        close_bracket(operators.drop_last(), outputs.push(operators.last()))
    }
}

/// Moves a unary operator on top of the stack to the output: it applies to the
/// bracket that was just closed.
pub open spec fn release_unary<T>(operators: Seq<Symbol<T>>, outputs: Seq<Symbol<T>>) -> (
    Seq<Symbol<T>>,
    Seq<Symbol<T>>,
) {
    if operators.len() > 0 && operators.last() is UnaryOp {
        (operators.drop_last(), outputs.push(operators.last()))
    } else {
        (operators, outputs)
    }
}

/// Moves to the output every operator on top of the stack that binds at least as
/// tightly as the binary operator `op`: all unary operators, and the binary ones
/// whose precedence is not lower.
pub open spec fn yield_to<T>(operators: Seq<Symbol<T>>, outputs: Seq<Symbol<T>>, op: char) -> (
    Seq<Symbol<T>>,
    Seq<Symbol<T>>,
)
    decreases operators.len(),
{
    if operators.len() == 0 {
        (operators, outputs)
    } else {
        match operators.last() {
            Symbol::BinaryOp(s) => if precedence(s) >= precedence(op) {
                yield_to(operators.drop_last(), outputs.push(operators.last()), op)
            } else {
                (operators, outputs)
            },
            Symbol::UnaryOp(_) => yield_to(
                operators.drop_last(),
                outputs.push(operators.last()),
                op,
            ),
            _ => (operators, outputs),
        }
    }
}

/// Moves what is left on the operator stack to the output. Nothing when a bracket
/// was never closed.
pub open spec fn drain<T>(operators: Seq<Symbol<T>>, outputs: Seq<Symbol<T>>) -> Option<
    Seq<Symbol<T>>,
>
    decreases operators.len(),
{
    if operators.len() == 0 {
        Some(outputs)
    } else if operators.last() is LeftBracket {
        None
    } else {
        drain(operators.drop_last(), outputs.push(operators.last()))
    }
}

/// The parser after one more token. A token that may not follow the one before
/// it, a closing bracket without an opening one, an operator other than a sign in
/// the place of a unary operator, and the assignment operator are syntax errors;
/// a number that the element type cannot hold is a lexical error; a name without
/// a value is an undefined identifier.
pub open spec fn accept<T: MatrixNumber>(
    state: Shunting<T>,
    token: Lexeme,
    env: Map<Seq<char>, Value<T>>,
) -> Result<Shunting<T>, Error> {
    if !neighbours_ok(state.previous, token) {
        Err(Error::Syntax)
    } else {
        match token {
            Lexeme::Integer(n) => match T::from_u64_spec(n) {
                None => Err(Error::Lex),
                Some(v) => Ok(
                    Shunting {
                        operators: state.operators,
                        outputs: state.outputs.push(Symbol::Value(Value::Scalar(v))),
                        previous: Some(Kind::Value),
                    },
                ),
            },
            Lexeme::Identifier(name) => if env.contains_key(name) {
                Ok(
                    Shunting {
                        operators: state.operators,
                        outputs: state.outputs.push(Symbol::Value(env[name])),
                        previous: Some(Kind::Value),
                    },
                )
            } else {
                Err(Error::UndefinedIdentifier)
            },
            Lexeme::LeftBracket => Ok(
                Shunting {
                    operators: state.operators.push(Symbol::LeftBracket),
                    outputs: state.outputs,
                    previous: Some(Kind::LeftBracket),
                },
            ),
            Lexeme::RightBracket => match close_bracket(state.operators, state.outputs) {
                None => Err(Error::Syntax),
                Some(closed) => Ok(
                    Shunting {
                        operators: release_unary(closed.0, closed.1).0,
                        outputs: release_unary(closed.0, closed.1).1,
                        previous: Some(Kind::RightBracket),
                    },
                ),
            },
            Lexeme::Operator(op) => if state.previous == None::<Kind> || state.previous == Some(
                Kind::LeftBracket,
            ) || state.previous == Some(Kind::BinaryOp) {
                if op == '+' || op == '-' {
                    Ok(
                        Shunting {
                            operators: state.operators.push(Symbol::UnaryOp(op)),
                            outputs: state.outputs,
                            previous: Some(Kind::UnaryOp),
                        },
                    )
                } else {
                    Err(Error::Syntax)
                }
            } else if op == '+' || op == '-' || op == '*' || op == '/' || op == '^' {
                Ok(
                    Shunting {
                        operators: yield_to(state.operators, state.outputs, op).0.push(
                            Symbol::BinaryOp(op),
                        ),
                        outputs: yield_to(state.operators, state.outputs, op).1,
                        previous: Some(Kind::BinaryOp),
                    },
                )
            } else {
                Err(Error::Syntax)
            },
        }
    }
}

/// The parser after all tokens of a text, or the first error met on the way.
pub open spec fn parse_tokens<T: MatrixNumber>(
    input: Seq<char>,
    state: Shunting<T>,
    env: Map<Seq<char>, Value<T>>,
) -> Result<Shunting<T>, Error>
    decreases input.len(),
{
    match next_lexeme(input) {
        Err(e) => Err(e),
        Ok(None) => Ok(state),
        Ok(Some(pair)) => match accept(state, pair.0, env) {
            Err(e) => Err(e),
            Ok(next) => {
                proof {
                    lemma_lexeme_consumes(input);
                }
                parse_tokens(pair.1, next, env)
            },
        },
    }
}

/// A number as a value, or an arithmetic failure where there is none.
pub open spec fn lift_scalar<T>(r: Option<T>) -> Result<Value<T>, Error> {
    match r {
        Some(v) => Ok(Value::Scalar(v)),
        None => Err(Error::ArithmeticFailure),
    }
}

/// A grid as a matrix without separator, or the error that came instead.
pub open spec fn lift_matrix<T>(r: Result<Seq<Seq<T>>, Error>) -> Result<Value<T>, Error> {
    match r {
        Ok(g) => Ok(Value::Matrix(g, None)),
        Err(e) => Err(e),
    }
}

/// What a binary operator gives for two values. Sums and differences need two
/// numbers or two matrices; a product also scales a matrix by a number on either
/// side; only numbers can be divided; a power needs a number as exponent, taken
/// as a machine integer, and raises a number or a square matrix.
pub open spec fn binary_value<T: MatrixNumber>(left: Value<T>, right: Value<T>, op: char) -> Result<
    Value<T>,
    Error,
> {
    if op == '+' {
        match (left, right) {
            (Value::Matrix(l, _), Value::Matrix(r, _)) => lift_matrix(grid_add(l, r)),
            (Value::Scalar(l), Value::Scalar(r)) => lift_scalar(l.add_spec(r)),
            _ => Err(Error::TypeMismatch),
        }
    } else if op == '-' {
        match (left, right) {
            (Value::Matrix(l, _), Value::Matrix(r, _)) => lift_matrix(grid_sub(l, r)),
            (Value::Scalar(l), Value::Scalar(r)) => lift_scalar(l.sub_spec(r)),
            _ => Err(Error::TypeMismatch),
        }
    } else if op == '*' {
        match (left, right) {
            (Value::Matrix(l, _), Value::Matrix(r, _)) => lift_matrix(grid_mul(l, r)),
            (Value::Scalar(l), Value::Scalar(r)) => lift_scalar(l.mul_spec(r)),
            (Value::Matrix(l, _), Value::Scalar(r)) => lift_matrix(grid_scale(l, r)),
            (Value::Scalar(l), Value::Matrix(r, _)) => lift_matrix(grid_scale(r, l)),
        }
    } else if op == '/' {
        match (left, right) {
            (Value::Scalar(l), Value::Scalar(r)) => lift_scalar(l.div_spec(r)),
            _ => Err(Error::TypeMismatch),
        }
    } else if op == '^' {
        match right {
            Value::Matrix(_, _) => Err(Error::TypeMismatch),
            Value::Scalar(e) => match e.to_usize_spec() {
                None => Err(Error::ArithmeticFailure),
                Some(n) => match left {
                    Value::Scalar(base) => lift_scalar(base.pow_spec(n)),
                    Value::Matrix(base, _) => lift_matrix(grid_pow(base, n as nat)),
                },
            },
        }
    } else {
        Err(Error::Syntax)
    }
}

/// What a unary operator gives for a value: plus leaves it, minus subtracts it
/// from zero.
pub open spec fn unary_value<T: MatrixNumber>(arg: Value<T>, op: char) -> Result<Value<T>, Error> {
    if op == '+' {
        Ok(arg)
    } else if op == '-' {
        match arg {
            Value::Matrix(m, _) => lift_matrix(grid_neg(m)),
            Value::Scalar(s) => lift_scalar(T::zero_spec().sub_spec(s)),
        }
    } else {
        Err(Error::Syntax)
    }
}

/// The value of a postfix sequence from position `k` on, with `stack` holding the
/// values computed so far, its top at the end. An operator without enough values
/// before it and an empty result are syntax errors.
pub open spec fn eval_from<T: MatrixNumber>(
    outputs: Seq<Symbol<T>>,
    k: int,
    stack: Seq<Value<T>>,
) -> Result<Value<T>, Error>
    decreases outputs.len() - k,
{
    if k >= outputs.len() || k < 0 {
        if stack.len() > 0 {
            Ok(stack.last())
        } else {
            Err(Error::Syntax)
        }
    } else {
        match outputs[k] {
            Symbol::Value(v) => eval_from(outputs, k + 1, stack.push(v)),
            Symbol::BinaryOp(op) => if stack.len() < 2 {
                Err(Error::Syntax)
            } else {
                match binary_value(stack[stack.len() - 2], stack.last(), op) {
                    Err(e) => Err(e),
                    Ok(v) => eval_from(outputs, k + 1, stack.drop_last().drop_last().push(v)),
                }
            },
            Symbol::UnaryOp(op) => if stack.len() < 1 {
                Err(Error::Syntax)
            } else {
                match unary_value(stack.last(), op) {
                    Err(e) => Err(e),
                    Ok(v) => eval_from(outputs, k + 1, stack.drop_last().push(v)),
                }
            },
            _ => Err(Error::Syntax),
        }
    }
}

/// The parser before the first token.
pub open spec fn initial<T>() -> Shunting<T> {
    Shunting { operators: Seq::empty(), outputs: Seq::empty(), previous: None }
}

/// The value of an expression: the tokens are brought into postfix order by
/// operator precedence, then the postfix sequence is evaluated. The first error
/// on the way is the result.
pub open spec fn evaluate_text<T: MatrixNumber>(input: Seq<char>, env: Map<Seq<char>, Value<T>>) -> Result<
    Value<T>,
    Error,
> {
    match parse_tokens(input, initial(), env) {
        Err(e) => Err(e),
        Ok(state) => match drain(state.operators, state.outputs) {
            None => Err(Error::Syntax),
            Some(outputs) => eval_from(outputs, 0, Seq::empty()),
        },
    }
}

/// What an instruction does: an expression is evaluated and bound to the name of
/// the last result; otherwise the text must be a name, the assignment operator
/// and an expression, whose value is bound to the name.
pub open spec fn instruction_effect<T: MatrixNumber>(
    input: Seq<char>,
    env: Map<Seq<char>, Value<T>>,
) -> Result<(Seq<char>, Value<T>), Error> {
    match evaluate_text(input, env) {
        Ok(v) => Ok(("$"@, v)),
        Err(_) => match next_lexeme(input) {
            Err(e) => Err(e),
            Ok(Some((Lexeme::Identifier(name), rest))) => match next_lexeme(rest) {
                Err(e) => Err(e),
                Ok(Some((Lexeme::Operator(op), tail))) => if op == '=' {
                    match evaluate_text(tail, env) {
                        Ok(v) => Ok((name, v)),
                        Err(e) => Err(e),
                    }
                } else {
                    Err(Error::Syntax)
                },
                _ => Err(Error::Syntax),
            },
            _ => Err(Error::Syntax),
        },
    }
}

/// Whether `r` is what the evaluation of `input` over `env` gives: the value, or
/// the error.
pub open spec fn is_evaluation_of<T: MatrixNumber>(
    r: Result<Type<T>, Error>,
    input: Seq<char>,
    env: Map<Seq<char>, Value<T>>,
) -> bool {
    match evaluate_text(input, env) {
        Ok(v) => r matches Ok(t) && t@ == v,
        Err(e) => r matches Err(f) && f == e,
    }
}

/// Evaluation is deterministic: two results for the same text over the same
/// values are the same value or the same error.
pub proof fn lemma_evaluation_is_deterministic<T: MatrixNumber>(
    first: Result<Type<T>, Error>,
    second: Result<Type<T>, Error>,
    input: Seq<char>,
    env: Map<Seq<char>, Value<T>>,
)
    requires
        is_evaluation_of(first, input, env),
        is_evaluation_of(second, input, env),
    ensures
        match (first, second) {
            (Ok(a), Ok(b)) => a@ == b@,
            (Err(e), Err(f)) => e == f,
            _ => false,
        },
{
}

} // verus!
