//! The parser of expressions and instructions.

use crate::environment::{valid_value, Environment, Identifier, Type, Value};
use crate::error::Error;
use crate::evaluation::{
    accept, binary_value, close_bracket, drain, eval_from, evaluate_text, initial,
    instruction_effect, is_evaluation_of, neighbours_ok, parse_tokens, precedence, release_unary, unary_value,
    yield_to, Kind, Shunting, Symbol,
};
use crate::lexer::{lemma_lexeme_consumes, next_lexeme, Lexeme, Token, Tokenizer};
use crate::matrices::Matrix;
use crate::traits::MatrixNumber;
use vstd::prelude::*;

verus! {

/// What the parser keeps on its two stacks.
#[derive(Debug, Clone, PartialEq, Eq)]
pub enum WorkingToken<T: MatrixNumber> {
    Type(Type<T>),
    UnaryOp(char),
    BinaryOp(char),
    LeftBracket,
    RightBracket,
}

impl<T: MatrixNumber> View for WorkingToken<T> {
    type V = Symbol<T>;

    open spec fn view(&self) -> Symbol<T> {
        match self {
            WorkingToken::Type(t) => Symbol::Value(t@),
            WorkingToken::UnaryOp(op) => Symbol::UnaryOp(*op),
            WorkingToken::BinaryOp(op) => Symbol::BinaryOp(*op),
            WorkingToken::LeftBracket => Symbol::LeftBracket,
            WorkingToken::RightBracket => Symbol::RightBracket,
        }
    }
}

/// What a stack of working tokens stands for.
pub open spec fn symbols<T: MatrixNumber>(v: Seq<WorkingToken<T>>) -> Seq<Symbol<T>> {
    Seq::new(v.len(), |i: int| v[i]@)
}

/// What a stack of values stands for.
pub open spec fn values<T: MatrixNumber>(v: Seq<Type<T>>) -> Seq<Value<T>> {
    Seq::new(v.len(), |i: int| v[i]@)
}

/// Every matrix among the symbols has rows of equal length.
pub open spec fn valid_symbols<T>(s: Seq<Symbol<T>>) -> bool {
    forall|i: int| 0 <= i < s.len() ==> valid_symbol(#[trigger] s[i])
}

/// Every matrix among the values has rows of equal length.
pub open spec fn valid_values<T>(s: Seq<Value<T>>) -> bool {
    forall|i: int| 0 <= i < s.len() ==> valid_value(#[trigger] s[i])
}

/// Whether the symbol, if it is a matrix, has rows of equal length.
pub open spec fn valid_symbol<T>(s: Symbol<T>) -> bool {
    s matches Symbol::Value(v) ==> valid_value(v)
}

/// Puts a working token on a stack.
fn push_symbol<T: MatrixNumber>(stack: &mut Vec<WorkingToken<T>>, token: WorkingToken<T>)
    requires
        valid_symbols(symbols(old(stack)@)),
        valid_symbol(token@),
    ensures
        symbols(final(stack)@) == symbols(old(stack)@).push(token@),
        valid_symbols(symbols(final(stack)@)),
{
    stack.push(token);
    assert(symbols(stack@) =~= symbols(old(stack)@).push(token@));
    assert forall|i: int| 0 <= i < symbols(stack@).len() implies valid_symbol(
        #[trigger] symbols(stack@)[i],
    ) by {
        if i < old(stack)@.len() {
            assert(symbols(stack@)[i] == symbols(old(stack)@)[i]);
        }
    }
}

/// Takes the top working token off a stack.
fn pop_symbol<T: MatrixNumber>(stack: &mut Vec<WorkingToken<T>>) -> (r: Option<WorkingToken<T>>)
    requires
        valid_symbols(symbols(old(stack)@)),
    ensures
        valid_symbols(symbols(final(stack)@)),
        match r {
            None => old(stack)@.len() == 0 && final(stack)@ == old(stack)@,
            Some(token) => old(stack)@.len() > 0 && token@ == symbols(old(stack)@).last()
                && symbols(final(stack)@) == symbols(old(stack)@).drop_last() && valid_symbol(
                token@,
            ),
        },
{
    let r = stack.pop();
    if r.is_some() {
        assert(symbols(stack@) =~= symbols(old(stack)@).drop_last());
        assert(valid_symbol(symbols(old(stack)@)[old(stack)@.len() - 1]));
        assert forall|i: int| 0 <= i < symbols(stack@).len() implies valid_symbol(
            #[trigger] symbols(stack@)[i],
        ) by {
            assert(symbols(stack@)[i] == symbols(old(stack)@)[i]);
        }
    }
    r
}

/// Puts a value on a stack.
fn push_value<T: MatrixNumber>(stack: &mut Vec<Type<T>>, value: Type<T>)
    requires
        valid_values(values(old(stack)@)),
        valid_value(value@),
    ensures
        values(final(stack)@) == values(old(stack)@).push(value@),
        valid_values(values(final(stack)@)),
{
    stack.push(value);
    assert(values(stack@) =~= values(old(stack)@).push(value@));
    assert forall|i: int| 0 <= i < values(stack@).len() implies valid_value(
        #[trigger] values(stack@)[i],
    ) by {
        if i < old(stack)@.len() {
            assert(values(stack@)[i] == values(old(stack)@)[i]);
        }
    }
}

/// Takes the top value off a stack.
fn pop_value<T: MatrixNumber>(stack: &mut Vec<Type<T>>) -> (r: Option<Type<T>>)
    requires
        valid_values(values(old(stack)@)),
    ensures
        valid_values(values(final(stack)@)),
        match r {
            None => old(stack)@.len() == 0 && final(stack)@ == old(stack)@,
            Some(value) => old(stack)@.len() > 0 && value@ == values(old(stack)@).last() && values(
                final(stack)@,
            ) == values(old(stack)@).drop_last() && valid_value(value@),
        },
{
    let r = stack.pop();
    if r.is_some() {
        assert(values(stack@) =~= values(old(stack)@).drop_last());
        assert(valid_value(values(old(stack)@)[old(stack)@.len() - 1]));
        assert forall|i: int| 0 <= i < values(stack@).len() implies valid_value(
            #[trigger] values(stack@)[i],
        ) by {
            assert(values(stack@)[i] == values(old(stack)@)[i]);
        }
    }
    r
}

/// What a binary operator gives for two values.
pub fn binary_op<T: MatrixNumber>(left: Type<T>, right: Type<T>, op: char) -> (r: Result<
    Type<T>,
    Error,
>)
    requires
        valid_value(left@),
        valid_value(right@),
    ensures
        match binary_value(left@, right@, op) {
            Ok(v) => r matches Ok(t) && t@ == v && valid_value(v),
            Err(e) => r matches Err(f) && f == e,
        },
{
    if op == '+' {
        match (left, right) {
            (Type::Matrix(l), Type::Matrix(r)) => Type::from_matrix_result(l.checked_add(&r)),
            (Type::Scalar(l), Type::Scalar(r)) => Type::from_scalar_option(l.checked_add(&r)),
            _ => Err(Error::TypeMismatch),
        }
    } else if op == '-' {
        match (left, right) {
            (Type::Matrix(l), Type::Matrix(r)) => Type::from_matrix_result(l.checked_sub(&r)),
            (Type::Scalar(l), Type::Scalar(r)) => Type::from_scalar_option(l.checked_sub(&r)),
            _ => Err(Error::TypeMismatch),
        }
    } else if op == '*' {
        match (left, right) {
            (Type::Matrix(l), Type::Matrix(r)) => Type::from_matrix_result(l.checked_mul(&r)),
            (Type::Scalar(l), Type::Scalar(r)) => Type::from_scalar_option(l.checked_mul(&r)),
            (Type::Matrix(l), Type::Scalar(r)) => Type::from_matrix_result(l.checked_mul_scl(&r)),
            (Type::Scalar(l), Type::Matrix(r)) => Type::from_matrix_result(r.checked_mul_scl(&l)),
        }
    } else if op == '/' {
        match (left, right) {
            (Type::Scalar(l), Type::Scalar(r)) => Type::from_scalar_option(l.checked_div(&r)),
            _ => Err(Error::TypeMismatch),
        }
    } else if op == '^' {
        match right {
            Type::Matrix(_) => Err(Error::TypeMismatch),
            Type::Scalar(exp) => {
                let exp = match exp.to_usize() {
                    None => { return Err(Error::ArithmeticFailure); },
                    Some(n) => n,
                };
                match left {
                    Type::Scalar(base) => Type::from_scalar_option(base.checked_pow(exp)),
                    Type::Matrix(base) => Type::from_matrix_result(base.checked_pow(exp)),
                }
            },
        }
    } else {
        Err(Error::Syntax)
    }
}

/// What a unary operator gives for a value.
pub fn unary_op<T: MatrixNumber>(arg: Type<T>, op: char) -> (r: Result<Type<T>, Error>)
    requires
        valid_value(arg@),
    ensures
        match unary_value(arg@, op) {
            Ok(v) => r matches Ok(t) && t@ == v && valid_value(v),
            Err(e) => r matches Err(f) && f == e,
        },
{
    if op == '+' {
        Ok(arg)
    } else if op == '-' {
        match arg {
            Type::Matrix(m) => Type::from_matrix_result(m.checked_neg()),
            Type::Scalar(s) => Type::from_scalar_option(T::zero().checked_sub(&s)),
        }
    } else {
        Err(Error::Syntax)
    }
}

/// How tightly a binary operator binds.
fn binds(c: char) -> (p: u8)
    ensures
        p == precedence(c),
{
    if c == '+' || c == '-' {
        0
    } else if c == '*' || c == '/' {
        1
    } else {
        2
    }
}

/// Whether `current` may follow a token of the kind `previous`.
fn validate_neighbours(previous: Option<Kind>, current: &Token) -> (b: bool)
    ensures
        b == neighbours_ok(previous, current@),
{
    match current {
        Token::Integer(_) | Token::Identifier(_) | Token::LeftBracket => match previous {
            None => true,
            Some(Kind::LeftBracket) => true,
            Some(Kind::BinaryOp) => true,
            Some(Kind::UnaryOp) => true,
            _ => false,
        },
        Token::Operator(_) => match previous {
            None => true,
            Some(Kind::RightBracket) => true,
            Some(Kind::Value) => true,
            Some(Kind::BinaryOp) => true,
            Some(Kind::LeftBracket) => true,
            _ => false,
        },
        Token::RightBracket => match previous {
            Some(Kind::RightBracket) => true,
            Some(Kind::Value) => true,
            _ => false,
        },
    }
}

/// Moves operators to the output until the opening bracket. Returns whether there
/// was one.
fn unwind_to_bracket<T: MatrixNumber>(
    operators: &mut Vec<WorkingToken<T>>,
    outputs: &mut Vec<WorkingToken<T>>,
) -> (found: bool)
    requires
        valid_symbols(symbols(old(operators)@)),
        valid_symbols(symbols(old(outputs)@)),
    ensures
        valid_symbols(symbols(final(operators)@)),
        valid_symbols(symbols(final(outputs)@)),
        match close_bracket(symbols(old(operators)@), symbols(old(outputs)@)) {
            None => !found,
            Some(closed) => found && symbols(final(operators)@) == closed.0 && symbols(
                final(outputs)@,
            ) == closed.1,
        },
{
    loop
        invariant
            valid_symbols(symbols(operators@)),
            valid_symbols(symbols(outputs@)),
            close_bracket(symbols(operators@), symbols(outputs@)) == close_bracket(
                symbols(old(operators)@),
                symbols(old(outputs)@),
            ),
        decreases operators@.len(),
    {
        match pop_symbol(operators) {
            None => { return false; },
            Some(op) => {
                if let WorkingToken::LeftBracket = op {
                    return true;
                }
                push_symbol(outputs, op);
            },
        }
    }
}

/// Moves a unary operator on top of the stack to the output.
fn move_unary<T: MatrixNumber>(
    operators: &mut Vec<WorkingToken<T>>,
    outputs: &mut Vec<WorkingToken<T>>,
)
    requires
        valid_symbols(symbols(old(operators)@)),
        valid_symbols(symbols(old(outputs)@)),
    ensures
        valid_symbols(symbols(final(operators)@)),
        valid_symbols(symbols(final(outputs)@)),
        symbols(final(operators)@) == release_unary(
            symbols(old(operators)@),
            symbols(old(outputs)@),
        ).0,
        symbols(final(outputs)@) == release_unary(
            symbols(old(operators)@),
            symbols(old(outputs)@),
        ).1,
{
    let ghost ops = symbols(operators@);
    match pop_symbol(operators) {
        None => {},
        Some(op) => {
            if let WorkingToken::UnaryOp(_) = op {
                push_symbol(outputs, op);
            } else {
                push_symbol(operators, op);
                assert(symbols(operators@) =~= ops);
            }
        },
    }
}

/// Moves to the output every operator on top of the stack that binds at least as
/// tightly as the binary operator `op`.
fn move_tighter<T: MatrixNumber>(
    operators: &mut Vec<WorkingToken<T>>,
    outputs: &mut Vec<WorkingToken<T>>,
    op: char,
)
    requires
        valid_symbols(symbols(old(operators)@)),
        valid_symbols(symbols(old(outputs)@)),
    ensures
        valid_symbols(symbols(final(operators)@)),
        valid_symbols(symbols(final(outputs)@)),
        symbols(final(operators)@) == yield_to(
            symbols(old(operators)@),
            symbols(old(outputs)@),
            op,
        ).0,
        symbols(final(outputs)@) == yield_to(symbols(old(operators)@), symbols(old(outputs)@), op).1,
{
    loop
        invariant
            valid_symbols(symbols(operators@)),
            valid_symbols(symbols(outputs@)),
            yield_to(symbols(operators@), symbols(outputs@), op) == yield_to(
                symbols(old(operators)@),
                symbols(old(outputs)@),
                op,
            ),
        decreases operators@.len(),
    {
        let ghost ops = symbols(operators@);
        match pop_symbol(operators) {
            None => { return ; },
            Some(stack_token) => {
                let moves = match &stack_token {
                    WorkingToken::BinaryOp(stack_op) => binds(*stack_op) >= binds(op),
                    WorkingToken::UnaryOp(_) => true,
                    _ => false,
                };
                if moves {
                    push_symbol(outputs, stack_token);
                } else {
                    push_symbol(operators, stack_token);
                    assert(symbols(operators@) =~= ops);
                    return ;
                }
            },
        }
    }
}

/// Takes one more token into the parser. Returns the kind of the token.
fn accept_token<T: MatrixNumber>(
    operators: &mut Vec<WorkingToken<T>>,
    outputs: &mut Vec<WorkingToken<T>>,
    previous: Option<Kind>,
    token: Token,
    env: &Environment<T>,
) -> (r: Result<Kind, Error>)
    requires
        env.wf(),
        valid_symbols(symbols(old(operators)@)),
        valid_symbols(symbols(old(outputs)@)),
    ensures
        valid_symbols(symbols(final(operators)@)),
        valid_symbols(symbols(final(outputs)@)),
        match accept(
            Shunting {
                operators: symbols(old(operators)@),
                outputs: symbols(old(outputs)@),
                previous,
            },
            token@,
            env@,
        ) {
            Err(e) => r matches Err(f) && f == e,
            Ok(next) => r matches Ok(kind) && next.previous == Some(kind) && symbols(
                final(operators)@,
            ) == next.operators && symbols(final(outputs)@) == next.outputs,
        },
{
    if !validate_neighbours(previous, &token) {
        return Err(Error::Syntax);
    }
    match token {
        Token::Integer(num) => {
            let value = match T::from_u64(num) {
                None => { return Err(Error::Lex); },
                Some(v) => v,
            };
            push_symbol(outputs, WorkingToken::Type(Type::Scalar(value)));
            Ok(Kind::Value)
        },
        Token::Identifier(id) => {
            let value = match env.get_value(&id) {
                None => { return Err(Error::UndefinedIdentifier); },
                Some(v) => v.duplicate(),
            };
            push_symbol(outputs, WorkingToken::Type(value));
            Ok(Kind::Value)
        },
        Token::LeftBracket => {
            push_symbol(operators, WorkingToken::LeftBracket);
            Ok(Kind::LeftBracket)
        },
        Token::RightBracket => {
            if !unwind_to_bracket(operators, outputs) {
                return Err(Error::Syntax);
            }
            move_unary(operators, outputs);
            Ok(Kind::RightBracket)
        },
        Token::Operator(op) => {
            let unary = match previous {
                None => true,
                Some(Kind::LeftBracket) => true,
                Some(Kind::BinaryOp) => true,
                _ => false,
            };
            if unary {
                if op == '+' || op == '-' {
                    push_symbol(operators, WorkingToken::UnaryOp(op));
                    Ok(Kind::UnaryOp)
                } else {
                    Err(Error::Syntax)
                }
            } else if op == '+' || op == '-' || op == '*' || op == '/' || op == '^' {
                move_tighter(operators, outputs, op);
                push_symbol(operators, WorkingToken::BinaryOp(op));
                Ok(Kind::BinaryOp)
            } else {
                Err(Error::Syntax)
            }
        },
    }
}

/// Moves what is left on the operator stack to the output. Returns whether no
/// bracket was left open.
fn drain_operators<T: MatrixNumber>(
    operators: &mut Vec<WorkingToken<T>>,
    outputs: &mut Vec<WorkingToken<T>>,
) -> (ok: bool)
    requires
        valid_symbols(symbols(old(operators)@)),
        valid_symbols(symbols(old(outputs)@)),
    ensures
        valid_symbols(symbols(final(outputs)@)),
        match drain(symbols(old(operators)@), symbols(old(outputs)@)) {
            None => !ok,
            Some(out) => ok && symbols(final(outputs)@) == out,
        },
{
    loop
        invariant
            valid_symbols(symbols(operators@)),
            valid_symbols(symbols(outputs@)),
            drain(symbols(operators@), symbols(outputs@)) == drain(
                symbols(old(operators)@),
                symbols(old(outputs)@),
            ),
        decreases operators@.len(),
    {
        match pop_symbol(operators) {
            None => { return true; },
            Some(token) => {
                if let WorkingToken::LeftBracket = token {
                    return false;
                }
                push_symbol(outputs, token);
            },
        }
    }
}

/// Evaluates a postfix sequence.
fn evaluate<T: MatrixNumber>(outputs: &Vec<WorkingToken<T>>) -> (r: Result<Type<T>, Error>)
    requires
        valid_symbols(symbols(outputs@)),
    ensures
        match eval_from(symbols(outputs@), 0, Seq::empty()) {
            Ok(v) => r matches Ok(t) && t@ == v && valid_value(v),
            Err(e) => r matches Err(f) && f == e,
        },
{
    let mut val_stack: Vec<Type<T>> = Vec::new();
    let mut k: usize = 0;
    assert(values(val_stack@) =~= Seq::<Value<T>>::empty());
    while k < outputs.len()
        invariant
            k <= outputs.len(),
            valid_symbols(symbols(outputs@)),
            valid_values(values(val_stack@)),
            eval_from(symbols(outputs@), k as int, values(val_stack@)) == eval_from(
                symbols(outputs@),
                0,
                Seq::empty(),
            ),
        decreases outputs.len() - k,
    {
        let ghost stack = values(val_stack@);
        assert(valid_symbol(symbols(outputs@)[k as int]));
        match &outputs[k] {
            WorkingToken::Type(value) => {
                push_value(&mut val_stack, value.duplicate());
            },
            WorkingToken::BinaryOp(op) => {
                let right = match pop_value(&mut val_stack) {
                    None => { return Err(Error::Syntax); },
                    Some(v) => v,
                };
                let left = match pop_value(&mut val_stack) {
                    None => { return Err(Error::Syntax); },
                    Some(v) => v,
                };
                assert(left@ == stack[stack.len() - 2]);
                let value = match binary_op(left, right, *op) {
                    Err(e) => { return Err(e); },
                    Ok(v) => v,
                };
                push_value(&mut val_stack, value);
            },
            WorkingToken::UnaryOp(op) => {
                let arg = match pop_value(&mut val_stack) {
                    None => { return Err(Error::Syntax); },
                    Some(v) => v,
                };
                let value = match unary_op(arg, *op) {
                    Err(e) => { return Err(e); },
                    Ok(v) => v,
                };
                push_value(&mut val_stack, value);
            },
            _ => { return Err(Error::Syntax); },
        }
        k += 1;
    }
    match pop_value(&mut val_stack) {
        None => Err(Error::Syntax),
        Some(v) => Ok(v),
    }
}

/// Evaluates the expression that the tokenizer has before it.
fn parse_remaining<T: MatrixNumber>(tokenizer: Tokenizer, env: &Environment<T>) -> (r: Result<
    Type<T>,
    Error,
>)
    requires
        tokenizer.wf(),
        env.wf(),
    ensures
        match evaluate_text(tokenizer.remaining(), env@) {
            Ok(v) => r matches Ok(t) && t@ == v && valid_value(v),
            Err(e) => r matches Err(f) && f == e,
        },
{
    let mut reader = tokenizer;
    let mut operators: Vec<WorkingToken<T>> = Vec::new();
    let mut outputs: Vec<WorkingToken<T>> = Vec::new();
    let mut prev_token: Option<Kind> = None;
    assert(symbols(operators@) =~= Seq::<Symbol<T>>::empty());
    assert(symbols(outputs@) =~= Seq::<Symbol<T>>::empty());
    loop
        invariant
            reader.wf(),
            env.wf(),
            valid_symbols(symbols(operators@)),
            valid_symbols(symbols(outputs@)),
            parse_tokens(
                reader.remaining(),
                Shunting {
                    operators: symbols(operators@),
                    outputs: symbols(outputs@),
                    previous: prev_token,
                },
                env@,
            ) == parse_tokens(tokenizer.remaining(), initial(), env@),
        ensures
            valid_symbols(symbols(operators@)),
            valid_symbols(symbols(outputs@)),
            parse_tokens(tokenizer.remaining(), initial::<T>(), env@) == Ok::<Shunting<T>, Error>(
                Shunting {
                    operators: symbols(operators@),
                    outputs: symbols(outputs@),
                    previous: prev_token,
                },
            ),
        decreases reader.remaining().len(),
    {
        proof {
            lemma_lexeme_consumes(reader.remaining());
        }
        let ghost before = reader.remaining();
        let token = match reader.next_token() {
            Err(e) => { return Err(e); },
            Ok(None) => {
                assert(next_lexeme(before) == Ok::<Option<(Lexeme, Seq<char>)>, Error>(None));
                break ;
            },
            Ok(Some(token)) => token,
        };
        prev_token = match accept_token(&mut operators, &mut outputs, prev_token, token, env) {
            Err(e) => { return Err(e); },
            Ok(kind) => Some(kind),
        };
    }
    if !drain_operators(&mut operators, &mut outputs) {
        return Err(Error::Syntax);
    }
    evaluate(&outputs)
}

/// The value of an expression over the values of an environment. The tokens are
/// ordered by operator precedence, unary signs binding tightest and operators of
/// one level grouping from the left, and then evaluated with checked arithmetic.
/// The environment is left as it is.
pub fn parse_expression<T: MatrixNumber>(raw: &str, env: &Environment<T>) -> (r: Result<
    Type<T>,
    Error,
>)
    requires
        env.wf(),
    ensures
        is_evaluation_of(r, raw@, env@),
        r matches Ok(t) ==> valid_value(t@),
{
    parse_remaining(Tokenizer::new(raw), env)
}

/// Carries out an instruction: an expression, whose value is bound to the name of
/// the last result, or a name, the assignment operator and an expression, whose
/// value is bound to the name. Returns the name that was bound. On failure the
/// environment is left as it was.
pub fn parse_instruction<T: MatrixNumber>(raw: &str, env: &mut Environment<T>) -> (r: Result<
    Identifier,
    Error,
>)
    requires
        old(env).wf(),
    ensures
        final(env).wf(),
        match instruction_effect(raw@, old(env)@) {
            Ok(effect) => r matches Ok(id) && id@ == effect.0 && final(env)@ == old(env)@.insert(
                effect.0,
                effect.1,
            ),
            Err(e) => r matches Err(f) && f == e && final(env)@ == old(env)@,
        },
{
    if let Ok(value) = parse_expression(raw, env) {
        env.insert(Identifier::result(), value);
        return Ok(Identifier::result());
    }
    let mut tokenizer = Tokenizer::new(raw);
    let id = match tokenizer.next_token() {
        Err(e) => { return Err(e); },
        Ok(Some(Token::Identifier(id))) => id,
        Ok(_) => { return Err(Error::Syntax); },
    };
    match tokenizer.next_token() {
        Err(e) => { return Err(e); },
        Ok(Some(Token::Operator(op))) => {
            if op != '=' {
                return Err(Error::Syntax);
            }
        },
        Ok(_) => { return Err(Error::Syntax); },
    }
    let value = match parse_remaining(tokenizer, env) {
        Err(e) => { return Err(e); },
        Ok(v) => v,
    };
    let name = id.duplicate();
    env.insert(id, value);
    Ok(name)
}

} // verus!
