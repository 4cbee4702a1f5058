//! The grammar of expressions, and that a text written for an expression has
//! the value of the expression.

use crate::environment::Value;
use crate::error::Error;
use crate::evaluation::{
    accept, binary_value, close_bracket, drain, eval_from, evaluate_text, initial, parse_tokens,
    precedence, unary_value, yield_to, Kind, Shunting, Symbol,
};
use crate::lexer::{lemma_lexeme_consumes, next_lexeme, Lexeme};
use crate::traits::MatrixNumber;
use vstd::prelude::*;

verus! {

/// An expression as a tree: numbers and names at the leaves, brackets, signs and
/// binary operators above them.
pub enum Tree {
    Number(u64),
    Name(Seq<char>),
    Bracket(Box<Tree>),
    Unary(char, Box<Tree>),
    Binary(char, Box<Tree>, Box<Tree>),
}

/// A tree that can stand where the grammar asks for an integer, an identifier or
/// an expression in brackets.
pub open spec fn is_atom(e: Tree) -> bool
    decreases e, 0nat,
{
    match e {
        Tree::Number(_) => true,
        Tree::Name(_) => true,
        Tree::Bracket(inner) => fits(*inner, 0),
        _ => false,
    }
}

/// A tree that can stand where the grammar asks for an operand: an atom, with a
/// sign before it or without.
pub open spec fn is_operand(e: Tree) -> bool
    decreases e, 1nat,
{
    match e {
        Tree::Unary(op, arg) => (op == '+' || op == '-') && is_atom(*arg),
        _ => is_atom(e),
    }
}

/// A tree that can stand, without brackets around it, where only operators of
/// precedence `k` or higher may show: an operand, or a binary operator of such a
/// precedence whose left side admits operators of the same precedence and whose
/// right side admits only higher ones, so that operators of one precedence group
/// from the left.
pub open spec fn fits(e: Tree, k: int) -> bool
    decreases e, 2nat,
{
    match e {
        Tree::Binary(op, left, right) => {
            &&& op == '+' || op == '-' || op == '*' || op == '/' || op == '^'
            &&& precedence(op) >= k
            &&& fits(*left, precedence(op))
            &&& fits(*right, precedence(op) + 1)
        },
        _ => is_operand(e),
    }
}

/// The tokens that a tree is written with.
pub open spec fn tokens(e: Tree) -> Seq<Lexeme>
    decreases e,
{
    match e {
        Tree::Number(n) => seq![Lexeme::Integer(n)],
        Tree::Name(x) => seq![Lexeme::Identifier(x)],
        Tree::Bracket(inner) => seq![Lexeme::LeftBracket] + tokens(*inner) + seq![
            Lexeme::RightBracket,
        ],
        Tree::Unary(op, arg) => seq![Lexeme::Operator(op)] + tokens(*arg),
        Tree::Binary(op, left, right) => tokens(*left) + seq![Lexeme::Operator(op)] + tokens(
            *right,
        ),
    }
}

/// Every number of the tree fits the element type and every name has a value.
pub open spec fn resolves<T: MatrixNumber>(e: Tree, env: Map<Seq<char>, Value<T>>) -> bool
    decreases e,
{
    match e {
        Tree::Number(n) => T::from_u64_spec(n).is_some(),
        Tree::Name(x) => env.contains_key(x),
        Tree::Bracket(inner) => resolves(*inner, env),
        Tree::Unary(_, arg) => resolves(*arg, env),
        Tree::Binary(_, left, right) => resolves(*left, env) && resolves(*right, env),
    }
}

/// The error of the first leaf, in the order of the text, that has no value: a
/// number that does not fit the element type, or a name that is not bound.
pub open spec fn first_failure<T: MatrixNumber>(e: Tree, env: Map<Seq<char>, Value<T>>) -> Option<
    Error,
>
    decreases e,
{
    match e {
        Tree::Number(n) => if T::from_u64_spec(n).is_some() {
            None
        } else {
            Some(Error::Lex)
        },
        Tree::Name(x) => if env.contains_key(x) {
            None
        } else {
            Some(Error::UndefinedIdentifier)
        },
        Tree::Bracket(inner) => first_failure(*inner, env),
        Tree::Unary(_, arg) => first_failure(*arg, env),
        Tree::Binary(_, left, right) => match first_failure(*left, env) {
            Some(err) => Some(err),
            None => first_failure(*right, env),
        },
    }
}

/// A tree has no failing leaf exactly when all its leaves have values.
pub proof fn lemma_failure_or_resolved<T: MatrixNumber>(e: Tree, env: Map<Seq<char>, Value<T>>)
    ensures
        first_failure(e, env).is_none() <==> resolves(e, env),
    decreases e,
{
    match e {
        Tree::Bracket(inner) => {
            lemma_failure_or_resolved(*inner, env);
        },
        Tree::Unary(_, arg) => {
            lemma_failure_or_resolved(*arg, env);
        },
        Tree::Binary(_, left, right) => {
            lemma_failure_or_resolved(*left, env);
            lemma_failure_or_resolved(*right, env);
        },
        _ => {},
    }
}

/// What an expression means: the error of its first leaf without a value, if
/// there is one; else the value of the tree.
pub open spec fn meaning<T: MatrixNumber>(e: Tree, env: Map<Seq<char>, Value<T>>) -> Result<
    Value<T>,
    Error,
> {
    match first_failure(e, env) {
        Some(err) => Err(err),
        None => value_of(e, env),
    }
}

/// The value of a tree: the values of its sides are computed first, the left one
/// before the right one, and then combined by the operator.
pub open spec fn value_of<T: MatrixNumber>(e: Tree, env: Map<Seq<char>, Value<T>>) -> Result<
    Value<T>,
    Error,
>
    decreases e,
{
    match e {
        Tree::Number(n) => Ok(Value::Scalar(T::from_u64_spec(n).unwrap())),
        Tree::Name(x) => Ok(env[x]),
        Tree::Bracket(inner) => value_of(*inner, env),
        Tree::Unary(op, arg) => match value_of(*arg, env) {
            Err(e) => Err(e),
            Ok(v) => unary_value(v, op),
        },
        Tree::Binary(op, left, right) => match value_of(*left, env) {
            Err(e) => Err(e),
            Ok(l) => match value_of(*right, env) {
                Err(e) => Err(e),
                Ok(r) => binary_value(l, r, op),
            },
        },
    }
}

/// The tree in postfix order, with its leaves replaced by their values.
pub open spec fn postfix<T: MatrixNumber>(e: Tree, env: Map<Seq<char>, Value<T>>) -> Seq<Symbol<T>>
    decreases e,
{
    match e {
        Tree::Number(n) => seq![Symbol::Value(Value::Scalar(T::from_u64_spec(n).unwrap()))],
        Tree::Name(x) => seq![Symbol::Value(env[x])],
        Tree::Bracket(inner) => postfix(*inner, env),
        Tree::Unary(op, arg) => postfix(*arg, env).push(Symbol::UnaryOp(op)),
        Tree::Binary(op, left, right) => (postfix(*left, env) + postfix(*right, env)).push(
            Symbol::BinaryOp(op),
        ),
    }
}

/// The parser after all of the given tokens, or the first error met on the way.
pub open spec fn accept_all<T: MatrixNumber>(
    ts: Seq<Lexeme>,
    state: Shunting<T>,
    env: Map<Seq<char>, Value<T>>,
) -> Result<Shunting<T>, Error>
    decreases ts.len(),
{
    if ts.len() == 0 {
        Ok(state)
    } else {
        match accept(state, ts[0], env) {
            Err(e) => Err(e),
            Ok(next) => accept_all(ts.drop_first(), next, env),
        }
    }
}

/// The tokens of a text, or the error of the first piece that is no token.
pub open spec fn tokens_of(input: Seq<char>) -> Result<Seq<Lexeme>, Error>
    decreases input.len(),
{
    match next_lexeme(input) {
        Err(e) => Err(e),
        Ok(None) => Ok(Seq::empty()),
        Ok(Some(pair)) => {
            proof {
                lemma_lexeme_consumes(input);
            }
            match tokens_of(pair.1) {
                Err(e) => Err(e),
                Ok(rest) => Ok(seq![pair.0] + rest),
            }
        },
    }
}

/// Parsing a text is taking in its tokens one after another.
pub proof fn lemma_parse_is_accept_all<T: MatrixNumber>(
    input: Seq<char>,
    state: Shunting<T>,
    env: Map<Seq<char>, Value<T>>,
)
    requires
        tokens_of(input) is Ok,
    ensures
        parse_tokens(input, state, env) == accept_all(tokens_of(input)->Ok_0, state, env),
    decreases input.len(),
{
    lemma_lexeme_consumes(input);
    if let Ok(Some(pair)) = next_lexeme(input) {
        let rest = tokens_of(pair.1)->Ok_0;
        let all = seq![pair.0] + rest;
        assert(all[0] == pair.0);
        assert(all.drop_first() =~= rest);
        if let Ok(next) = accept(state, pair.0, env) {
            lemma_parse_is_accept_all(pair.1, next, env);
        }
    }
}

/// Taking in two sequences of tokens one after the other is taking in their
/// concatenation.
pub proof fn lemma_accept_concat<T: MatrixNumber>(
    a: Seq<Lexeme>,
    b: Seq<Lexeme>,
    state: Shunting<T>,
    env: Map<Seq<char>, Value<T>>,
)
    ensures
        accept_all(a + b, state, env) == match accept_all(a, state, env) {
            Err(e) => Err(e),
            Ok(middle) => accept_all(b, middle, env),
        },
    decreases a.len(),
{
    if a.len() == 0 {
        assert(a + b =~= b);
    } else {
        assert((a + b)[0] == a[0]);
        assert((a + b).drop_first() =~= a.drop_first() + b);
        if let Ok(next) = accept(state, a[0], env) {
            lemma_accept_concat(a.drop_first(), b, next, env);
        }
    }
}

/// Taking in one token.
pub proof fn lemma_accept_one<T: MatrixNumber>(
    t: Lexeme,
    state: Shunting<T>,
    env: Map<Seq<char>, Value<T>>,
)
    ensures
        accept_all(seq![t], state, env) == accept(state, t, env),
{
    let ts = seq![t];
    assert(ts[0] == t);
    assert(ts.drop_first() =~= Seq::<Lexeme>::empty());
    if let Ok(next) = accept(state, t, env) {
        assert(accept_all(Seq::<Lexeme>::empty(), next, env) == Ok::<Shunting<T>, Error>(next));
    }
}

/// The operators that wait on the stack for their right sides: signs and binary
/// operators of precedence `k` or higher, no brackets and no values.
pub open spec fn waiting<T>(pending: Seq<Symbol<T>>, k: int) -> bool {
    forall|i: int|
        0 <= i < pending.len() ==> match #[trigger] pending[i] {
            Symbol::UnaryOp(_) => true,
            Symbol::BinaryOp(op) => precedence(op) >= k,
            _ => false,
        }
}

/// The stack below an expression whose operators have precedence `k` or higher
/// is out of their reach: it is empty, or its top is an opening bracket or a
/// binary operator of lower precedence.
pub open spec fn out_of_reach<T>(operators: Seq<Symbol<T>>, k: int) -> bool {
    operators.len() == 0 || match operators.last() {
        Symbol::LeftBracket => true,
        Symbol::BinaryOp(op) => precedence(op) < k,
        _ => false,
    }
}

/// A binary operator of precedence `k` or lower takes all waiting operators off
/// the stack, in the order of the stack, and leaves the stack below them alone.
pub proof fn lemma_yield_takes_waiting<T>(
    operators: Seq<Symbol<T>>,
    pending: Seq<Symbol<T>>,
    outputs: Seq<Symbol<T>>,
    op: char,
)
    requires
        waiting(pending, precedence(op)),
        out_of_reach(operators, precedence(op)),
    ensures
        yield_to(operators + pending, outputs, op) == (operators, outputs + pending.reverse()),
    decreases pending.len(),
{
    if pending.len() == 0 {
        assert(operators + pending =~= operators);
        assert(outputs + pending.reverse() =~= outputs);
    } else {
        let all = operators + pending;
        let top = pending.last();
        assert(all.last() == top);
        assert(all.drop_last() =~= operators + pending.drop_last());
        let shorter = pending.drop_last();
        assert(waiting(shorter, precedence(op))) by {
            assert forall|i: int| 0 <= i < shorter.len() implies match #[trigger] shorter[i] {
                Symbol::UnaryOp(_) => true,
                Symbol::BinaryOp(o) => precedence(o) >= precedence(op),
                _ => false,
            } by {
                assert(shorter[i] == pending[i]);
            }
        }
        assert(pending[pending.len() - 1] == top);
        lemma_yield_takes_waiting(operators, shorter, outputs.push(top), op);
        assert(outputs.push(top) + shorter.reverse() =~= outputs + pending.reverse());
    }
}

/// A closing bracket takes all waiting operators off the stack, in the order of
/// the stack, and the opening bracket below them.
pub proof fn lemma_close_takes_waiting<T>(
    operators: Seq<Symbol<T>>,
    pending: Seq<Symbol<T>>,
    outputs: Seq<Symbol<T>>,
    k: int,
)
    requires
        waiting(pending, k),
    ensures
        close_bracket(operators.push(Symbol::LeftBracket) + pending, outputs) == Some(
            (operators, outputs + pending.reverse()),
        ),
    decreases pending.len(),
{
    let base = operators.push(Symbol::LeftBracket);
    if pending.len() == 0 {
        assert(base + pending =~= base);
        assert(base.drop_last() =~= operators);
        assert(outputs + pending.reverse() =~= outputs);
    } else {
        let all = base + pending;
        let top = pending.last();
        assert(all.last() == top);
        assert(pending[pending.len() - 1] == top);
        assert(all.drop_last() =~= base + pending.drop_last());
        let shorter = pending.drop_last();
        assert(waiting(shorter, k)) by {
            assert forall|i: int| 0 <= i < shorter.len() implies match #[trigger] shorter[i] {
                Symbol::UnaryOp(_) => true,
                Symbol::BinaryOp(o) => precedence(o) >= k,
                _ => false,
            } by {
                assert(shorter[i] == pending[i]);
            }
        }
        lemma_close_takes_waiting(operators, shorter, outputs.push(top), k);
        assert(outputs.push(top) + shorter.reverse() =~= outputs + pending.reverse());
    }
}

/// At the end of the text all waiting operators go to the output, in the order of
/// the stack.
pub proof fn lemma_drain_takes_waiting<T>(pending: Seq<Symbol<T>>, outputs: Seq<Symbol<T>>, k: int)
    requires
        waiting(pending, k),
    ensures
        drain(pending, outputs) == Some(outputs + pending.reverse()),
    decreases pending.len(),
{
    if pending.len() == 0 {
        assert(outputs + pending.reverse() =~= outputs);
    } else {
        let top = pending.last();
        assert(pending[pending.len() - 1] == top);
        let shorter = pending.drop_last();
        assert(waiting(shorter, k)) by {
            assert forall|i: int| 0 <= i < shorter.len() implies match #[trigger] shorter[i] {
                Symbol::UnaryOp(_) => true,
                Symbol::BinaryOp(o) => precedence(o) >= k,
                _ => false,
            } by {
                assert(shorter[i] == pending[i]);
            }
        }
        lemma_drain_takes_waiting(shorter, outputs.push(top), k);
        assert(outputs.push(top) + shorter.reverse() =~= outputs + pending.reverse());
    }
}

/// The parser is where an operand may start: at the start of the text, after an
/// opening bracket or after a binary operator.
pub open spec fn at_start(previous: Option<Kind>) -> bool {
    previous == None::<Kind> || previous == Some(Kind::LeftBracket) || previous == Some(
        Kind::BinaryOp,
    )
}

/// The parser has just taken in an operand.
pub open spec fn after_operand(previous: Option<Kind>) -> bool {
    previous == Some(Kind::Value) || previous == Some(Kind::RightBracket)
}

/// What taking in the tokens of an atom does: the value of the atom goes to the
/// output; and if the atom is in brackets and a sign stands directly before it,
/// the sign leaves the stack and follows the value. Returns whether the sign
/// left the stack.
pub proof fn lemma_atom<T: MatrixNumber>(
    e: Tree,
    state: Shunting<T>,
    env: Map<Seq<char>, Value<T>>,
) -> (released: bool)
    requires
        is_atom(e),
        at_start(state.previous) || state.previous == Some(Kind::UnaryOp),
        state.previous == Some(Kind::UnaryOp) ==> state.operators.len() > 0
            && state.operators.last() is UnaryOp,
        state.previous != Some(Kind::UnaryOp) ==> out_of_reach(state.operators, 3),
    ensures
        first_failure(e, env) matches Some(err) ==> accept_all(tokens(e), state, env) == Err::<
            Shunting<T>,
            Error,
        >(err),
        first_failure(e, env).is_none() ==> (accept_all(tokens(e), state, env) matches Ok(after)
            && after_operand(after.previous) && (if released {
            state.previous == Some(Kind::UnaryOp) && after.operators
                == state.operators.drop_last() && after.outputs == (state.outputs + postfix(
                e,
                env,
            )).push(state.operators.last())
        } else {
            after.operators == state.operators && after.outputs == state.outputs + postfix(
                e,
                env,
            )
        })),
    decreases e, 0nat,
{
    match e {
        Tree::Number(n) => {
            lemma_accept_one(Lexeme::Integer(n), state, env);
            assert(state.outputs.push(postfix(e, env)[0]) =~= state.outputs + postfix(e, env));
            false
        },
        Tree::Name(x) => {
            lemma_accept_one(Lexeme::Identifier(x), state, env);
            assert(state.outputs.push(postfix(e, env)[0]) =~= state.outputs + postfix(e, env));
            false
        },
        Tree::Bracket(inner) => {
            let open = seq![Lexeme::LeftBracket];
            let close = seq![Lexeme::RightBracket];
            lemma_accept_concat(open + tokens(*inner), close, state, env);
            lemma_accept_concat(open, tokens(*inner), state, env);
            lemma_accept_one(Lexeme::LeftBracket, state, env);
            let opened = Shunting {
                operators: state.operators.push(Symbol::LeftBracket),
                outputs: state.outputs,
                previous: Some(Kind::LeftBracket),
            };
            assert(accept(state, Lexeme::LeftBracket, env) == Ok::<Shunting<T>, Error>(opened));
            let (pending, emitted) = lemma_fits(*inner, 0, opened, env);
            if first_failure(*inner, env).is_none() {
                let inside = accept_all(tokens(*inner), opened, env)->Ok_0;
                lemma_accept_one(Lexeme::RightBracket, inside, env);
                lemma_close_takes_waiting(state.operators, pending, inside.outputs, 0);
                assert(inside.outputs + pending.reverse() =~= state.outputs + postfix(e, env));
            }
            if state.previous == Some(Kind::UnaryOp) {
                true
            } else {
                false
            }
        },
        _ => { false },
    }
}

/// What taking in the tokens of an operand does: the stack grows by the operators
/// that wait, a sign at most, and the output by what is emitted; the two together
/// are the operand in postfix order. Returns the waiting operators and what was
/// emitted.
pub proof fn lemma_operand<T: MatrixNumber>(
    e: Tree,
    state: Shunting<T>,
    env: Map<Seq<char>, Value<T>>,
) -> (r: (Seq<Symbol<T>>, Seq<Symbol<T>>))
    requires
        is_operand(e),
        at_start(state.previous),
        out_of_reach(state.operators, 3),
    ensures
        first_failure(e, env) matches Some(err) ==> accept_all(tokens(e), state, env) == Err::<
            Shunting<T>,
            Error,
        >(err),
        first_failure(e, env).is_none() ==> (accept_all(tokens(e), state, env) matches Ok(after)
            && after_operand(after.previous) && after.operators == state.operators + r.0
            && after.outputs == state.outputs + r.1),
        waiting(r.0, 3),
        r.1 + r.0.reverse() == postfix(e, env),
    decreases e, 1nat,
{
    match e {
        Tree::Unary(op, arg) => {
            lemma_accept_concat(seq![Lexeme::Operator(op)], tokens(*arg), state, env);
            lemma_accept_one(Lexeme::Operator(op), state, env);
            let signed = Shunting {
                operators: state.operators.push(Symbol::UnaryOp(op)),
                outputs: state.outputs,
                previous: Some(Kind::UnaryOp),
            };
            assert(accept(state, Lexeme::Operator(op), env) == Ok::<Shunting<T>, Error>(signed));
            let released = lemma_atom(*arg, signed, env);
            let sign = seq![Symbol::<T>::UnaryOp(op)];
            assert(signed.operators.drop_last() =~= state.operators);
            if released {
                let pending = Seq::<Symbol<T>>::empty();
                let emitted = postfix(*arg, env).push(Symbol::UnaryOp(op));
                assert(state.operators + pending =~= state.operators);
                assert((state.outputs + postfix(*arg, env)).push(Symbol::UnaryOp(op))
                    =~= state.outputs + emitted);
                assert(emitted + pending.reverse() =~= postfix(e, env));
                (pending, emitted)
            } else {
                let emitted = postfix(*arg, env);
                assert(state.operators.push(Symbol::UnaryOp(op)) =~= state.operators + sign);
                assert(sign.reverse() =~= sign);
                assert(emitted + sign.reverse() =~= postfix(e, env));
                (sign, emitted)
            }
        },
        _ => {
            let released = lemma_atom(e, state, env);
            let pending = Seq::<Symbol<T>>::empty();
            assert(state.operators + pending =~= state.operators);
            assert(postfix(e, env) + pending.reverse() =~= postfix(e, env));
            (pending, postfix(e, env))
        },
    }
}

/// What taking in the tokens of an expression does, where the stack below is out
/// of reach of its operators: the stack grows by the operators that wait for
/// their right sides, and the output by what is emitted; the two together are the
/// expression in postfix order. Returns the waiting operators and what was
/// emitted.
pub proof fn lemma_fits<T: MatrixNumber>(
    e: Tree,
    k: int,
    state: Shunting<T>,
    env: Map<Seq<char>, Value<T>>,
) -> (r: (Seq<Symbol<T>>, Seq<Symbol<T>>))
    requires
        fits(e, k),
        0 <= k <= 3,
        at_start(state.previous),
        out_of_reach(state.operators, k),
    ensures
        first_failure(e, env) matches Some(err) ==> accept_all(tokens(e), state, env) == Err::<
            Shunting<T>,
            Error,
        >(err),
        first_failure(e, env).is_none() ==> (accept_all(tokens(e), state, env) matches Ok(after)
            && after_operand(after.previous) && after.operators == state.operators + r.0
            && after.outputs == state.outputs + r.1),
        waiting(r.0, k),
        r.1 + r.0.reverse() == postfix(e, env),
    decreases e, 2nat,
{
    match e {
        Tree::Binary(op, left, right) => {
            let q = precedence(op);
            let operator = seq![Lexeme::Operator(op)];
            lemma_accept_concat(tokens(*left) + operator, tokens(*right), state, env);
            lemma_accept_concat(tokens(*left), operator, state, env);
            let (pending1, emitted1) = lemma_fits(*left, q, state, env);
            let pushed = Shunting {
                operators: state.operators.push(Symbol::BinaryOp(op)),
                outputs: state.outputs + postfix(*left, env),
                previous: Some(Kind::BinaryOp),
            };
            if first_failure(*left, env).is_none() {
                let first = accept_all(tokens(*left), state, env)->Ok_0;
                lemma_accept_one(Lexeme::Operator(op), first, env);
                lemma_yield_takes_waiting(state.operators, pending1, first.outputs, op);
                assert(first.outputs + pending1.reverse() =~= state.outputs + postfix(
                    *left,
                    env,
                ));
                assert(accept(first, Lexeme::Operator(op), env) == Ok::<Shunting<T>, Error>(
                    pushed,
                ));
            }
            let (pending2, emitted2) = lemma_fits(*right, q + 1, pushed, env);
            let symbol = seq![Symbol::<T>::BinaryOp(op)];
            let pending = symbol + pending2;
            let emitted = postfix(*left, env) + emitted2;
            assert(pushed.operators + pending2 =~= state.operators + pending);
            assert(pushed.outputs + emitted2 =~= state.outputs + emitted);
            assert(waiting(pending, k)) by {
                assert forall|i: int| 0 <= i < pending.len() implies match #[trigger] pending[i] {
                    Symbol::UnaryOp(_) => true,
                    Symbol::BinaryOp(o) => precedence(o) >= k,
                    _ => false,
                } by {
                    if i > 0 {
                        assert(pending[i] == pending2[i - 1]);
                    }
                }
            }
            assert(pending.reverse() =~= pending2.reverse() + symbol);
            assert(emitted + pending.reverse() =~= postfix(e, env)) by {
                assert(emitted2 + pending2.reverse() == postfix(*right, env));
                assert(emitted + pending.reverse() =~= (postfix(*left, env) + (emitted2
                    + pending2.reverse())) + symbol);
            }
            (pending, emitted)
        },
        _ => {
            let (pending, emitted) = lemma_operand(e, state, env);
            assert(waiting(pending, k)) by {
                assert forall|i: int| 0 <= i < pending.len() implies match #[trigger] pending[i] {
                    Symbol::UnaryOp(_) => true,
                    Symbol::BinaryOp(o) => precedence(o) >= k,
                    _ => false,
                } by {}
            }
            (pending, emitted)
        },
    }
}

/// Evaluating the postfix form of a tree computes the value of the tree: from the
/// place where the postfix form starts, the evaluation either fails as the tree
/// does, or goes on behind it with the value of the tree on the stack.
pub proof fn lemma_postfix_value<T: MatrixNumber>(
    e: Tree,
    env: Map<Seq<char>, Value<T>>,
    outputs: Seq<Symbol<T>>,
    k: int,
    stack: Seq<Value<T>>,
)
    requires
        0 <= k,
        k + postfix(e, env).len() <= outputs.len(),
        outputs.subrange(k, k + postfix(e, env).len()) == postfix(e, env),
    ensures
        eval_from(outputs, k, stack) == match value_of(e, env) {
            Err(err) => Err(err),
            Ok(v) => eval_from(outputs, k + postfix(e, env).len(), stack.push(v)),
        },
    decreases e,
{
    let post = postfix(e, env);
    let part = outputs.subrange(k, k + post.len());
    match e {
        Tree::Number(n) => {
            assert(outputs[k] == part[0]);
        },
        Tree::Name(x) => {
            assert(outputs[k] == part[0]);
        },
        Tree::Bracket(inner) => {
            lemma_postfix_value(*inner, env, outputs, k, stack);
        },
        Tree::Unary(op, arg) => {
            let inner = postfix(*arg, env);
            assert(outputs.subrange(k, k + inner.len()) =~= inner) by {
                assert forall|i: int| 0 <= i < inner.len() implies outputs[k + i] == inner[i] by {
                    assert(outputs[k + i] == part[i]);
                }
            }
            lemma_postfix_value(*arg, env, outputs, k, stack);
            assert(outputs[k + inner.len()] == part[inner.len() as int]);
            if let Ok(v) = value_of(*arg, env) {
                let grown = stack.push(v);
                assert(grown.last() == v);
                assert(grown.drop_last() =~= stack);
            }
        },
        Tree::Binary(op, left, right) => {
            let first = postfix(*left, env);
            let second = postfix(*right, env);
            assert(outputs.subrange(k, k + first.len()) =~= first) by {
                assert forall|i: int| 0 <= i < first.len() implies outputs[k + i] == first[i] by {
                    assert(outputs[k + i] == part[i]);
                }
            }
            assert(outputs.subrange(k + first.len(), k + first.len() + second.len())
                =~= second) by {
                assert forall|i: int| 0 <= i < second.len() implies outputs[k + first.len() + i]
                    == second[i] by {
                    assert(outputs[k + first.len() + i] == part[first.len() + i]);
                }
            }
            lemma_postfix_value(*left, env, outputs, k, stack);
            assert(outputs[k + first.len() + second.len()] == part[(first.len()
                + second.len()) as int]);
            if let Ok(l) = value_of(*left, env) {
                lemma_postfix_value(*right, env, outputs, k + first.len(), stack.push(l));
                if let Ok(r) = value_of(*right, env) {
                    let grown = stack.push(l).push(r);
                    assert(grown.last() == r);
                    assert(grown[grown.len() - 2] == l);
                    assert(grown.drop_last().drop_last() =~= stack);
                }
            }
        },
    }
}

/// The value of a text is the meaning of the tree that it is written for: where
/// the tokens of the text are those of a tree that the grammar admits, the
/// evaluation of the text fails with the error of the first number that does not
/// fit or the first name without a value, if there is one, and else gives the
/// value of the tree, or fails as the computation of that value does.
pub proof fn lemma_text_means_its_tree<T: MatrixNumber>(
    input: Seq<char>,
    e: Tree,
    env: Map<Seq<char>, Value<T>>,
)
    requires
        tokens_of(input) == Ok::<Seq<Lexeme>, Error>(tokens(e)),
        fits(e, 0),
    ensures
        evaluate_text(input, env) == meaning(e, env),
{
    let start = initial::<T>();
    lemma_parse_is_accept_all(input, start, env);
    let (pending, emitted) = lemma_fits(e, 0, start, env);
    if first_failure(e, env).is_none() {
        let after = accept_all(tokens(e), start, env)->Ok_0;
        assert(after.operators =~= pending);
        assert(after.outputs =~= emitted);
        lemma_drain_takes_waiting(pending, emitted, 0);
        let post = postfix(e, env);
        assert(post.subrange(0, post.len() as int) =~= post);
        lemma_postfix_value(e, env, post, 0, Seq::empty());
        if let Ok(v) = value_of(e, env) {
            let stack = Seq::<Value<T>>::empty().push(v);
            assert(stack.last() == v);
        }
    }
}

} // verus!
