//! Only the texts of the grammar have a value.
//!
//! While the parser takes in tokens, what it holds on its stack and in its
//! output is described by frames: one for the text before the first bracket
//! that is still open, and one for each such bracket. Each token advances the
//! frames as it advances the parser, and at the end a single frame with an
//! operand is left, which is the expression that the text was written for.

use crate::environment::Value;
use crate::error::Error;
use crate::evaluation::{
    accept, binary_value, close_bracket, drain, eval_from, evaluate_text, initial, parse_tokens,
    precedence, release_unary, unary_value, Kind, Shunting, Symbol,
};
use crate::lexer::{lemma_lexeme_consumes, next_lexeme, Lexeme};
use crate::theory::grammar::{
    accept_all, after_operand, fits, is_atom, is_operand, lemma_close_takes_waiting,
    lemma_drain_takes_waiting, lemma_parse_is_accept_all, lemma_postfix_value,
    lemma_text_means_its_tree, lemma_yield_takes_waiting, meaning, out_of_reach, postfix, tokens,
    tokens_of, value_of, waiting, Tree,
};
use crate::traits::MatrixNumber;
use vstd::prelude::*;

verus! {

/// A left side with the binary operator that waits for its right side.
pub struct Side {
    pub tree: Tree,
    pub op: char,
}

/// What the parser has read between an opening bracket, or the start of the text,
/// and the place where it stands: left sides with their binary operators that
/// wait for their right sides, then a sign that waits for its atom, then the
/// operand that was read last.
pub struct Frame {
    pub pending: Seq<Side>,
    pub sign: Option<char>,
    pub operand: Option<Tree>,
}

/// One of the five binary operators.
pub open spec fn is_binary(op: char) -> bool {
    op == '+' || op == '-' || op == '*' || op == '/' || op == '^'
}

/// The operand of a frame with its sign, if it has both.
pub open spec fn signed_operand(f: Frame) -> Tree
    recommends
        f.operand.is_some(),
{
    match f.sign {
        Some(u) => Tree::Unary(u, Box::new(f.operand.unwrap())),
        None => f.operand.unwrap(),
    }
}

/// The binary operators of the left sides, as they stand on the stack.
pub open spec fn operators_of<T>(pending: Seq<Side>) -> Seq<Symbol<T>>
    decreases pending.len(),
{
    if pending.len() == 0 {
        Seq::empty()
    } else {
        operators_of::<T>(pending.drop_last()).push(Symbol::BinaryOp(pending.last().op))
    }
}

/// The operators of the left sides stand on the stack one for one.
pub proof fn lemma_operators_of<T>(pending: Seq<Side>)
    ensures
        operators_of::<T>(pending).len() == pending.len(),
        forall|i: int|
            0 <= i < pending.len() ==> #[trigger] operators_of::<T>(pending)[i]
                == Symbol::<T>::BinaryOp(pending[i].op),
    decreases pending.len(),
{
    if pending.len() > 0 {
        lemma_operators_of::<T>(pending.drop_last());
        assert forall|i: int| 0 <= i < pending.len() implies #[trigger] operators_of::<T>(
            pending,
        )[i] == Symbol::<T>::BinaryOp(pending[i].op) by {
            if i < pending.len() - 1 {
                assert(operators_of::<T>(pending)[i] == operators_of::<T>(pending.drop_last())[i]);
                assert(pending.drop_last()[i] == pending[i]);
            }
        }
    }
}

/// The sign as it stands on the stack.
pub open spec fn sign_symbol<T>(sign: Option<char>) -> Seq<Symbol<T>> {
    match sign {
        Some(u) => seq![Symbol::UnaryOp(u)],
        None => Seq::empty(),
    }
}

/// The left sides in postfix order, one after another.
pub open spec fn sides_postfix<T: MatrixNumber>(
    pending: Seq<Side>,
    env: Map<Seq<char>, Value<T>>,
) -> Seq<Symbol<T>>
    decreases pending.len(),
{
    if pending.len() == 0 {
        Seq::empty()
    } else {
        sides_postfix(pending.drop_last(), env) + postfix(pending.last().tree, env)
    }
}

/// The tokens of the left sides, each followed by its operator.
pub open spec fn sides_tokens(pending: Seq<Side>) -> Seq<Lexeme>
    decreases pending.len(),
{
    if pending.len() == 0 {
        Seq::empty()
    } else {
        sides_tokens(pending.drop_last()) + tokens(pending.last().tree) + seq![
            Lexeme::Operator(pending.last().op),
        ]
    }
}

/// What a frame has on the operator stack.
pub open spec fn frame_stack<T>(f: Frame) -> Seq<Symbol<T>> {
    operators_of(f.pending) + sign_symbol(f.sign)
}

/// What a frame has in the output.
pub open spec fn frame_output<T: MatrixNumber>(f: Frame, env: Map<Seq<char>, Value<T>>) -> Seq<
    Symbol<T>,
> {
    sides_postfix(f.pending, env) + (match f.operand {
        Some(t) => postfix(t, env),
        None => Seq::empty(),
    })
}

/// The tokens that a frame was read from.
pub open spec fn frame_tokens(f: Frame) -> Seq<Lexeme> {
    sides_tokens(f.pending) + (match f.sign {
        Some(u) => seq![Lexeme::Operator(u)],
        None => Seq::empty(),
    }) + (match f.operand {
        Some(t) => tokens(t),
        None => Seq::empty(),
    })
}

/// The operator stack of nested frames: each frame's own, with an opening bracket
/// between a frame and the next.
pub open spec fn stack_of<T>(frames: Seq<Frame>) -> Seq<Symbol<T>>
    decreases frames.len(),
{
    if frames.len() == 0 {
        Seq::empty()
    } else if frames.len() == 1 {
        frame_stack(frames[0])
    } else {
        stack_of::<T>(frames.drop_last()).push(Symbol::LeftBracket) + frame_stack(frames.last())
    }
}

/// The output of nested frames.
pub open spec fn output_of<T: MatrixNumber>(frames: Seq<Frame>, env: Map<Seq<char>, Value<T>>) -> Seq<
    Symbol<T>,
>
    decreases frames.len(),
{
    if frames.len() == 0 {
        Seq::empty()
    } else {
        output_of(frames.drop_last(), env) + frame_output(frames.last(), env)
    }
}

/// The tokens that nested frames were read from.
pub open spec fn tokens_read(frames: Seq<Frame>) -> Seq<Lexeme>
    decreases frames.len(),
{
    if frames.len() == 0 {
        Seq::empty()
    } else if frames.len() == 1 {
        frame_tokens(frames[0])
    } else {
        tokens_read(frames.drop_last()).push(Lexeme::LeftBracket) + frame_tokens(frames.last())
    }
}

/// A frame is as the grammar wants it: the operators of the left sides are binary
/// and rise in precedence, each left side admits the operators of its own
/// precedence, a sign is a plus or a minus, and the operand is an atom behind a
/// sign and an operand without one.
pub open spec fn frame_ok(f: Frame) -> bool {
    &&& forall|i: int|
        0 <= i < f.pending.len() ==> is_binary((#[trigger] f.pending[i]).op) && fits(
            f.pending[i].tree,
            precedence(f.pending[i].op),
        )
    &&& forall|i: int, j: int|
        0 <= i < j < f.pending.len() ==> precedence((#[trigger] f.pending[i]).op) < precedence(
            (#[trigger] f.pending[j]).op,
        )
    &&& f.sign matches Some(u) ==> u == '+' || u == '-'
    &&& f.operand matches Some(t) ==> (if f.sign.is_some() {
        is_atom(t)
    } else {
        is_operand(t)
    })
}

/// Nested frames are as the grammar wants them: each is, and all but the last
/// wait for an operand, which the next frame is to become.
pub open spec fn frames_ok(frames: Seq<Frame>) -> bool {
    &&& frames.len() > 0
    &&& forall|i: int| 0 <= i < frames.len() ==> frame_ok(#[trigger] frames[i])
    &&& forall|i: int| 0 <= i < frames.len() - 1 ==> (#[trigger] frames[i]).operand.is_none()
}

/// The kind of the last token that nested frames were read from.
pub open spec fn last_kind_matches(previous: Option<Kind>, frames: Seq<Frame>) -> bool {
    let f = frames.last();
    if f.operand.is_some() {
        after_operand(previous)
    } else if f.sign.is_some() {
        previous == Some(Kind::UnaryOp)
    } else if f.pending.len() > 0 {
        previous == Some(Kind::BinaryOp)
    } else if frames.len() == 1 {
        previous == None::<Kind>
    } else {
        previous == Some(Kind::LeftBracket)
    }
}

/// The parser stands where the frames say.
pub open spec fn represents<T: MatrixNumber>(
    frames: Seq<Frame>,
    state: Shunting<T>,
    env: Map<Seq<char>, Value<T>>,
) -> bool {
    &&& state.operators == stack_of::<T>(frames)
    &&& state.outputs == output_of(frames, env)
    &&& last_kind_matches(state.previous, frames)
}

/// The tree that left sides and a last right side make: the last operator, which
/// binds tightest, takes the right side, and so on down to the first.
pub open spec fn collapse(pending: Seq<Side>, right: Tree) -> Tree
    decreases pending.len(),
{
    if pending.len() == 0 {
        right
    } else {
        collapse(
            pending.drop_last(),
            Tree::Binary(pending.last().op, Box::new(pending.last().tree), Box::new(right)),
        )
    }
}

/// The left sides are as the grammar wants them, and their operators have
/// precedence `k` or higher.
pub open spec fn sides_ok(pending: Seq<Side>, k: int) -> bool {
    &&& forall|i: int|
        0 <= i < pending.len() ==> is_binary((#[trigger] pending[i]).op) && fits(
            pending[i].tree,
            precedence(pending[i].op),
        ) && precedence(pending[i].op) >= k
    &&& forall|i: int, j: int|
        0 <= i < j < pending.len() ==> precedence((#[trigger] pending[i]).op) < precedence(
            (#[trigger] pending[j]).op,
        )
}

/// The tree of left sides and a right side is written with their tokens, reads in
/// postfix order as they do, followed by the operators from the last to the
/// first, and is admitted by the grammar where its operators are.
pub proof fn lemma_collapse<T: MatrixNumber>(
    pending: Seq<Side>,
    right: Tree,
    k: int,
    env: Map<Seq<char>, Value<T>>,
)
    requires
        sides_ok(pending, k),
        pending.len() > 0 ==> fits(right, precedence(pending.last().op) + 1),
        pending.len() == 0 ==> fits(right, k),
    ensures
        tokens(collapse(pending, right)) == sides_tokens(pending) + tokens(right),
        postfix(collapse(pending, right), env) == sides_postfix(pending, env) + postfix(
            right,
            env,
        ) + operators_of::<T>(pending).reverse(),
        fits(collapse(pending, right), k),
    decreases pending.len(),
{
    if pending.len() == 0 {
        assert(sides_tokens(pending) + tokens(right) =~= tokens(right));
        let none = operators_of::<T>(pending);
        assert(none.reverse() =~= Seq::<Symbol<T>>::empty());
        assert(sides_postfix(pending, env) + postfix(right, env) + none.reverse() =~= postfix(
            right,
            env,
        ));
    } else {
        let last = pending.last();
        let shorter = pending.drop_last();
        let joined = Tree::Binary(last.op, Box::new(last.tree), Box::new(right));
        assert(pending[pending.len() - 1] == last);
        assert(sides_ok(shorter, k)) by {
            assert forall|i: int| 0 <= i < shorter.len() implies is_binary(
                (#[trigger] shorter[i]).op,
            ) && fits(shorter[i].tree, precedence(shorter[i].op)) && precedence(shorter[i].op)
                >= k by {
                assert(shorter[i] == pending[i]);
            }
            assert forall|i: int, j: int| 0 <= i < j < shorter.len() implies precedence(
                (#[trigger] shorter[i]).op,
            ) < precedence((#[trigger] shorter[j]).op) by {
                assert(shorter[i] == pending[i]);
                assert(shorter[j] == pending[j]);
            }
        }
        assert(fits(joined, precedence(last.op)));
        if shorter.len() > 0 {
            assert(shorter.last() == pending[pending.len() - 2]);
            assert(precedence(pending[pending.len() - 2].op) < precedence(
                pending[pending.len() - 1].op,
            ));
            assert(fits(joined, precedence(shorter.last().op) + 1));
        } else {
            assert(fits(joined, k));
        }
        lemma_collapse(shorter, joined, k, env);
        assert(sides_tokens(shorter) + tokens(joined) =~= sides_tokens(pending) + tokens(right));
        let ops = operators_of::<T>(pending);
        let fewer = operators_of::<T>(shorter);
        let top = seq![Symbol::<T>::BinaryOp(last.op)];
        assert(ops =~= fewer + top);
        assert(ops.reverse() =~= top + fewer.reverse());
        assert(sides_postfix(shorter, env) + postfix(joined, env) + operators_of::<T>(
            shorter,
        ).reverse() =~= sides_postfix(pending, env) + postfix(right, env) + ops.reverse());
    }
}

/// The stack below the last frame: nothing for a single frame, else the stack of
/// the frames before and the opening bracket.
pub open spec fn stack_below<T>(frames: Seq<Frame>) -> Seq<Symbol<T>> {
    if frames.len() <= 1 {
        Seq::empty()
    } else {
        stack_of::<T>(frames.drop_last()).push(Symbol::LeftBracket)
    }
}

/// The tokens before the last frame.
pub open spec fn tokens_below(frames: Seq<Frame>) -> Seq<Lexeme> {
    if frames.len() <= 1 {
        Seq::empty()
    } else {
        tokens_read(frames.drop_last()).push(Lexeme::LeftBracket)
    }
}

/// Stack, output and tokens of nested frames are those below the last frame
/// followed by those of the last frame.
pub proof fn lemma_last_frame<T: MatrixNumber>(frames: Seq<Frame>, env: Map<Seq<char>, Value<T>>)
    requires
        frames.len() > 0,
    ensures
        stack_of::<T>(frames) == stack_below::<T>(frames) + frame_stack::<T>(frames.last()),
        output_of(frames, env) == output_of(frames.drop_last(), env) + frame_output(
            frames.last(),
            env,
        ),
        tokens_read(frames) == tokens_below(frames) + frame_tokens(frames.last()),
        out_of_reach(stack_below::<T>(frames), 0),
{
    if frames.len() == 1 {
        assert(frames[0] == frames.last());
        assert(stack_below::<T>(frames) + frame_stack::<T>(frames.last()) =~= frame_stack::<T>(
            frames.last(),
        ));
        assert(tokens_below(frames) + frame_tokens(frames.last()) =~= frame_tokens(
            frames.last(),
        ));
    }
}

/// The frames with the last one replaced.
pub open spec fn with_last(frames: Seq<Frame>, f: Frame) -> Seq<Frame> {
    frames.drop_last().push(f)
}

/// Replacing the last frame leaves what is below it.
pub proof fn lemma_with_last<T: MatrixNumber>(
    frames: Seq<Frame>,
    f: Frame,
    env: Map<Seq<char>, Value<T>>,
)
    requires
        frames.len() > 0,
    ensures
        with_last(frames, f).len() == frames.len(),
        with_last(frames, f).last() == f,
        with_last(frames, f).drop_last() == frames.drop_last(),
        stack_below::<T>(with_last(frames, f)) == stack_below::<T>(frames),
        tokens_below(with_last(frames, f)) == tokens_below(frames),
        output_of(with_last(frames, f).drop_last(), env) == output_of(frames.drop_last(), env),
{
    assert(with_last(frames, f).drop_last() =~= frames.drop_last());
}

/// Left sides cut in two: postfix forms and tokens are those of the first part
/// followed by those of the second, and so are the operators.
pub proof fn lemma_sides_split<T: MatrixNumber>(
    pending: Seq<Side>,
    s: int,
    env: Map<Seq<char>, Value<T>>,
)
    requires
        0 <= s <= pending.len(),
    ensures
        sides_postfix(pending, env) == sides_postfix(pending.take(s), env) + sides_postfix(
            pending.skip(s),
            env,
        ),
        sides_tokens(pending) == sides_tokens(pending.take(s)) + sides_tokens(pending.skip(s)),
        operators_of::<T>(pending) == operators_of::<T>(pending.take(s)) + operators_of::<T>(
            pending.skip(s),
        ),
    decreases pending.len(),
{
    let first = pending.take(s);
    let second = pending.skip(s);
    if s == pending.len() {
        assert(first =~= pending);
        assert(second.len() == 0);
        assert(sides_postfix(first, env) + sides_postfix(second, env) =~= sides_postfix(
            pending,
            env,
        ));
        assert(sides_tokens(first) + sides_tokens(second) =~= sides_tokens(pending));
        assert(operators_of::<T>(first) + operators_of::<T>(second) =~= operators_of::<T>(
            pending,
        ));
    } else {
        let shorter = pending.drop_last();
        lemma_sides_split(shorter, s, env);
        assert(shorter.take(s) =~= first);
        assert(second.drop_last() =~= shorter.skip(s));
        assert(second.last() == pending.last());
        let last = pending.last();
        assert(sides_postfix(second, env) == sides_postfix(shorter.skip(s), env) + postfix(
            last.tree,
            env,
        ));
        assert(sides_postfix(first, env) + sides_postfix(second, env) =~= sides_postfix(
            shorter,
            env,
        ) + postfix(last.tree, env));
        assert(sides_tokens(second) == sides_tokens(shorter.skip(s)) + tokens(last.tree) + seq![
            Lexeme::Operator(last.op),
        ]);
        assert(sides_tokens(first) + sides_tokens(second) =~= sides_tokens(shorter) + tokens(
            last.tree,
        ) + seq![Lexeme::Operator(last.op)]);
        assert(operators_of::<T>(second) == operators_of::<T>(shorter.skip(s)).push(
            Symbol::BinaryOp(last.op),
        ));
        assert(operators_of::<T>(first) + operators_of::<T>(second) =~= operators_of::<T>(
            shorter,
        ).push(Symbol::BinaryOp(last.op)));
    }
}

/// Left sides with one more: postfix forms, tokens and operators grow by those of
/// the new side.
pub proof fn lemma_sides_push<T: MatrixNumber>(
    pending: Seq<Side>,
    side: Side,
    env: Map<Seq<char>, Value<T>>,
)
    ensures
        sides_postfix(pending.push(side), env) == sides_postfix(pending, env) + postfix(
            side.tree,
            env,
        ),
        sides_tokens(pending.push(side)) == sides_tokens(pending) + tokens(side.tree) + seq![
            Lexeme::Operator(side.op),
        ],
        operators_of::<T>(pending.push(side)) == operators_of::<T>(pending).push(
            Symbol::BinaryOp(side.op),
        ),
{
    let longer = pending.push(side);
    assert(longer.drop_last() =~= pending);
    assert(longer.last() == side);
}

/// The operators that a frame has on the stack wait for their right sides.
pub proof fn lemma_frame_stack_waits<T>(f: Frame, k: int)
    requires
        frame_ok(f),
        forall|i: int| 0 <= i < f.pending.len() ==> precedence((#[trigger] f.pending[i]).op) >= k,
    ensures
        waiting(frame_stack::<T>(f), k),
{
    let stack = frame_stack::<T>(f);
    lemma_operators_of::<T>(f.pending);
    assert forall|i: int| 0 <= i < stack.len() implies match #[trigger] stack[i] {
        Symbol::UnaryOp(_) => true,
        Symbol::BinaryOp(op) => precedence(op) >= k,
        _ => false,
    } by {
        if i < f.pending.len() {
            assert(stack[i] == operators_of::<T>(f.pending)[i]);
            assert(stack[i] == Symbol::<T>::BinaryOp(f.pending[i].op));
        }
    }
}

/// Every precedence is zero at least.
pub proof fn lemma_precedence_bounds(op: char)
    ensures
        0 <= precedence(op) <= 2,
{
}

/// How many of the left sides have an operator of lower precedence than `op`:
/// those stay on the stack when `op` arrives.
pub open spec fn staying(pending: Seq<Side>, op: char) -> int
    decreases pending.len(),
{
    if pending.len() == 0 {
        0
    } else if precedence(pending.last().op) >= precedence(op) {
        staying(pending.drop_last(), op)
    } else {
        pending.len() as int
    }
}

/// The left sides that stay have lower precedence than `op`, the others have not.
pub proof fn lemma_staying(pending: Seq<Side>, op: char)
    requires
        forall|i: int, j: int|
            0 <= i < j < pending.len() ==> precedence((#[trigger] pending[i]).op) < precedence(
                (#[trigger] pending[j]).op,
            ),
    ensures
        0 <= staying(pending, op) <= pending.len(),
        forall|i: int|
            0 <= i < staying(pending, op) ==> precedence((#[trigger] pending[i]).op) < precedence(
                op,
            ),
        forall|i: int|
            staying(pending, op) <= i < pending.len() ==> precedence((#[trigger] pending[i]).op)
                >= precedence(op),
    decreases pending.len(),
{
    if pending.len() > 0 {
        let shorter = pending.drop_last();
        assert forall|i: int, j: int| 0 <= i < j < shorter.len() implies precedence(
            (#[trigger] shorter[i]).op,
        ) < precedence((#[trigger] shorter[j]).op) by {
            assert(shorter[i] == pending[i]);
            assert(shorter[j] == pending[j]);
        }
        lemma_staying(shorter, op);
        if precedence(pending.last().op) >= precedence(op) {
            assert forall|i: int| 0 <= i < staying(pending, op) implies precedence(
                (#[trigger] pending[i]).op,
            ) < precedence(op) by {
                assert(shorter[i] == pending[i]);
            }
            assert forall|i: int| staying(pending, op) <= i < pending.len() implies precedence(
                (#[trigger] pending[i]).op,
            ) >= precedence(op) by {
                if i < shorter.len() {
                    assert(shorter[i] == pending[i]);
                }
            }
        } else {
            assert forall|i: int| 0 <= i < pending.len() implies precedence(
                (#[trigger] pending[i]).op,
            ) < precedence(op) by {
                if i < pending.len() - 1 {
                    assert(precedence(pending[i].op) < precedence(pending[pending.len() - 1].op));
                }
            }
        }
    }
}

/// A frame after a binary operator: the left sides that bind as tightly as the
/// operator, or tighter, and the operand become one left side of the operator.
pub open spec fn after_binary(f: Frame, op: char) -> Frame {
    let s = staying(f.pending, op);
    Frame {
        pending: f.pending.take(s).push(
            Side { tree: collapse(f.pending.skip(s), signed_operand(f)), op },
        ),
        sign: None,
        operand: None,
    }
}

/// The operators that leave the stack when a binary operator arrives.
pub open spec fn leaving<T>(f: Frame, op: char) -> Seq<Symbol<T>> {
    operators_of::<T>(f.pending.skip(staying(f.pending, op))) + sign_symbol::<T>(f.sign)
}

/// The whole of a frame as one tree.
pub open spec fn frame_tree(f: Frame) -> Tree {
    collapse(f.pending, signed_operand(f))
}

/// A frame after the bracket that it waited for was closed round `tree`.
pub open spec fn after_close(g: Frame, tree: Tree) -> Frame {
    let inner = Tree::Bracket(Box::new(tree));
    Frame {
        pending: g.pending,
        sign: None,
        operand: Some(
            match g.sign {
                Some(u) => Tree::Unary(u, Box::new(inner)),
                None => inner,
            },
        ),
    }
}

/// The frames after one more token has been taken in.
pub open spec fn advance(frames: Seq<Frame>, token: Lexeme) -> Seq<Frame> {
    let f = frames.last();
    match token {
        Lexeme::Integer(n) => with_last(
            frames,
            Frame { pending: f.pending, sign: f.sign, operand: Some(Tree::Number(n)) },
        ),
        Lexeme::Identifier(x) => with_last(
            frames,
            Frame { pending: f.pending, sign: f.sign, operand: Some(Tree::Name(x)) },
        ),
        Lexeme::LeftBracket => frames.push(
            Frame { pending: Seq::empty(), sign: None, operand: None },
        ),
        Lexeme::RightBracket => with_last(
            frames.drop_last(),
            after_close(frames.drop_last().last(), frame_tree(f)),
        ),
        Lexeme::Operator(op) => if f.operand.is_none() {
            with_last(frames, Frame { pending: f.pending, sign: Some(op), operand: None })
        } else {
            with_last(frames, after_binary(f, op))
        },
    }
}

/// The operand of a frame, with its sign if it has one, is an operand of the
/// grammar, written with the tokens of the sign and the operand, and in postfix
/// order the operand comes before the sign.
pub proof fn lemma_signed_operand<T: MatrixNumber>(f: Frame, env: Map<Seq<char>, Value<T>>)
    requires
        frame_ok(f),
        f.operand.is_some(),
    ensures
        is_operand(signed_operand(f)),
        tokens(signed_operand(f)) == (match f.sign {
            Some(u) => seq![Lexeme::Operator(u)],
            None => Seq::empty(),
        }) + tokens(f.operand.unwrap()),
        postfix(signed_operand(f), env) == postfix(f.operand.unwrap(), env) + sign_symbol::<T>(
            f.sign,
        ),
{
    let t = f.operand.unwrap();
    match f.sign {
        Some(u) => {
            assert(postfix(t, env).push(Symbol::UnaryOp(u)) =~= postfix(t, env) + sign_symbol::<T>(
                f.sign,
            ));
        },
        None => {
            assert(Seq::<Lexeme>::empty() + tokens(t) =~= tokens(t));
            assert(postfix(t, env) + sign_symbol::<T>(f.sign) =~= postfix(t, env));
        },
    }
}

/// A closing bracket finds no opening bracket among operators that wait.
pub proof fn lemma_close_finds_nothing<T>(pending: Seq<Symbol<T>>, outputs: Seq<Symbol<T>>, k: int)
    requires
        waiting(pending, k),
    ensures
        close_bracket(pending, outputs).is_none(),
    decreases pending.len(),
{
    if pending.len() > 0 {
        let top = pending.last();
        assert(pending[pending.len() - 1] == top);
        let shorter = pending.drop_last();
        assert(waiting(shorter, k)) by {
            assert forall|i: int| 0 <= i < shorter.len() implies match #[trigger] shorter[i] {
                Symbol::UnaryOp(_) => true,
                Symbol::BinaryOp(o) => precedence(o) >= k,
                _ => false,
            } by {
                assert(shorter[i] == pending[i]);
            }
        }
        lemma_close_finds_nothing(shorter, outputs.push(top), k);
    }
}

/// Replacing the last frame by one that is as the grammar wants it keeps the
/// frames so.
pub proof fn lemma_with_last_ok(frames: Seq<Frame>, f: Frame)
    requires
        frames_ok(frames),
        frame_ok(f),
    ensures
        frames_ok(with_last(frames, f)),
{
    let after = with_last(frames, f);
    assert forall|i: int| 0 <= i < after.len() implies frame_ok(#[trigger] after[i]) by {
        if i < after.len() - 1 {
            assert(after[i] == frames[i]);
        }
    }
    assert forall|i: int| 0 <= i < after.len() - 1 implies (#[trigger] after[i]).operand.is_none() by {
        assert(after[i] == frames[i]);
    }
}

/// The step of a number or a name.
proof fn lemma_leaf_tracks<T: MatrixNumber>(
    frames: Seq<Frame>,
    state: Shunting<T>,
    token: Lexeme,
    env: Map<Seq<char>, Value<T>>,
)
    requires
        frames_ok(frames),
        represents(frames, state, env),
        accept(state, token, env) is Ok,
        token is Integer || token is Identifier,
    ensures
        frames_ok(advance(frames, token)),
        represents(advance(frames, token), accept(state, token, env)->Ok_0, env),
        tokens_read(advance(frames, token)) == tokens_read(frames).push(token),
{
    let f = frames.last();
    let next = accept(state, token, env)->Ok_0;
    let after = advance(frames, token);
    lemma_last_frame(frames, env);
    let output_below = output_of(frames.drop_last(), env);
    assert(frame_ok(f));
    assert(f.operand.is_none());
    let leaf = match token {
        Lexeme::Integer(n) => Tree::Number(n),
        Lexeme::Identifier(x) => Tree::Name(x),
        _ => arbitrary(),
    };
    let f2 = Frame { pending: f.pending, sign: f.sign, operand: Some(leaf) };
    assert(after == with_last(frames, f2));
    lemma_with_last(frames, f2, env);
    lemma_last_frame(after, env);
    assert(tokens(leaf) =~= seq![token]);
    assert(frame_stack::<T>(f2) == frame_stack::<T>(f));
    assert(frame_output(f, env) =~= sides_postfix(f.pending, env));
    assert(frame_output(f2, env) =~= frame_output(f, env) + postfix(leaf, env));
    assert(frame_tokens(f2) =~= frame_tokens(f) + tokens(leaf));
    assert(next.outputs =~= output_below + frame_output(f2, env));
    assert(tokens_read(after) =~= tokens_read(frames).push(token));
    assert(is_atom(leaf));
    assert(is_operand(leaf));
    lemma_with_last_ok(frames, f2);
}

/// The step of an opening bracket.
proof fn lemma_open_tracks<T: MatrixNumber>(
    frames: Seq<Frame>,
    state: Shunting<T>,
    env: Map<Seq<char>, Value<T>>,
)
    requires
        frames_ok(frames),
        represents(frames, state, env),
        accept(state, Lexeme::LeftBracket, env) is Ok,
    ensures
        frames_ok(advance(frames, Lexeme::LeftBracket)),
        represents(
            advance(frames, Lexeme::LeftBracket),
            accept(state, Lexeme::LeftBracket, env)->Ok_0,
            env,
        ),
        tokens_read(advance(frames, Lexeme::LeftBracket)) == tokens_read(frames).push(
            Lexeme::LeftBracket,
        ),
{
    let token = Lexeme::LeftBracket;
    let f = frames.last();
    let after = advance(frames, token);
    lemma_last_frame(frames, env);
    let empty = Frame { pending: Seq::empty(), sign: None, operand: None };
    assert(f.operand.is_none());
    assert(after.drop_last() =~= frames);
    assert(after.last() == empty);
    assert(frame_stack::<T>(empty) =~= Seq::<Symbol<T>>::empty());
    assert(frame_output(empty, env) =~= Seq::<Symbol<T>>::empty());
    assert(frame_tokens(empty) =~= Seq::<Lexeme>::empty());
    assert(stack_of::<T>(after) =~= stack_of::<T>(frames).push(Symbol::LeftBracket));
    assert(output_of(after, env) =~= output_of(frames, env));
    assert(tokens_read(after) =~= tokens_read(frames).push(token));
    assert forall|i: int| 0 <= i < after.len() implies frame_ok(#[trigger] after[i]) by {
        if i < after.len() - 1 {
            assert(after[i] == frames[i]);
        }
    }
    assert forall|i: int| 0 <= i < after.len() - 1 implies (#[trigger] after[i]).operand.is_none() by {
        assert(after[i] == frames[i]);
        if i == frames.len() - 1 {
            assert(frames[i] == f);
        }
    }
}

/// The step of a sign.
proof fn lemma_sign_tracks<T: MatrixNumber>(
    frames: Seq<Frame>,
    state: Shunting<T>,
    op: char,
    env: Map<Seq<char>, Value<T>>,
)
    requires
        frames_ok(frames),
        represents(frames, state, env),
        accept(state, Lexeme::Operator(op), env) is Ok,
        frames.last().operand.is_none(),
    ensures
        frames_ok(advance(frames, Lexeme::Operator(op))),
        represents(
            advance(frames, Lexeme::Operator(op)),
            accept(state, Lexeme::Operator(op), env)->Ok_0,
            env,
        ),
        tokens_read(advance(frames, Lexeme::Operator(op))) == tokens_read(frames).push(
            Lexeme::Operator(op),
        ),
{
    let token = Lexeme::Operator(op);
    let f = frames.last();
    let next = accept(state, token, env)->Ok_0;
    let after = advance(frames, token);
    lemma_last_frame(frames, env);
    let below = stack_below::<T>(frames);
    assert(frame_ok(f));
    let f2 = Frame { pending: f.pending, sign: Some(op), operand: None };
    lemma_with_last(frames, f2, env);
    lemma_last_frame(after, env);
    assert(f.sign.is_none());
    assert(frame_stack::<T>(f) =~= operators_of::<T>(f.pending));
    assert(frame_stack::<T>(f2) =~= frame_stack::<T>(f).push(Symbol::UnaryOp(op)));
    assert(frame_output(f2, env) == frame_output(f, env));
    assert(frame_tokens(f2) =~= frame_tokens(f).push(token));
    assert(next.operators =~= below + frame_stack::<T>(f2));
    assert(tokens_read(after) =~= tokens_read(frames).push(token));
    lemma_with_last_ok(frames, f2);
}

/// The left sides of a frame from `s` on are left sides for an operator of the
/// precedence `q` if they all bind as tightly.
proof fn lemma_popped_ok(f: Frame, s: int, q: int)
    requires
        frame_ok(f),
        0 <= s <= f.pending.len(),
        forall|i: int| s <= i < f.pending.len() ==> precedence((#[trigger] f.pending[i]).op) >= q,
    ensures
        sides_ok(f.pending.skip(s), q),
{
    let popped = f.pending.skip(s);
    assert forall|i: int| 0 <= i < popped.len() implies is_binary((#[trigger] popped[i]).op)
        && fits(popped[i].tree, precedence(popped[i].op)) && precedence(popped[i].op) >= q by {
        assert(popped[i] == f.pending[s + i]);
    }
    assert forall|i: int, j: int| 0 <= i < j < popped.len() implies precedence(
        (#[trigger] popped[i]).op,
    ) < precedence((#[trigger] popped[j]).op) by {
        assert(popped[i] == f.pending[s + i]);
        assert(popped[j] == f.pending[s + j]);
    }
}

/// A frame after a binary operator is as the grammar wants it.
proof fn lemma_after_binary_ok(f: Frame, op: char, tree: Tree)
    requires
        frame_ok(f),
        is_binary(op),
        fits(tree, precedence(op)),
        0 <= staying(f.pending, op) <= f.pending.len(),
        forall|i: int|
            0 <= i < staying(f.pending, op) ==> precedence((#[trigger] f.pending[i]).op)
                < precedence(op),
    ensures
        frame_ok(
            Frame {
                pending: f.pending.take(staying(f.pending, op)).push(Side { tree, op }),
                sign: None,
                operand: None,
            },
        ),
{
    let s = staying(f.pending, op);
    let kept = f.pending.take(s);
    let longer = kept.push(Side { tree, op });
    assert forall|i: int| 0 <= i < longer.len() implies is_binary((#[trigger] longer[i]).op) && fits(
        longer[i].tree,
        precedence(longer[i].op),
    ) by {
        if i < kept.len() {
            assert(longer[i] == f.pending[i]);
        }
    }
    assert forall|i: int, j: int| 0 <= i < j < longer.len() implies precedence((#[trigger] longer[i]).op)
        < precedence((#[trigger] longer[j]).op) by {
        assert(longer[i] == f.pending[i]);
        if j < kept.len() {
            assert(longer[j] == f.pending[j]);
        }
    }
}

/// The left side that a binary operator makes of the left sides that yield to it
/// and the operand: the grammar admits it on the left of the operator, it is
/// written with their tokens, and in postfix order it is the left sides, the
/// operand and their operators from the last to the first.
proof fn lemma_binary_side<T: MatrixNumber>(f: Frame, op: char, env: Map<Seq<char>, Value<T>>)
    requires
        frame_ok(f),
        f.operand.is_some(),
    ensures
        0 <= staying(f.pending, op) <= f.pending.len(),
        forall|i: int|
            0 <= i < staying(f.pending, op) ==> precedence((#[trigger] f.pending[i]).op)
                < precedence(op),
        fits(collapse(f.pending.skip(staying(f.pending, op)), signed_operand(f)), precedence(op)),
        tokens(collapse(f.pending.skip(staying(f.pending, op)), signed_operand(f)))
            == sides_tokens(f.pending.skip(staying(f.pending, op))) + tokens(signed_operand(f)),
        postfix(collapse(f.pending.skip(staying(f.pending, op)), signed_operand(f)), env)
            == sides_postfix(f.pending.skip(staying(f.pending, op)), env) + postfix(
            signed_operand(f),
            env,
        ) + operators_of::<T>(f.pending.skip(staying(f.pending, op))).reverse(),
{
    let s = staying(f.pending, op);
    lemma_staying(f.pending, op);
    lemma_signed_operand(f, env);
    lemma_popped_ok(f, s, precedence(op));
    lemma_collapse(f.pending.skip(s), signed_operand(f), precedence(op), env);
}

/// Sequences in a row may be grouped anew.
proof fn lemma_regroup<A>(a: Seq<A>, b: Seq<A>, c: Seq<A>, d: Seq<A>, e: Seq<A>)
    ensures
        a + (b + (c + d) + e) == ((a + b) + c) + (d + e),
{
    assert(a + (b + (c + d) + e) =~= ((a + b) + c) + (d + e));
}

/// The output of a frame after a binary operator: what the frame had, followed by
/// the operators that left the stack, from the top down.
proof fn lemma_after_binary_output<T: MatrixNumber>(
    f: Frame,
    op: char,
    env: Map<Seq<char>, Value<T>>,
)
    requires
        frame_ok(f),
        f.operand.is_some(),
    ensures
        frame_output(after_binary(f, op), env) == frame_output(f, env) + leaving::<T>(
            f,
            op,
        ).reverse(),
{
    let s = staying(f.pending, op);
    let kept = f.pending.take(s);
    let popped = f.pending.skip(s);
    let right = signed_operand(f);
    let tree = collapse(popped, right);
    let side = Side { tree, op };
    lemma_binary_side(f, op, env);
    lemma_signed_operand(f, env);
    lemma_sides_split(f.pending, s, env);
    lemma_sides_push(kept, side, env);
    let a = sides_postfix(kept, env);
    let b = sides_postfix(popped, env);
    let c = postfix(f.operand.unwrap(), env);
    let d = sign_symbol::<T>(f.sign);
    let e = operators_of::<T>(popped).reverse();
    assert(d.reverse() =~= d);
    assert(leaving::<T>(f, op).reverse() =~= d + e);
    assert(frame_output(after_binary(f, op), env) =~= a + (b + (c + d) + e));
    assert(frame_output(f, env) == (a + b) + c);
    lemma_regroup(a, b, c, d, e);
}

/// The tokens of a frame after a binary operator: those of the frame and the
/// operator.
proof fn lemma_after_binary_tokens<T: MatrixNumber>(
    f: Frame,
    op: char,
    env: Map<Seq<char>, Value<T>>,
)
    requires
        frame_ok(f),
        f.operand.is_some(),
    ensures
        frame_tokens(after_binary(f, op)) == frame_tokens(f).push(Lexeme::Operator(op)),
{
    let s = staying(f.pending, op);
    let kept = f.pending.take(s);
    let popped = f.pending.skip(s);
    let right = signed_operand(f);
    let tree = collapse(popped, right);
    let side = Side { tree, op };
    lemma_binary_side(f, op, env);
    lemma_signed_operand(f, env);
    lemma_sides_split(f.pending, s, env);
    lemma_sides_push(kept, side, env);
    let a = sides_tokens(kept);
    let b = sides_tokens(popped);
    let c = match f.sign {
        Some(u) => seq![Lexeme::Operator(u)],
        None => Seq::empty(),
    };
    let d = tokens(f.operand.unwrap());
    let e = seq![Lexeme::Operator(op)];
    assert(frame_tokens(after_binary(f, op)) =~= a + (b + (c + d) + e));
    assert(frame_tokens(f) == (a + b) + c + d);
    assert(frame_tokens(f).push(Lexeme::Operator(op)) =~= ((a + b) + c) + (d + e));
    lemma_regroup(a, b, c, d, e);
}

/// What a binary operator makes of a frame: the new frame is as the grammar
/// wants it, was read from one more token, and has in the output what the frame
/// had, followed by the operators that left the stack, from the top down.
proof fn lemma_after_binary<T: MatrixNumber>(f: Frame, op: char, env: Map<Seq<char>, Value<T>>)
    requires
        frame_ok(f),
        f.operand.is_some(),
        is_binary(op),
    ensures
        frame_ok(after_binary(f, op)),
        frame_tokens(after_binary(f, op)) == frame_tokens(f).push(Lexeme::Operator(op)),
        frame_output(after_binary(f, op), env) == frame_output(f, env) + leaving::<T>(
            f,
            op,
        ).reverse(),
{
    lemma_binary_side(f, op, env);
    lemma_after_binary_ok(
        f,
        op,
        collapse(f.pending.skip(staying(f.pending, op)), signed_operand(f)),
    );
    lemma_after_binary_output(f, op, env);
    lemma_after_binary_tokens(f, op, env);
}

/// What a binary operator finds on the stack: above what stays, the operators
/// that leave wait there, and what stays is out of the operator's reach.
proof fn lemma_binary_stack<T: MatrixNumber>(f: Frame, op: char, below: Seq<Symbol<T>>)
    requires
        frame_ok(f),
        out_of_reach(below, 0),
    ensures
        below + frame_stack::<T>(f) == below + operators_of::<T>(
            f.pending.take(staying(f.pending, op)),
        ) + leaving::<T>(f, op),
        waiting(leaving::<T>(f, op), precedence(op)),
        out_of_reach(
            below + operators_of::<T>(f.pending.take(staying(f.pending, op))),
            precedence(op),
        ),
        below + frame_stack::<T>(after_binary(f, op)) == (below + operators_of::<T>(
            f.pending.take(staying(f.pending, op)),
        )).push(Symbol::BinaryOp(op)),
{
    let s = staying(f.pending, op);
    lemma_staying(f.pending, op);
    let kept = f.pending.take(s);
    let popped = f.pending.skip(s);
    let q = precedence(op);
    let gone = leaving::<T>(f, op);
    let base = below + operators_of::<T>(kept);
    lemma_operators_of::<T>(f.pending);
    lemma_operators_of::<T>(popped);
    lemma_operators_of::<T>(kept);
    assert(operators_of::<T>(f.pending) =~= operators_of::<T>(kept) + operators_of::<T>(popped)) by {
        let whole = operators_of::<T>(f.pending);
        let parts = operators_of::<T>(kept) + operators_of::<T>(popped);
        assert forall|i: int| 0 <= i < whole.len() implies whole[i] == parts[i] by {
            if i < s {
                assert(kept[i] == f.pending[i]);
            } else {
                assert(popped[i - s] == f.pending[i]);
            }
        }
    }
    assert(below + frame_stack::<T>(f) =~= base + gone);
    assert forall|i: int| 0 <= i < gone.len() implies match #[trigger] gone[i] {
        Symbol::UnaryOp(_) => true,
        Symbol::BinaryOp(o) => precedence(o) >= q,
        _ => false,
    } by {
        if i < popped.len() {
            assert(gone[i] == operators_of::<T>(popped)[i]);
            assert(popped[i] == f.pending[s + i]);
        }
    }
    if kept.len() > 0 {
        assert(base.last() == operators_of::<T>(kept)[kept.len() - 1]);
        assert(kept[kept.len() - 1] == f.pending[s - 1]);
    } else {
        assert(base =~= below);
        lemma_precedence_bounds(op);
    }
    let side = Side { tree: collapse(popped, signed_operand(f)), op };
    assert(kept.push(side).drop_last() =~= kept);
    assert(frame_stack::<T>(after_binary(f, op)) =~= operators_of::<T>(kept).push(
        Symbol::BinaryOp(op),
    ));
    assert(below + frame_stack::<T>(after_binary(f, op)) =~= base.push(Symbol::BinaryOp(op)));
}

/// The step of a binary operator.
proof fn lemma_binary_tracks<T: MatrixNumber>(
    frames: Seq<Frame>,
    state: Shunting<T>,
    op: char,
    env: Map<Seq<char>, Value<T>>,
)
    requires
        frames_ok(frames),
        represents(frames, state, env),
        accept(state, Lexeme::Operator(op), env) is Ok,
        frames.last().operand.is_some(),
    ensures
        frames_ok(advance(frames, Lexeme::Operator(op))),
        represents(
            advance(frames, Lexeme::Operator(op)),
            accept(state, Lexeme::Operator(op), env)->Ok_0,
            env,
        ),
        tokens_read(advance(frames, Lexeme::Operator(op))) == tokens_read(frames).push(
            Lexeme::Operator(op),
        ),
{
    let token = Lexeme::Operator(op);
    let f = frames.last();
    let next = accept(state, token, env)->Ok_0;
    let f2 = after_binary(f, op);
    let after = with_last(frames, f2);
    assert(advance(frames, token) == after);
    lemma_last_frame(frames, env);
    let below = stack_below::<T>(frames);
    let output_below = output_of(frames.drop_last(), env);
    assert(frame_ok(f));
    assert(is_binary(op));
    lemma_after_binary(f, op, env);
    lemma_binary_stack(f, op, below);
    lemma_with_last(frames, f2, env);
    lemma_last_frame(after, env);
    let base = below + operators_of::<T>(f.pending.take(staying(f.pending, op)));
    let gone = leaving::<T>(f, op);
    lemma_yield_takes_waiting(base, gone, state.outputs, op);
    assert(state.operators == base + gone);
    assert(next.operators == base.push(Symbol::BinaryOp(op)));
    assert(next.outputs == state.outputs + gone.reverse());
    assert(next.outputs =~= output_below + frame_output(f2, env));
    assert(tokens_read(after) =~= tokens_read(frames).push(token));
    lemma_with_last_ok(frames, f2);
}

/// A frame with its operand is one tree, which the grammar admits, written with
/// the frame's tokens; in postfix order it is the frame's output followed by the
/// frame's operators from the top of the stack down, which all wait there.
proof fn lemma_frame_tree<T: MatrixNumber>(f: Frame, env: Map<Seq<char>, Value<T>>)
    requires
        frame_ok(f),
        f.operand.is_some(),
    ensures
        fits(frame_tree(f), 0),
        tokens(frame_tree(f)) == frame_tokens(f),
        postfix(frame_tree(f), env) == frame_output(f, env) + frame_stack::<T>(f).reverse(),
        waiting(frame_stack::<T>(f), 0),
{
    assert forall|i: int| 0 <= i < f.pending.len() implies precedence(
        (#[trigger] f.pending[i]).op,
    ) >= 0 by {
        lemma_precedence_bounds(f.pending[i].op);
    }
    lemma_frame_stack_waits::<T>(f, 0);
    let right = signed_operand(f);
    lemma_signed_operand(f, env);
    assert(sides_ok(f.pending, 0));
    lemma_collapse(f.pending, right, 0, env);
    assert(frame_stack::<T>(f).reverse() =~= sign_symbol::<T>(f.sign).reverse()
        + operators_of::<T>(f.pending).reverse());
    assert(sign_symbol::<T>(f.sign).reverse() =~= sign_symbol::<T>(f.sign));
    assert(postfix(frame_tree(f), env) =~= frame_output(f, env) + frame_stack::<T>(f).reverse());
    assert(tokens(frame_tree(f)) =~= frame_tokens(f));
}

/// What a closed bracket makes of the frame that waited for it: the frame has the
/// bracket for its operand, with the sign that stood before it, which leaves the
/// stack and follows the bracket in the output.
proof fn lemma_after_close<T: MatrixNumber>(
    g: Frame,
    tree: Tree,
    below: Seq<Symbol<T>>,
    outputs: Seq<Symbol<T>>,
    env: Map<Seq<char>, Value<T>>,
)
    requires
        frame_ok(g),
        g.operand.is_none(),
        fits(tree, 0),
        out_of_reach(below, 0),
    ensures
        frame_ok(after_close(g, tree)),
        frame_tokens(after_close(g, tree)) == frame_tokens(g).push(Lexeme::LeftBracket) + tokens(
            tree,
        ).push(Lexeme::RightBracket),
        release_unary(
            below + frame_stack::<T>(g),
            outputs + frame_output(g, env) + postfix(tree, env),
        ) == (
            below + frame_stack::<T>(after_close(g, tree)),
            outputs + frame_output(after_close(g, tree), env),
        ),
{
    let inner = Tree::Bracket(Box::new(tree));
    let g2 = after_close(g, tree);
    let stack = below + frame_stack::<T>(g);
    let before = outputs + frame_output(g, env) + postfix(tree, env);
    assert(is_atom(inner));
    assert(tokens(inner) =~= seq![Lexeme::LeftBracket] + tokens(tree) + seq![
        Lexeme::RightBracket,
    ]);
    assert(postfix(inner, env) == postfix(tree, env));
    assert(frame_stack::<T>(g2) =~= operators_of::<T>(g.pending));
    assert(frame_output(g, env) =~= sides_postfix(g.pending, env));
    lemma_operators_of::<T>(g.pending);
    match g.sign {
        Some(u) => {
            assert(frame_stack::<T>(g) =~= operators_of::<T>(g.pending).push(Symbol::UnaryOp(u)));
            assert(stack.last() == Symbol::<T>::UnaryOp(u));
            assert(stack.drop_last() =~= below + frame_stack::<T>(g2));
            assert(frame_output(g2, env) =~= sides_postfix(g.pending, env) + postfix(
                tree,
                env,
            ).push(Symbol::UnaryOp(u)));
            assert(before.push(Symbol::UnaryOp(u)) =~= outputs + frame_output(g2, env));
            assert(frame_tokens(g2) =~= frame_tokens(g).push(Lexeme::LeftBracket) + tokens(
                tree,
            ).push(Lexeme::RightBracket));
        },
        None => {
            assert(frame_stack::<T>(g) =~= operators_of::<T>(g.pending));
            assert(!(stack.len() > 0 && stack.last() is UnaryOp)) by {
                if g.pending.len() > 0 {
                    assert(stack.last() == operators_of::<T>(g.pending)[g.pending.len() - 1]);
                } else {
                    assert(stack =~= below);
                }
            }
            assert(frame_output(g2, env) =~= sides_postfix(g.pending, env) + postfix(tree, env));
            assert(before =~= outputs + frame_output(g2, env));
            assert(frame_tokens(g2) =~= frame_tokens(g).push(Lexeme::LeftBracket) + tokens(
                tree,
            ).push(Lexeme::RightBracket));
        },
    }
}

/// All frames but the last are as the grammar wants them.
proof fn lemma_outer_ok(frames: Seq<Frame>)
    requires
        frames_ok(frames),
        frames.len() > 1,
    ensures
        frames_ok(frames.drop_last()),
        frames.drop_last().last().operand.is_none(),
{
    let outer = frames.drop_last();
    assert forall|i: int| 0 <= i < outer.len() implies frame_ok(#[trigger] outer[i]) by {
        assert(outer[i] == frames[i]);
    }
    assert forall|i: int| 0 <= i < outer.len() - 1 implies (#[trigger] outer[i]).operand.is_none() by {
        assert(outer[i] == frames[i]);
    }
    assert(outer.last() == frames[frames.len() - 2]);
}

/// The step of a closing bracket.
proof fn lemma_close_tracks<T: MatrixNumber>(
    frames: Seq<Frame>,
    state: Shunting<T>,
    env: Map<Seq<char>, Value<T>>,
)
    requires
        frames_ok(frames),
        represents(frames, state, env),
        accept(state, Lexeme::RightBracket, env) is Ok,
    ensures
        frames_ok(advance(frames, Lexeme::RightBracket)),
        represents(
            advance(frames, Lexeme::RightBracket),
            accept(state, Lexeme::RightBracket, env)->Ok_0,
            env,
        ),
        tokens_read(advance(frames, Lexeme::RightBracket)) == tokens_read(frames).push(
            Lexeme::RightBracket,
        ),
{
    let token = Lexeme::RightBracket;
    let f = frames.last();
    let next = accept(state, token, env)->Ok_0;
    lemma_last_frame(frames, env);
    assert(frame_ok(f));
    assert(f.operand.is_some());
    lemma_frame_tree(f, env);
    let tree = frame_tree(f);
    if frames.len() == 1 {
        assert(state.operators =~= frame_stack::<T>(f));
        lemma_close_finds_nothing(frame_stack::<T>(f), state.outputs, 0);
    }
    let outer = frames.drop_last();
    let g = outer.last();
    lemma_outer_ok(frames);
    lemma_last_frame(outer, env);
    let outer_stack = stack_of::<T>(outer);
    lemma_close_takes_waiting(outer_stack, frame_stack::<T>(f), state.outputs, 0);
    let closed_output = state.outputs + frame_stack::<T>(f).reverse();
    let outer_below = stack_below::<T>(outer);
    let outer_output = output_of(outer.drop_last(), env);
    assert(closed_output =~= outer_output + frame_output(g, env) + postfix(tree, env));
    let g2 = after_close(g, tree);
    let after = with_last(outer, g2);
    assert(advance(frames, token) == after);
    lemma_after_close(g, tree, outer_below, outer_output, env);
    lemma_with_last(outer, g2, env);
    lemma_last_frame(after, env);
    assert(next.operators == outer_below + frame_stack::<T>(g2));
    assert(next.outputs == outer_output + frame_output(g2, env));
    assert(tokens_read(frames) =~= tokens_below(outer) + frame_tokens(g).push(
        Lexeme::LeftBracket,
    ) + frame_tokens(f));
    assert(tokens_read(after) =~= tokens_read(frames).push(token));
    lemma_with_last_ok(outer, g2);
}

/// Taking in a token keeps the parser where the frames say: if the token is
/// accepted, the frames advanced by the token are as the grammar wants them, the
/// parser stands where they say, and they were read from one more token.
pub proof fn lemma_accept_tracks<T: MatrixNumber>(
    frames: Seq<Frame>,
    state: Shunting<T>,
    token: Lexeme,
    env: Map<Seq<char>, Value<T>>,
)
    requires
        frames_ok(frames),
        represents(frames, state, env),
        accept(state, token, env) is Ok,
    ensures
        frames_ok(advance(frames, token)),
        represents(advance(frames, token), accept(state, token, env)->Ok_0, env),
        tokens_read(advance(frames, token)) == tokens_read(frames).push(token),
{
    match token {
        Lexeme::Integer(_) => lemma_leaf_tracks(frames, state, token, env),
        Lexeme::Identifier(_) => lemma_leaf_tracks(frames, state, token, env),
        Lexeme::LeftBracket => lemma_open_tracks(frames, state, env),
        Lexeme::RightBracket => lemma_close_tracks(frames, state, env),
        Lexeme::Operator(op) => if frames.last().operand.is_none() {
            lemma_sign_tracks(frames, state, op, env)
        } else {
            lemma_binary_tracks(frames, state, op, env)
        },
    }
}

/// The frames after all of the given tokens have been taken in.
pub open spec fn advance_all(frames: Seq<Frame>, ts: Seq<Lexeme>) -> Seq<Frame>
    decreases ts.len(),
{
    if ts.len() == 0 {
        frames
    } else {
        advance_all(advance(frames, ts[0]), ts.drop_first())
    }
}

/// Taking in tokens keeps the parser where the frames say: if all are accepted,
/// the frames advanced by them are as the grammar wants them, the parser stands
/// where they say, and they were read from the tokens before and these.
pub proof fn lemma_accept_all_tracks<T: MatrixNumber>(
    frames: Seq<Frame>,
    state: Shunting<T>,
    ts: Seq<Lexeme>,
    env: Map<Seq<char>, Value<T>>,
)
    requires
        frames_ok(frames),
        represents(frames, state, env),
        accept_all(ts, state, env) is Ok,
    ensures
        frames_ok(advance_all(frames, ts)),
        represents(advance_all(frames, ts), accept_all(ts, state, env)->Ok_0, env),
        tokens_read(advance_all(frames, ts)) == tokens_read(frames) + ts,
    decreases ts.len(),
{
    if ts.len() == 0 {
        assert(tokens_read(frames) + ts =~= tokens_read(frames));
    } else {
        lemma_accept_tracks(frames, state, ts[0], env);
        let next = accept(state, ts[0], env)->Ok_0;
        lemma_accept_all_tracks(advance(frames, ts[0]), next, ts.drop_first(), env);
        assert(tokens_read(frames).push(ts[0]) + ts.drop_first() =~= tokens_read(frames) + ts);
    }
}

/// A text that the parser takes in is made of tokens.
pub proof fn lemma_parsed_text_has_tokens<T: MatrixNumber>(
    input: Seq<char>,
    state: Shunting<T>,
    env: Map<Seq<char>, Value<T>>,
)
    requires
        parse_tokens(input, state, env) is Ok,
    ensures
        tokens_of(input) is Ok,
    decreases input.len(),
{
    lemma_lexeme_consumes(input);
    if let Ok(Some(pair)) = next_lexeme(input) {
        if let Ok(next) = accept(state, pair.0, env) {
            lemma_parsed_text_has_tokens(pair.1, next, env);
        }
    }
}

/// A stack with an opening bracket under operators that wait cannot be emptied.
pub proof fn lemma_drain_finds_bracket<T>(
    operators: Seq<Symbol<T>>,
    pending: Seq<Symbol<T>>,
    outputs: Seq<Symbol<T>>,
    k: int,
)
    requires
        waiting(pending, k),
    ensures
        drain(operators.push(Symbol::LeftBracket) + pending, outputs).is_none(),
    decreases pending.len(),
{
    let base = operators.push(Symbol::LeftBracket);
    if pending.len() == 0 {
        assert(base + pending =~= base);
    } else {
        let all = base + pending;
        let top = pending.last();
        assert(all.last() == top);
        assert(pending[pending.len() - 1] == top);
        let shorter = pending.drop_last();
        assert(all.drop_last() =~= base + shorter);
        assert(waiting(shorter, k)) by {
            assert forall|i: int| 0 <= i < shorter.len() implies match #[trigger] shorter[i] {
                Symbol::UnaryOp(_) => true,
                Symbol::BinaryOp(o) => precedence(o) >= k,
                _ => false,
            } by {
                assert(shorter[i] == pending[i]);
            }
        }
        lemma_drain_finds_bracket(operators, shorter, outputs.push(top), k);
    }
}

/// Evaluating the postfix forms of left sides, one after another, fails or puts
/// one value for each on the stack. Returns the values, if there are any.
pub proof fn lemma_sides_value<T: MatrixNumber>(
    pending: Seq<Side>,
    env: Map<Seq<char>, Value<T>>,
    outputs: Seq<Symbol<T>>,
    k: int,
    stack: Seq<Value<T>>,
) -> (r: Option<Seq<Value<T>>>)
    requires
        0 <= k,
        k + sides_postfix(pending, env).len() <= outputs.len(),
        outputs.subrange(k, k + sides_postfix(pending, env).len()) == sides_postfix(pending, env),
    ensures
        r.is_none() ==> eval_from(outputs, k, stack) is Err,
        r matches Some(values) ==> values.len() == pending.len() && eval_from(outputs, k, stack)
            == eval_from(outputs, k + sides_postfix(pending, env).len(), stack + values),
    decreases pending.len(),
{
    if pending.len() == 0 {
        assert(stack + Seq::<Value<T>>::empty() =~= stack);
        Some(Seq::empty())
    } else {
        let shorter = pending.drop_last();
        let last = pending.last();
        let first = sides_postfix(shorter, env);
        let second = postfix(last.tree, env);
        let whole = sides_postfix(pending, env);
        assert(whole == first + second);
        assert(outputs.subrange(k, k + first.len()) =~= first) by {
            assert forall|i: int| 0 <= i < first.len() implies outputs[k + i] == first[i] by {
                assert(outputs.subrange(k, k + whole.len())[i] == whole[i]);
            }
        }
        let m = k + first.len();
        assert(outputs.subrange(m, m + second.len()) =~= second) by {
            assert forall|i: int| 0 <= i < second.len() implies outputs[m + i] == second[i] by {
                assert(outputs.subrange(k, k + whole.len())[first.len() + i] == whole[first.len()
                    + i]);
            }
        }
        match lemma_sides_value(shorter, env, outputs, k, stack) {
            None => None,
            Some(values) => {
                lemma_postfix_value(last.tree, env, outputs, m, stack + values);
                match value_of(last.tree, env) {
                    Err(_) => None,
                    Ok(v) => {
                        assert((stack + values).push(v) =~= stack + values.push(v));
                        Some(values.push(v))
                    },
                }
            },
        }
    }
}

/// Binary operators at the end of a postfix sequence, as many as there are values
/// on the stack or more, have no value: the last of them finds one value only.
pub proof fn lemma_too_many_operators<T: MatrixNumber>(
    outputs: Seq<Symbol<T>>,
    k: int,
    stack: Seq<Value<T>>,
)
    requires
        0 <= k <= outputs.len(),
        outputs.len() - k >= stack.len(),
        forall|i: int| k <= i < outputs.len() ==> (#[trigger] outputs[i]) is BinaryOp,
    ensures
        eval_from(outputs, k, stack) is Err,
    decreases outputs.len() - k,
{
    if k < outputs.len() {
        assert(outputs[k] is BinaryOp);
        if let Symbol::BinaryOp(op) = outputs[k] {
            if stack.len() >= 2 {
                if let Ok(v) = binary_value(stack[stack.len() - 2], stack.last(), op) {
                    lemma_too_many_operators(outputs, k + 1, stack.drop_last().drop_last().push(v));
                }
            }
        }
    }
}

/// A frame that waits for an operand has no value: emptied to the output, its
/// operators find too few values.
pub proof fn lemma_frame_without_operand<T: MatrixNumber>(
    f: Frame,
    env: Map<Seq<char>, Value<T>>,
)
    requires
        frame_ok(f),
        f.operand.is_none(),
    ensures
        eval_from(
            frame_output(f, env) + frame_stack::<T>(f).reverse(),
            0,
            Seq::empty(),
        ) is Err,
{
    let sides = sides_postfix(f.pending, env);
    let sign = sign_symbol::<T>(f.sign);
    let binaries = operators_of::<T>(f.pending).reverse();
    let outputs = frame_output(f, env) + frame_stack::<T>(f).reverse();
    lemma_operators_of::<T>(f.pending);
    assert(sign.reverse() =~= sign);
    assert(frame_stack::<T>(f).reverse() =~= sign + binaries);
    assert(outputs =~= sides + sign + binaries);
    assert(outputs.subrange(0, sides.len() as int) =~= sides);
    let empty = Seq::<Value<T>>::empty();
    let m = sides.len() as int;
    let p = m + sign.len();
    assert forall|i: int| p <= i < outputs.len() implies (#[trigger] outputs[i]) is BinaryOp by {
        assert(outputs[i] == binaries[i - p]);
        assert(binaries[i - p] == operators_of::<T>(f.pending)[f.pending.len() - 1 - (i - p)]);
    }
    match lemma_sides_value(f.pending, env, outputs, 0, empty) {
        None => {},
        Some(values) => {
            let stack = empty + values;
            assert(stack.len() == f.pending.len());
            match f.sign {
                Some(u) => {
                    assert(outputs[m] == Symbol::<T>::UnaryOp(u));
                    if stack.len() >= 1 {
                        if let Ok(v) = unary_value(stack.last(), u) {
                            lemma_too_many_operators(outputs, p, stack.drop_last().push(v));
                        }
                    }
                },
                None => {
                    lemma_too_many_operators(outputs, p, stack);
                },
            }
        },
    }
}

/// The frames before the first token: one frame with nothing in it.
pub open spec fn first_frames() -> Seq<Frame> {
    seq![Frame { pending: Seq::empty(), sign: None, operand: None }]
}

/// Only what the grammar admits has a value: a text with a value is written with
/// the tokens of a tree that the grammar admits, and its value is the meaning of
/// that tree. Returns the tree.
pub proof fn lemma_text_with_value_has_tree<T: MatrixNumber>(
    input: Seq<char>,
    env: Map<Seq<char>, Value<T>>,
) -> (e: Tree)
    requires
        evaluate_text(input, env) is Ok,
    ensures
        fits(e, 0),
        tokens_of(input) == Ok::<Seq<Lexeme>, Error>(tokens(e)),
        meaning(e, env) == evaluate_text(input, env),
{
    let start = initial::<T>();
    lemma_parsed_text_has_tokens(input, start, env);
    lemma_parse_is_accept_all(input, start, env);
    let ts = tokens_of(input)->Ok_0;
    let first = first_frames();
    let nothing = first[0];
    assert(first.last() == nothing);
    assert(frame_ok(nothing));
    assert(frame_stack::<T>(nothing) =~= Seq::<Symbol<T>>::empty());
    assert(frame_output(nothing, env) =~= Seq::<Symbol<T>>::empty());
    assert(frame_tokens(nothing) =~= Seq::<Lexeme>::empty());
    assert(first.drop_last() =~= Seq::<Frame>::empty());
    assert(output_of(first.drop_last(), env) =~= Seq::<Symbol<T>>::empty());
    assert(output_of(first, env) =~= Seq::<Symbol<T>>::empty());
    assert(represents(first, start, env));
    lemma_accept_all_tracks(first, start, ts, env);
    let frames = advance_all(first, ts);
    let state = accept_all(ts, start, env)->Ok_0;
    let f = frames.last();
    lemma_last_frame(frames, env);
    assert(frame_ok(f));
    assert forall|i: int| 0 <= i < f.pending.len() implies precedence(
        (#[trigger] f.pending[i]).op,
    ) >= 0 by {
        lemma_precedence_bounds(f.pending[i].op);
    }
    lemma_frame_stack_waits::<T>(f, 0);
    if frames.len() > 1 {
        lemma_drain_finds_bracket(
            stack_of::<T>(frames.drop_last()),
            frame_stack::<T>(f),
            state.outputs,
            0,
        );
    }
    assert(frames.len() == 1);
    assert(frames.drop_last() =~= Seq::<Frame>::empty());
    assert(output_of(frames.drop_last(), env) =~= Seq::<Symbol<T>>::empty());
    assert(state.operators =~= frame_stack::<T>(f));
    assert(state.outputs =~= frame_output(f, env));
    lemma_drain_takes_waiting(frame_stack::<T>(f), frame_output(f, env), 0);
    if f.operand.is_none() {
        lemma_frame_without_operand(f, env);
    }
    lemma_frame_tree(f, env);
    let e = frame_tree(f);
    assert(tokens_read(first) + ts =~= ts);
    assert(tokens(e) == ts);
    lemma_text_means_its_tree(input, e, env);
    e
}

} // verus!
