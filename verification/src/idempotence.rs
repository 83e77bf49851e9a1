//! Simplifying what is already simplified changes nothing.

use crate::evaluator::operands;
use crate::postfix::PostfixModel;
use crate::simplifier::{
    combined, fold_of, joined, question_for, resolved, simplify_model, taken, PieceModel,
    SimplifierModel,
};
use crate::unit::RequestModel;
use vstd::prelude::*;

verus! {

/// The answer that `unit` gives to the question of a token, where it puts
/// one.
pub open spec fn answer_of(
    stack: Seq<PieceModel>,
    t: PostfixModel,
    parameter: char,
    unit: spec_fn(RequestModel) -> u32,
) -> u32 {
    match question_for(stack, t, parameter) {
        Some(q) => unit(q),
        None => 0,
    }
}

/// The stack behind a run of tokens where `unit` answers every question, if
/// every token finds its operands.
pub open spec fn run(
    tokens: Seq<PostfixModel>,
    stack: Seq<PieceModel>,
    parameter: char,
    unit: spec_fn(RequestModel) -> u32,
) -> Option<Seq<PieceModel>>
    decreases tokens.len(),
{
    if tokens.len() == 0 {
        Some(stack)
    } else {
        match resolved(stack, tokens[0], parameter, answer_of(stack, tokens[0], parameter, unit)) {
            Some(next) => run(tokens.drop_first(), next, parameter, unit),
            None => None,
        }
    }
}

/// What a simplification comes to, given the stack behind its last token.
pub open spec fn picked(tokens: Seq<PostfixModel>, end: Option<Seq<PieceModel>>) -> Seq<
    PostfixModel,
> {
    match end {
        Some(stack) => if stack.len() == 1 {
            stack[0].tokens()
        } else {
            tokens
        },
        None => tokens,
    }
}

/// Whether a piece comes back as it is when its own sequence is simplified,
/// whatever lies below it on the stack.
pub open spec fn stable(p: PieceModel, parameter: char, unit: spec_fn(RequestModel) -> u32) -> bool {
    forall|below: Seq<PieceModel>| #[trigger]
        run(p.tokens(), below, parameter, unit) == Some(below.push(p))
}

/// Whether every piece of a stack is stable.
pub open spec fn all_stable(
    stack: Seq<PieceModel>,
    parameter: char,
    unit: spec_fn(RequestModel) -> u32,
) -> bool {
    forall|i: int| 0 <= i < stack.len() ==> stable(#[trigger] stack[i], parameter, unit)
}

/// A simplification under way comes to what the run of the tokens before it
/// leaves.
proof fn lemma_completed_is_run(state: SimplifierModel, unit: spec_fn(RequestModel) -> u32)
    requires
        !state.broken,
        state.position <= state.tokens.len(),
    ensures
        state.completed(unit) == picked(
            state.tokens,
            run(state.tokens.skip(state.position as int), state.stack, state.parameter, unit),
        ),
    decreases state.tokens.len() - state.position,
{
    let rest = state.tokens.skip(state.position as int);
    if state.position < state.tokens.len() {
        let t = state.tokens[state.position as int];
        assert(rest[0] == t);
        assert(rest.drop_first() == state.tokens.skip(state.position as int + 1));
        let answer = answer_of(state.stack, t, state.parameter, unit);
        let next = state.advanced(answer);
        assert(state.completed(unit) == next.completed(unit));
        if next.broken {
            assert(run(rest, state.stack, state.parameter, unit) is None);
        } else {
            lemma_completed_is_run(next, unit);
        }
    } else {
        assert(rest.len() == 0);
    }
}

/// Running two runs of tokens one behind the other is running the second on
/// what the first leaves.
proof fn lemma_run_append(
    first: Seq<PostfixModel>,
    second: Seq<PostfixModel>,
    stack: Seq<PieceModel>,
    parameter: char,
    unit: spec_fn(RequestModel) -> u32,
)
    ensures
        run(first + second, stack, parameter, unit) == match run(first, stack, parameter, unit) {
            Some(middle) => run(second, middle, parameter, unit),
            None => None,
        },
    decreases first.len(),
{
    if first.len() == 0 {
        assert(first + second == second);
    } else {
        let all = first + second;
        assert(all[0] == first[0]);
        assert(all.drop_first() == first.drop_first() + second);
        match resolved(stack, first[0], parameter, answer_of(stack, first[0], parameter, unit)) {
            Some(next) => {
                lemma_run_append(first.drop_first(), second, next, parameter, unit);
            },
            None => {},
        }
    }
}

/// The run of a single token is the step that the token makes.
proof fn lemma_run_one(
    t: PostfixModel,
    stack: Seq<PieceModel>,
    parameter: char,
    unit: spec_fn(RequestModel) -> u32,
)
    ensures
        run(seq![t], stack, parameter, unit) == resolved(
            stack,
            t,
            parameter,
            answer_of(stack, t, parameter, unit),
        ),
{
    let one = seq![t];
    assert(one[0] == t);
    assert(one.drop_first().len() == 0);
    match resolved(stack, t, parameter, answer_of(stack, t, parameter, unit)) {
        Some(next) => {
            assert(run(one.drop_first(), next, parameter, unit) == Some(next));
        },
        None => {},
    }
}

/// The sequences of stable pieces, run one behind the other, leave the
/// pieces on the stack.
proof fn lemma_run_joined(
    pieces: Seq<PieceModel>,
    below: Seq<PieceModel>,
    parameter: char,
    unit: spec_fn(RequestModel) -> u32,
)
    requires
        all_stable(pieces, parameter, unit),
    ensures
        run(joined(pieces), below, parameter, unit) == Some(below + pieces),
    decreases pieces.len(),
{
    if pieces.len() == 0 {
        assert(below + pieces == below);
    } else {
        let rest = pieces.drop_first();
        assert(stable(pieces[0], parameter, unit));
        assert(run(pieces[0].tokens(), below, parameter, unit) == Some(below.push(pieces[0])));
        assert forall|i: int| 0 <= i < rest.len() implies stable(
            #[trigger] rest[i],
            parameter,
            unit,
        ) by {
            assert(rest[i] == pieces[i + 1]);
        }
        lemma_run_append(pieces[0].tokens(), joined(rest), below, parameter, unit);
        lemma_run_joined(rest, below.push(pieces[0]), parameter, unit);
        assert(below.push(pieces[0]) + rest == below + pieces);
    }
}

/// What a token makes of its operands does not depend on what lies below
/// them.
proof fn lemma_resolved_on_top(
    below: Seq<PieceModel>,
    top: Seq<PieceModel>,
    t: PostfixModel,
    parameter: char,
    answer: u32,
)
    requires
        top.len() == operands(t),
    ensures
        taken(below + top, t) == top,
        question_for(below + top, t, parameter) == question_for(top, t, parameter),
        resolved(below + top, t, parameter, answer) == Some(
            below.push(combined(top, t, fold_of(top, t, parameter, answer))),
        ),
{
    let stack = below + top;
    assert(taken(stack, t) == top);
    assert(taken(top, t) == top);
    assert(stack.take(stack.len() - operands(t)) == below);
}

/// The piece that a token makes of stable operands is stable.
proof fn lemma_combined_stable(
    top: Seq<PieceModel>,
    t: PostfixModel,
    parameter: char,
    unit: spec_fn(RequestModel) -> u32,
)
    requires
        top.len() == operands(t),
        all_stable(top, parameter, unit),
    ensures
        stable(
            combined(top, t, fold_of(top, t, parameter, answer_of(top, t, parameter, unit))),
            parameter,
            unit,
        ),
{
    let answer = answer_of(top, t, parameter, unit);
    let p = combined(top, t, fold_of(top, t, parameter, answer));
    assert forall|below: Seq<PieceModel>| #[trigger]
        run(p.tokens(), below, parameter, unit) == Some(below.push(p)) by {
        if p is Known {
            let v = PostfixModel::Value(p->Known_0);
            let none = Seq::<PieceModel>::empty();
            assert(below + none == below);
            assert(p.tokens() == seq![v]);
            lemma_run_one(v, below, parameter, unit);
            lemma_resolved_on_top(below, none, v, parameter, answer_of(below, v, parameter, unit));
        } else if top.len() > 0 && p == top[0] {
            assert(stable(top[0], parameter, unit));
        } else {
            let stack = below + top;
            assert(p == PieceModel::Residual(joined(top).push(t)));
            assert(p.tokens() == joined(top) + seq![t]);
            lemma_run_append(joined(top), seq![t], below, parameter, unit);
            lemma_run_joined(top, below, parameter, unit);
            assert(run(joined(top), below, parameter, unit) == Some(stack));
            lemma_resolved_on_top(below, top, t, parameter, answer_of(stack, t, parameter, unit));
            lemma_resolved_on_top(
                Seq::<PieceModel>::empty(),
                top,
                t,
                parameter,
                answer_of(stack, t, parameter, unit),
            );
            assert(Seq::<PieceModel>::empty() + top == top);
            assert(answer_of(stack, t, parameter, unit) == answer);
            lemma_run_one(t, stack, parameter, unit);
        }
    }
}

/// A token leaves a stack of stable pieces a stack of stable pieces.
proof fn lemma_step_stable(
    stack: Seq<PieceModel>,
    t: PostfixModel,
    parameter: char,
    unit: spec_fn(RequestModel) -> u32,
)
    requires
        all_stable(stack, parameter, unit),
        stack.len() >= operands(t),
    ensures
        all_stable(
            resolved(stack, t, parameter, answer_of(stack, t, parameter, unit))->Some_0,
            parameter,
            unit,
        ),
{
    let k = operands(t);
    let below = stack.take(stack.len() - k);
    let top = stack.skip(stack.len() - k);
    assert(below + top == stack);
    let answer = answer_of(stack, t, parameter, unit);
    lemma_resolved_on_top(below, top, t, parameter, answer);
    assert forall|i: int| 0 <= i < top.len() implies stable(#[trigger] top[i], parameter, unit) by {
        assert(top[i] == stack[stack.len() - k + i]);
    }
    lemma_combined_stable(top, t, parameter, unit);
    let next = resolved(stack, t, parameter, answer)->Some_0;
    assert forall|i: int| 0 <= i < next.len() implies stable(#[trigger] next[i], parameter, unit) by {
        if i < below.len() {
            assert(next[i] == stack[i]);
        }
    }
}

/// A run of tokens leaves a stack of stable pieces a stack of stable pieces.
proof fn lemma_run_stable(
    tokens: Seq<PostfixModel>,
    stack: Seq<PieceModel>,
    parameter: char,
    unit: spec_fn(RequestModel) -> u32,
)
    requires
        all_stable(stack, parameter, unit),
        run(tokens, stack, parameter, unit) is Some,
    ensures
        all_stable(run(tokens, stack, parameter, unit)->Some_0, parameter, unit),
    decreases tokens.len(),
{
    if tokens.len() > 0 {
        lemma_step_stable(stack, tokens[0], parameter, unit);
        let next = resolved(
            stack,
            tokens[0],
            parameter,
            answer_of(stack, tokens[0], parameter, unit),
        )->Some_0;
        lemma_run_stable(tokens.drop_first(), next, parameter, unit);
    }
}

/// What the simplifier gives back is what it gives back for its own result:
/// a simplified sequence is a fixed point. This holds of every sequence, of
/// every parameter, and of every arithmetic unit that answers the same
/// question with the same number.
pub proof fn law_simplify_idempotent(
    tokens: Seq<PostfixModel>,
    parameter: char,
    unit: spec_fn(RequestModel) -> u32,
)
    ensures
        simplify_model(simplify_model(tokens, parameter, unit), parameter, unit) == simplify_model(
            tokens,
            parameter,
            unit,
        ),
{
    let none = Seq::<PieceModel>::empty();
    let first = SimplifierModel::start(tokens, parameter);
    lemma_completed_is_run(first, unit);
    assert(tokens.skip(0) == tokens);
    let end = run(tokens, none, parameter, unit);
    let out = simplify_model(tokens, parameter, unit);
    assert(out == picked(tokens, end));
    if end is Some && end->Some_0.len() == 1 {
        let p = end->Some_0[0];
        lemma_run_stable(tokens, none, parameter, unit);
        assert(stable(p, parameter, unit));
        assert(run(p.tokens(), none, parameter, unit) == Some(none.push(p)));
        let second = SimplifierModel::start(out, parameter);
        lemma_completed_is_run(second, unit);
        assert(out.skip(0) == out);
    }
}

} // verus!
