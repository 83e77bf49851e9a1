//! The value of an expression: that of the tree which it writes.

use crate::evaluator::{evaluate_model, question_for, resolved, EvalError, EvaluatorModel};
use crate::grammar::{postfixes, Tree};
use crate::operator::Operator;
use crate::postfix::{to_postfix_model, PostfixModel};
use crate::precedence::law_precedence;
use crate::scalar::{is_nan, is_zero, negated};
use crate::unit::{Builtin, RequestModel};
use vstd::prelude::*;

verus! {

/// An answer of the arithmetic unit as a value: what is no number is an
/// invalid operation.
pub open spec fn accepted(answer: u32) -> Result<u32, EvalError> {
    if is_nan(answer) {
        Err(EvalError::InvalidOperation)
    } else {
        Ok(answer)
    }
}

/// The value of an operator on two numbers.
pub open spec fn applied(
    op: Operator,
    lhs: u32,
    rhs: u32,
    unit: spec_fn(RequestModel) -> u32,
) -> Result<u32, EvalError> {
    if op == Operator::Div && is_zero(rhs) {
        Err(EvalError::DivisionByZero)
    } else {
        accepted(unit(RequestModel::Operate { op, lhs, rhs }))
    }
}

/// The value of the function of a name on the numbers of its arguments.
pub open spec fn called(
    name: Seq<char>,
    numbers: Seq<u32>,
    unit: spec_fn(RequestModel) -> u32,
) -> Result<u32, EvalError> {
    match Builtin::named(name) {
        None => Err(EvalError::UnknownFunction),
        Some(function) => if function.arity() != numbers.len() {
            Err(EvalError::InvalidOperation)
        } else if numbers.len() == 1 {
            accepted(unit(RequestModel::Call1 { function, argument: numbers[0] }))
        } else {
            accepted(
                unit(RequestModel::Call2 { function, first: numbers[0], second: numbers[1] }),
            )
        },
    }
}

/// The value of a tree under bindings, where `unit` does the arithmetic:
/// that of its operation on the values of its operands, the left before the
/// right; or the first error on the way.
pub open spec fn value(
    t: Tree,
    bindings: Map<char, u32>,
    unit: spec_fn(RequestModel) -> u32,
) -> Result<u32, EvalError>
    decreases t, 0nat,
{
    match t {
        Tree::Number(n) => accepted(unit(RequestModel::Convert(n))),
        Tree::Variable(c) | Tree::Constant(c) => if bindings.contains_key(c) {
            Ok(bindings[c])
        } else {
            Err(EvalError::UnboundVariable)
        },
        Tree::Group(inner) => value(*inner, bindings, unit),
        Tree::Negative(inner) => match value(*inner, bindings, unit) {
            Ok(v) => Ok(negated(v)),
            Err(e) => Err(e),
        },
        Tree::Binary(op, left, right) => match value(*left, bindings, unit) {
            Ok(lhs) => match value(*right, bindings, unit) {
                Ok(rhs) => applied(op, lhs, rhs, unit),
                Err(e) => Err(e),
            },
            Err(e) => Err(e),
        },
        Tree::Call(name, args) => match values(args, 0, bindings, unit) {
            Ok(numbers) => called(name, numbers, unit),
            Err(e) => Err(e),
        },
    }
}

/// The values of the trees from place `from` on, or the first error among
/// them.
pub open spec fn values(
    trees: Seq<Tree>,
    from: nat,
    bindings: Map<char, u32>,
    unit: spec_fn(RequestModel) -> u32,
) -> Result<Seq<u32>, EvalError>
    decreases trees, trees.len() - from,
{
    if from >= trees.len() {
        Ok(Seq::empty())
    } else {
        match value(trees[from as int], bindings, unit) {
            Ok(v) => match values(trees, from + 1, bindings, unit) {
                Ok(rest) => Ok(seq![v] + rest),
                Err(e) => Err(e),
            },
            Err(e) => Err(e),
        }
    }
}

/// The answer that `unit` gives to the question of a token, where it puts
/// one.
pub open spec fn answer_of(stack: Seq<u32>, t: PostfixModel, unit: spec_fn(RequestModel) -> u32) -> u32 {
    match question_for(stack, t) {
        Some(q) => unit(q),
        None => 0,
    }
}

/// The stack behind a run of postfix tokens, or the first error among them.
pub open spec fn computed(
    tokens: Seq<PostfixModel>,
    stack: Seq<u32>,
    bindings: Map<char, u32>,
    unit: spec_fn(RequestModel) -> u32,
) -> Result<Seq<u32>, EvalError>
    decreases tokens.len(),
{
    if tokens.len() == 0 {
        Ok(stack)
    } else {
        match resolved(stack, bindings, tokens[0], answer_of(stack, tokens[0], unit)) {
            Ok(next) => computed(tokens.drop_first(), next, bindings, unit),
            Err(e) => Err(e),
        }
    }
}

/// What an evaluation comes to, given the stack behind its last token.
pub open spec fn result_of(end: Result<Seq<u32>, EvalError>) -> Result<u32, EvalError> {
    match end {
        Ok(stack) => if stack.len() == 1 {
            Ok(stack[0])
        } else {
            Err(EvalError::InvalidOperation)
        },
        Err(e) => Err(e),
    }
}

/// An evaluation under way comes to what the run of the tokens before it
/// leaves.
proof fn lemma_completed_is_computed(state: EvaluatorModel, unit: spec_fn(RequestModel) -> u32)
    requires
        state.failure is None,
        state.position <= state.tokens.len(),
    ensures
        state.completed(unit) == result_of(
            computed(state.tokens.skip(state.position as int), state.stack, state.bindings, unit),
        ),
    decreases state.tokens.len() - state.position,
{
    let rest = state.tokens.skip(state.position as int);
    if state.position < state.tokens.len() {
        let t = state.tokens[state.position as int];
        assert(rest[0] == t);
        assert(rest.drop_first() == state.tokens.skip(state.position as int + 1));
        let next = state.advanced(answer_of(state.stack, t, unit));
        assert(state.completed(unit) == next.completed(unit));
        if next.failure is None {
            lemma_completed_is_computed(next, unit);
        }
    } else {
        assert(rest.len() == 0);
    }
}

/// Running two runs of tokens one behind the other is running the second on
/// what the first leaves.
proof fn lemma_computed_append(
    first: Seq<PostfixModel>,
    second: Seq<PostfixModel>,
    stack: Seq<u32>,
    bindings: Map<char, u32>,
    unit: spec_fn(RequestModel) -> u32,
)
    ensures
        computed(first + second, stack, bindings, unit) == match computed(
            first,
            stack,
            bindings,
            unit,
        ) {
            Ok(middle) => computed(second, middle, bindings, unit),
            Err(e) => Err(e),
        },
    decreases first.len(),
{
    if first.len() == 0 {
        assert(first + second == second);
    } else {
        let all = first + second;
        assert(all[0] == first[0]);
        assert(all.drop_first() == first.drop_first() + second);
        match resolved(stack, bindings, first[0], answer_of(stack, first[0], unit)) {
            Ok(next) => lemma_computed_append(first.drop_first(), second, next, bindings, unit),
            Err(e) => {},
        }
    }
}

/// The run of a single token is the step that the token makes.
proof fn lemma_computed_one(
    t: PostfixModel,
    stack: Seq<u32>,
    bindings: Map<char, u32>,
    unit: spec_fn(RequestModel) -> u32,
)
    ensures
        computed(seq![t], stack, bindings, unit) == resolved(
            stack,
            bindings,
            t,
            answer_of(stack, t, unit),
        ),
{
    let one = seq![t];
    assert(one[0] == t);
    assert(one.drop_first().len() == 0);
    match resolved(stack, bindings, t, answer_of(stack, t, unit)) {
        Ok(next) => {
            assert(computed(one.drop_first(), next, bindings, unit) == Ok::<Seq<u32>, EvalError>(
                next,
            ));
        },
        Err(e) => {},
    }
}

/// The run of a run of tokens and one more is the step of that one on what
/// the run leaves.
proof fn lemma_computed_push(
    tokens: Seq<PostfixModel>,
    t: PostfixModel,
    stack: Seq<u32>,
    bindings: Map<char, u32>,
    unit: spec_fn(RequestModel) -> u32,
)
    ensures
        computed(tokens.push(t), stack, bindings, unit) == match computed(
            tokens,
            stack,
            bindings,
            unit,
        ) {
            Ok(middle) => resolved(middle, bindings, t, answer_of(middle, t, unit)),
            Err(e) => Err(e),
        },
{
    assert(tokens.push(t) == tokens + seq![t]);
    lemma_computed_append(tokens, seq![t], stack, bindings, unit);
    match computed(tokens, stack, bindings, unit) {
        Ok(middle) => lemma_computed_one(t, middle, bindings, unit),
        Err(e) => {},
    }
}

/// The postfix order of a tree, run on a stack, leaves the value of the
/// tree on top of it, or meets the error that the tree has for a value.
proof fn lemma_tree_computed(
    t: Tree,
    stack: Seq<u32>,
    bindings: Map<char, u32>,
    unit: spec_fn(RequestModel) -> u32,
)
    ensures
        computed(t.postfix(), stack, bindings, unit) == match value(t, bindings, unit) {
            Ok(v) => Ok(stack.push(v)),
            Err(e) => Err(e),
        },
    decreases t, 0nat,
{
    match t {
        Tree::Group(inner) => {
            lemma_tree_computed(*inner, stack, bindings, unit);
        },
        Tree::Negative(inner) => {
            lemma_tree_computed(*inner, stack, bindings, unit);
            lemma_computed_push(inner.postfix(), PostfixModel::Negate, stack, bindings, unit);
            match value(*inner, bindings, unit) {
                Ok(v) => {
                    assert(stack.push(v).drop_last() == stack);
                },
                Err(e) => {},
            }
        },
        Tree::Binary(op, left, right) => {
            lemma_tree_computed(*left, stack, bindings, unit);
            lemma_computed_append(left.postfix(), right.postfix(), stack, bindings, unit);
            lemma_computed_push(
                left.postfix() + right.postfix(),
                PostfixModel::Binary(op),
                stack,
                bindings,
                unit,
            );
            match value(*left, bindings, unit) {
                Ok(lhs) => {
                    lemma_tree_computed(*right, stack.push(lhs), bindings, unit);
                    match value(*right, bindings, unit) {
                        Ok(rhs) => {
                            let full = stack.push(lhs).push(rhs);
                            assert(full.take(full.len() - 2) == stack);
                        },
                        Err(e) => {},
                    }
                },
                Err(e) => {},
            }
        },
        Tree::Call(name, args) => {
            lemma_trees_computed(args, 0, stack, bindings, unit);
            lemma_computed_push(
                postfixes(args, 0),
                PostfixModel::Call { name, args: args.len() },
                stack,
                bindings,
                unit,
            );
            lemma_values_len(args, 0, bindings, unit);
            match values(args, 0, bindings, unit) {
                Ok(numbers) => {
                    let full = stack + numbers;
                    assert(full.take(full.len() - numbers.len()) == stack);
                    if numbers.len() >= 1 {
                        assert(full.last() == numbers.last());
                    }
                    if numbers.len() >= 2 {
                        assert(full[full.len() - 2] == numbers[numbers.len() - 2]);
                    }
                },
                Err(e) => {},
            }
        },
        _ => {
            lemma_computed_one(t.postfix()[0], stack, bindings, unit);
            assert(t.postfix() == seq![t.postfix()[0]]);
            assert(stack.take(stack.len() as int) == stack);
        },
    }
}

/// As many values as trees.
proof fn lemma_values_len(
    trees: Seq<Tree>,
    from: nat,
    bindings: Map<char, u32>,
    unit: spec_fn(RequestModel) -> u32,
)
    requires
        from <= trees.len(),
    ensures
        values(trees, from, bindings, unit) is Ok ==> values(
            trees,
            from,
            bindings,
            unit,
        )->Ok_0.len() == trees.len() - from,
    decreases trees.len() - from,
{
    if from < trees.len() {
        lemma_values_len(trees, from + 1, bindings, unit);
    }
}

/// The postfix orders of trees, run one behind the other on a stack, leave
/// the values of the trees on top of it, or meet the first error among
/// them.
proof fn lemma_trees_computed(
    trees: Seq<Tree>,
    from: nat,
    stack: Seq<u32>,
    bindings: Map<char, u32>,
    unit: spec_fn(RequestModel) -> u32,
)
    ensures
        computed(postfixes(trees, from), stack, bindings, unit) == match values(
            trees,
            from,
            bindings,
            unit,
        ) {
            Ok(numbers) => Ok(stack + numbers),
            Err(e) => Err(e),
        },
    decreases trees, trees.len() - from,
{
    if from >= trees.len() {
        assert(stack + Seq::<u32>::empty() == stack);
    } else {
        let t = trees[from as int];
        lemma_tree_computed(t, stack, bindings, unit);
        lemma_computed_append(t.postfix(), postfixes(trees, from + 1), stack, bindings, unit);
        match value(t, bindings, unit) {
            Ok(v) => {
                lemma_trees_computed(trees, from + 1, stack.push(v), bindings, unit);
                match values(trees, from + 1, bindings, unit) {
                    Ok(rest) => {
                        assert(stack.push(v) + rest == stack + (seq![v] + rest));
                    },
                    Err(e) => {},
                }
            },
            Err(e) => {},
        }
    }
}

/// The postfix order of a tree evaluates to the value of the tree.
pub proof fn law_postfix_value(
    t: Tree,
    bindings: Map<char, u32>,
    unit: spec_fn(RequestModel) -> u32,
)
    ensures
        evaluate_model(t.postfix(), bindings, unit) == value(t, bindings, unit),
{
    let start = EvaluatorModel::start(t.postfix(), bindings);
    let none = Seq::<u32>::empty();
    lemma_completed_is_computed(start, unit);
    assert(t.postfix().skip(0) == t.postfix());
    lemma_tree_computed(t, none, bindings, unit);
}

/// An expression that is written as its tree asks has the value of the
/// tree: converting it to postfix order and evaluating that gives what the
/// operations of the tree give, each on the values of its operands. What
/// binds tighter is applied first, powers from the right, every other chain
/// from the left.
pub proof fn law_expression_value(
    t: Tree,
    bindings: Map<char, u32>,
    unit: spec_fn(RequestModel) -> u32,
)
    requires
        t.valid(),
    ensures
        to_postfix_model(t.written()) is Ok,
        evaluate_model(to_postfix_model(t.written())->Ok_0, bindings, unit) == value(
            t,
            bindings,
            unit,
        ),
{
    law_precedence(t);
    law_postfix_value(t, bindings, unit);
}

} // verus!
