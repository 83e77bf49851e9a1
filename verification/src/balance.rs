//! When an expression has a postfix order: where its parentheses are
//! balanced and its commas stand among the arguments of functions.

use crate::postfix::{
    convert_from, lemma_flushed_keeps, lemma_yielded_keeps, step, to_postfix_model, ConvertError,
    EntryModel, PostfixModel, YardModel,
};
use crate::lexical::lexical;
use crate::statement::{
    classify_model, first_top_level, is_assignment, is_definition, is_equation,
    lemma_first_top_level, StatementModel,
};
use crate::token::TokenModel;
use vstd::prelude::*;

verus! {

/// Whether its parenthesis follows the name of every function directly.
pub open spec fn calls_open(tokens: Seq<TokenModel>) -> bool {
    forall|i: int|
        0 <= i < tokens.len() && (#[trigger] tokens[i]) is Function ==> i + 1 < tokens.len()
            && tokens[i + 1] is LeftParenthesis
}

/// The parentheses that are open before place `upto`, the innermost last;
/// each with the mark whether it opens the arguments of a function. A
/// closing parenthesis where none is open closes nothing.
pub open spec fn frames(tokens: Seq<TokenModel>, upto: int) -> Seq<bool>
    decreases upto,
{
    if upto <= 0 {
        Seq::empty()
    } else {
        let before = frames(tokens, upto - 1);
        let t = tokens[upto - 1];
        if t is LeftParenthesis {
            before.push(upto >= 2 && tokens[upto - 2] is Function)
        } else if t is RightParenthesis && before.len() > 0 {
            before.drop_last()
        } else {
            before
        }
    }
}

/// The fault of the token at place `at`, if it has one: a closing
/// parenthesis where none is open, a comma that is not directly inside the
/// parenthesis of a function.
pub open spec fn fault_at(tokens: Seq<TokenModel>, at: int) -> Option<ConvertError> {
    let open = frames(tokens, at);
    if tokens[at] is RightParenthesis && open.len() == 0 {
        Some(ConvertError::UnbalancedParentheses)
    } else if tokens[at] is Comma && (open.len() == 0 || !open.last()) {
        Some(ConvertError::MisplacedComma)
    } else {
        None
    }
}

/// The first fault from place `at` on; a parenthesis that is still open at
/// the end is the last of them.
pub open spec fn verdict(tokens: Seq<TokenModel>, at: int) -> Option<ConvertError>
    decreases tokens.len() - at,
{
    if at < 0 || at >= tokens.len() {
        if frames(tokens, tokens.len() as int).len() > 0 {
            Some(ConvertError::UnbalancedParentheses)
        } else {
            None
        }
    } else if fault_at(tokens, at) is Some {
        fault_at(tokens, at)
    } else {
        verdict(tokens, at + 1)
    }
}

/// The parentheses on a stack, the innermost last; each with the mark
/// whether a function lies directly below it.
pub open spec fn parens_of(stack: Seq<EntryModel>) -> Seq<bool>
    decreases stack.len(),
{
    if stack.len() == 0 {
        Seq::empty()
    } else if stack.last() is LeftParenthesis {
        parens_of(stack.drop_last()).push(stack.len() >= 2 && stack[stack.len() - 2] is Function)
    } else {
        parens_of(stack.drop_last())
    }
}

/// Whether every function on a stack lies directly below a parenthesis, but
/// for one on top where `fresh` says that it has just been pushed.
pub open spec fn functions_covered(stack: Seq<EntryModel>, fresh: bool) -> bool {
    forall|k: int|
        0 <= k < stack.len() && (#[trigger] stack[k]) is Function ==> (k + 1 < stack.len()
            && stack[k + 1] is LeftParenthesis) || (k == stack.len() - 1 && fresh)
}

/// Whether a stack agrees with the tokens before place `at`: its parentheses
/// are those that are open there, and its functions lie below theirs.
pub open spec fn agrees(stack: Seq<EntryModel>, tokens: Seq<TokenModel>, at: int) -> bool {
    let fresh = at > 0 && tokens[at - 1] is Function;
    &&& parens_of(stack) == frames(tokens, at)
    &&& functions_covered(stack, fresh)
    &&& fresh ==> stack.len() > 0 && stack.last() is Function
}

/// Operators on top of a stack hide no parenthesis.
proof fn lemma_parens_below_operators(stack: Seq<EntryModel>, kept: int)
    requires
        0 <= kept <= stack.len(),
        forall|k: int| kept <= k < stack.len() ==> (#[trigger] stack[k]).is_operator(),
    ensures
        parens_of(stack.take(kept)) == parens_of(stack),
    decreases stack.len() - kept,
{
    if kept < stack.len() {
        let shorter = stack.drop_last();
        assert(stack.last().is_operator());
        assert(shorter.take(kept) == stack.take(kept));
        assert forall|k: int| kept <= k < shorter.len() implies (
        #[trigger] shorter[k]).is_operator() by {
            assert(shorter[k] == stack[k]);
        }
        lemma_parens_below_operators(shorter, kept);
    } else {
        assert(stack.take(kept) == stack);
    }
}

/// Operators that leave the top of a stack leave a stack that agrees as it
/// did, if no function was on top.
proof fn lemma_agrees_below_operators(
    stack: Seq<EntryModel>,
    kept: int,
    tokens: Seq<TokenModel>,
    at: int,
)
    requires
        0 <= kept <= stack.len(),
        forall|k: int| kept <= k < stack.len() ==> (#[trigger] stack[k]).is_operator(),
        parens_of(stack) == frames(tokens, at),
        functions_covered(stack, false),
    ensures
        parens_of(stack.take(kept)) == frames(tokens, at),
        functions_covered(stack.take(kept), false),
{
    lemma_parens_below_operators(stack, kept);
    let below = stack.take(kept);
    assert forall|k: int| 0 <= k < below.len() && (#[trigger] below[k]) is Function implies k + 1
        < below.len() && below[k + 1] is LeftParenthesis by {
        assert(below[k] == stack[k]);
        assert(stack[k + 1] is LeftParenthesis);
        if k + 1 >= kept {
            assert(stack[k + 1].is_operator());
        }
        assert(below[k + 1] == stack[k + 1]);
    }
}

/// An entry that is no parenthesis, pushed onto a stack, leaves its
/// parentheses as they are.
proof fn lemma_parens_push(stack: Seq<EntryModel>, entry: EntryModel)
    ensures
        parens_of(stack.push(entry)) == if entry is LeftParenthesis {
            parens_of(stack).push(stack.len() > 0 && stack.last() is Function)
        } else {
            parens_of(stack)
        },
{
    let pushed = stack.push(entry);
    assert(pushed.drop_last() == stack);
    if stack.len() > 0 {
        assert(pushed[pushed.len() - 2] == stack.last());
    }
}

/// A stack that agrees with the tokens before a place agrees, behind the
/// token at that place, with the tokens before the next; and the token
/// meets an error exactly where it has a fault.
proof fn lemma_step_agrees(state: YardModel, tokens: Seq<TokenModel>, at: int)
    requires
        0 <= at < tokens.len(),
        calls_open(tokens),
        agrees(state.stack, tokens, at),
    ensures
        match step(state, tokens, at) {
            Ok(next) => fault_at(tokens, at) is None && agrees(next.stack, tokens, at + 1),
            Err(e) => fault_at(tokens, at) == Some(e),
        },
{
    let t = tokens[at];
    let fresh = at > 0 && tokens[at - 1] is Function;
    let stack = state.stack;
    if fresh {
        assert(tokens[at] is LeftParenthesis);
    }
    assert(frames(tokens, at + 1) == if t is LeftParenthesis {
        frames(tokens, at).push(fresh)
    } else if t is RightParenthesis && frames(tokens, at).len() > 0 {
        frames(tokens, at).drop_last()
    } else {
        frames(tokens, at)
    });
    match t {
        TokenModel::Function(name) => {
            let entry = EntryModel::Function { name, commas: 0 };
            lemma_parens_push(stack, entry);
            let next = stack.push(entry);
            assert forall|k: int| 0 <= k < next.len() && (#[trigger] next[k]) is Function implies (k
                + 1 < next.len() && next[k + 1] is LeftParenthesis) || k == next.len() - 1 by {
                if k < stack.len() {
                    assert(next[k] == stack[k]);
                    assert(next[k + 1] == stack[k + 1]);
                }
            }
        },
        TokenModel::LeftParenthesis => {
            let entry = EntryModel::LeftParenthesis;
            lemma_parens_push(stack, entry);
            let next = stack.push(entry);
            assert(fresh == (stack.len() > 0 && stack.last() is Function)) by {
                if stack.len() > 0 && stack.last() is Function {
                    assert(stack[stack.len() - 1] is Function);
                }
            }
            assert forall|k: int| 0 <= k < next.len() && (#[trigger] next[k]) is Function implies k
                + 1 < next.len() && next[k + 1] is LeftParenthesis by {
                assert(next[k] == stack[k]);
                if k + 1 < stack.len() {
                    assert(next[k + 1] == stack[k + 1]);
                }
            }
        },
        TokenModel::Operator(_) => {
            let entry = crate::postfix::entry_of(tokens, at);
            lemma_yielded_keeps(state, entry);
            let kept = state.yielded(entry).stack;
            lemma_agrees_below_operators(stack, kept.len() as int, tokens, at);
            lemma_parens_push(kept, entry);
            let next = kept.push(entry);
            assert forall|k: int| 0 <= k < next.len() && (#[trigger] next[k]) is Function implies k
                + 1 < next.len() && next[k + 1] is LeftParenthesis by {
                assert(next[k] == kept[k]);
                assert(kept[k + 1] is LeftParenthesis);
                assert(next[k + 1] == kept[k + 1]);
            }
        },
        TokenModel::Comma => {
            lemma_flushed_keeps(state);
            let kept = state.flushed().stack;
            lemma_agrees_below_operators(stack, kept.len() as int, tokens, at);
            lemma_top_paren(kept);
            if state.flushed().in_arguments() {
                let below = kept.len() - 2;
                let function = kept[below];
                let next = kept.update(
                    below,
                    EntryModel::Function { name: function->name, commas: function->commas + 1 },
                );
                lemma_parens_same_shape(kept, next);
                assert forall|k: int| 0 <= k < next.len() && (#[trigger] next[k]) is Function implies k
                    + 1 < next.len() && next[k + 1] is LeftParenthesis by {
                    assert(kept[k] is Function);
                    assert(kept[k + 1] is LeftParenthesis);
                }
            }
        },
        TokenModel::RightParenthesis => {
            lemma_flushed_keeps(state);
            let kept = state.flushed().stack;
            lemma_agrees_below_operators(stack, kept.len() as int, tokens, at);
            lemma_top_paren(kept);
            if kept.len() > 0 && kept.last() is LeftParenthesis {
                let opened = kept.drop_last();
                assert(parens_of(opened) == parens_of(kept).drop_last());
                let next = if opened.len() > 0 && opened.last() is Function {
                    opened.drop_last()
                } else {
                    opened
                };
                if opened.len() > 0 && opened.last() is Function {
                    assert(parens_of(next) == parens_of(opened));
                }
                assert forall|k: int| 0 <= k < next.len() && (#[trigger] next[k]) is Function implies k
                    + 1 < next.len() && next[k + 1] is LeftParenthesis by {
                    assert(kept[k] == next[k]);
                    assert(kept[k + 1] is LeftParenthesis);
                    if k + 1 >= next.len() {
                        assert(k + 1 == opened.len() - 1 || k + 1 == kept.len() - 1);
                        if k + 1 == kept.len() - 1 {
                            assert(opened.last() == kept[k]);
                        }
                    } else {
                        assert(next[k + 1] == kept[k + 1]);
                    }
                }
            }
        },
        _ => {
            assert forall|k: int| 0 <= k < stack.len() && (#[trigger] stack[k]) is Function implies k
                + 1 < stack.len() && stack[k + 1] is LeftParenthesis by {}
        },
    }
}

/// Where no operator and no function lies on top of a stack whose functions
/// are covered, a parenthesis does or nothing; and the parenthesis on top is
/// the innermost.
proof fn lemma_top_paren(stack: Seq<EntryModel>)
    requires
        functions_covered(stack, false),
        stack.len() > 0 ==> !stack.last().is_operator(),
    ensures
        stack.len() > 0 ==> stack.last() is LeftParenthesis,
        parens_of(stack).len() > 0 <==> stack.len() > 0,
        stack.len() > 0 ==> parens_of(stack).last() == (stack.len() >= 2 && stack[stack.len()
            - 2] is Function),
{
    if stack.len() > 0 {
        if stack.last() is Function {
            assert(stack[stack.len() - 1] is Function);
        }
    }
}

/// Two stacks whose entries are of the same kinds have the same
/// parentheses.
proof fn lemma_parens_same_shape(first: Seq<EntryModel>, second: Seq<EntryModel>)
    requires
        first.len() == second.len(),
        forall|k: int|
            0 <= k < first.len() ==> ((#[trigger] first[k]) is LeftParenthesis
                <==> second[k] is LeftParenthesis) && (first[k] is Function
                <==> second[k] is Function),
    ensures
        parens_of(first) == parens_of(second),
    decreases first.len(),
{
    if first.len() > 0 {
        let a = first.drop_last();
        let b = second.drop_last();
        assert forall|k: int| 0 <= k < a.len() implies ((#[trigger] a[k]) is LeftParenthesis
            <==> b[k] is LeftParenthesis) && (a[k] is Function <==> b[k] is Function) by {
            assert(a[k] == first[k] && b[k] == second[k]);
        }
        lemma_parens_same_shape(a, b);
        assert(first.last() == first[first.len() - 1]);
        if first.len() >= 2 {
            assert(first[first.len() - 2] is Function <==> second[second.len() - 2] is Function);
        }
    }
}

/// At the end the stack drains without an error exactly where it holds no
/// parenthesis.
proof fn lemma_drained(state: YardModel)
    ensures
        state.drained() is Err <==> parens_of(state.stack).len() > 0,
        state.drained() is Err ==> state.drained() == Err::<Seq<PostfixModel>, ConvertError>(
            ConvertError::UnbalancedParentheses,
        ),
    decreases state.stack.len(),
{
    if state.stack.len() > 0 && !(state.stack.last() is LeftParenthesis) {
        lemma_drained(state.shifted());
    }
}

/// From a place on, a conversion fails exactly where the verdict names a
/// fault, and with that fault.
proof fn lemma_convert_verdict(tokens: Seq<TokenModel>, at: int, state: YardModel)
    requires
        0 <= at <= tokens.len(),
        calls_open(tokens),
        agrees(state.stack, tokens, at),
    ensures
        convert_from(tokens, at, state) is Err <==> verdict(tokens, at) is Some,
        convert_from(tokens, at, state) is Err ==> verdict(tokens, at) == Some(
            convert_from(tokens, at, state)->Err_0,
        ),
    decreases tokens.len() - at,
{
    if at >= tokens.len() {
        lemma_drained(state);
    } else {
        lemma_step_agrees(state, tokens, at);
        match step(state, tokens, at) {
            Ok(next) => {
                lemma_convert_verdict(tokens, at + 1, next);
            },
            Err(e) => {},
        }
    }
}

/// An expression in which its parenthesis follows the name of every
/// function has a postfix order exactly where every closing parenthesis
/// closes one that is open, every comma stands directly inside the
/// parenthesis of a function, and no parenthesis is open at the end. Where
/// it has none, the error is that of the first of these faults.
pub proof fn law_postfix_exists(tokens: Seq<TokenModel>)
    requires
        calls_open(tokens),
    ensures
        to_postfix_model(tokens) is Ok <==> verdict(tokens, 0) is None,
        to_postfix_model(tokens) is Err ==> verdict(tokens, 0) == Some(
            to_postfix_model(tokens)->Err_0,
        ),
{
    let start = YardModel::start();
    assert(parens_of(start.stack) == frames(tokens, 0));
    lemma_convert_verdict(tokens, 0, start);
}

/// Whether its parenthesis follows the name of every function in every
/// expression of a statement.
pub open spec fn statement_calls_open(statement: StatementModel) -> bool {
    match statement {
        StatementModel::FunctionDefinition { name, param, body } => calls_open(body),
        StatementModel::Equation { left, op, right } => calls_open(left) && calls_open(right),
        StatementModel::CalculableExpression(e) => calls_open(e),
        StatementModel::VariableAssignment { name, value } => calls_open(value),
        StatementModel::Unrecognized => true,
    }
}

/// What follows a place in a run where its parenthesis follows the name of
/// every function is such a run.
proof fn lemma_calls_open_skip(tokens: Seq<TokenModel>, from: int)
    requires
        calls_open(tokens),
        0 <= from <= tokens.len(),
    ensures
        calls_open(tokens.skip(from)),
{
    let rest = tokens.skip(from);
    assert forall|i: int| 0 <= i < rest.len() && (#[trigger] rest[i]) is Function implies i + 1
        < rest.len() && rest[i + 1] is LeftParenthesis by {
        assert(tokens[i + from] is Function);
        assert(rest[i + 1] == tokens[i + from + 1]);
    }
}

/// A run of tokens that the lexer can give is one in which its parenthesis
/// follows the name of every function.
pub proof fn lemma_lexical_calls_open(tokens: Seq<TokenModel>)
    requires
        lexical(tokens),
    ensures
        calls_open(tokens),
{
    assert forall|i: int| 0 <= i < tokens.len() && (#[trigger] tokens[i]) is Function implies i + 1
        < tokens.len() && tokens[i + 1] is LeftParenthesis by {}
}

/// Where its parenthesis follows the name of every function among the
/// tokens, it does so in every expression of the statement that they make:
/// of such a statement the law on when a postfix order exists holds.
pub proof fn law_statement_calls_open(tokens: Seq<TokenModel>)
    requires
        calls_open(tokens),
    ensures
        statement_calls_open(classify_model(tokens)),
{
    if is_definition(tokens) {
        lemma_calls_open_skip(tokens, 5);
    } else if is_equation(tokens) {
        lemma_first_top_level(tokens, 0);
        let at = first_top_level(tokens, 0) as int;
        lemma_calls_open_skip(tokens, at + 1);
        let left = tokens.take(at);
        assert forall|i: int| 0 <= i < left.len() && (#[trigger] left[i]) is Function implies i + 1
            < left.len() && left[i + 1] is LeftParenthesis by {
            assert(tokens[i] is Function);
            assert(tokens[i + 1] is LeftParenthesis);
            assert(left[i + 1] == tokens[i + 1]);
        }
    } else if is_assignment(tokens) {
        lemma_calls_open_skip(tokens, 2);
    }
}

} // verus!
