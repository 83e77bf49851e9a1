//! The converter: from an expression as written to its postfix order.

use crate::balance::{calls_open, law_postfix_exists, verdict};
use crate::grammar::Tree;
use crate::numeral::Numeral;
use crate::operator::Operator;
use crate::precedence::law_precedence;
use crate::statement::CalculatableExpr;
use crate::token::{lemma_pop_model, lemma_push_model, SimpleToken, TokenModel};
use vstd::prelude::*;

verus! {

/// The mathematical model of a token in postfix order.
pub enum PostfixModel {
    Literal(Seq<char>),
    Value(u32),
    Variable(char),
    Constant(char),
    Binary(Operator),
    Negate,
    Call { name: Seq<char>, args: nat },
}

/// A token of a sequence in postfix order.
#[derive(Debug, PartialEq)]
pub enum PostfixToken {
    /// A number as written.
    Literal(Numeral),
    /// A number that was computed, by the bit pattern of its single-precision
    /// value.
    Value(u32),
    Variable(char),
    Constant(char),
    /// An operator on the two operands before it.
    Binary(Operator),
    /// The unary minus, on the operand before it.
    Negate,
    /// A function on the `args` operands before it.
    Call { name: String, args: usize },
}

/// The mathematical model of an entry of the operator stack.
pub enum EntryModel {
    Operator(Operator),
    Negate,
    Function { name: Seq<char>, commas: nat },
    LeftParenthesis,
}

/// An entry of the operator stack.
pub enum ShuntingYardOperator {
    Operator(Operator),
    /// The unary minus.
    Negate,
    /// A function whose arguments are being read, with the number of commas
    /// met among them so far.
    Function { name: String, commas: usize },
    LeftParenthesis,
}

/// Why an expression has no postfix order.
#[derive(Clone, Copy, Debug, PartialEq, Eq, Structural)]
pub enum ConvertError {
    /// A parenthesis is never closed, or one closes that was not opened.
    UnbalancedParentheses,
    /// A comma stands where no arguments of a function are being read.
    MisplacedComma,
}

impl View for PostfixToken {
    type V = PostfixModel;

    open spec fn view(&self) -> PostfixModel {
        match self {
            PostfixToken::Literal(n) => PostfixModel::Literal(n@),
            PostfixToken::Value(bits) => PostfixModel::Value(*bits),
            PostfixToken::Variable(c) => PostfixModel::Variable(*c),
            PostfixToken::Constant(c) => PostfixModel::Constant(*c),
            PostfixToken::Binary(op) => PostfixModel::Binary(*op),
            PostfixToken::Negate => PostfixModel::Negate,
            PostfixToken::Call { name, args } => PostfixModel::Call {
                name: name@,
                args: *args as nat,
            },
        }
    }
}

impl DeepView for PostfixToken {
    type V = PostfixModel;

    open spec fn deep_view(&self) -> PostfixModel {
        self@
    }
}

impl Clone for PostfixToken {
    fn clone(&self) -> (t: Self)
        ensures
            t == *self,
    {
        match self {
            PostfixToken::Literal(n) => PostfixToken::Literal(n.clone()),
            PostfixToken::Value(bits) => PostfixToken::Value(*bits),
            PostfixToken::Variable(c) => PostfixToken::Variable(*c),
            PostfixToken::Constant(c) => PostfixToken::Constant(*c),
            PostfixToken::Binary(op) => PostfixToken::Binary(*op),
            PostfixToken::Negate => PostfixToken::Negate,
            PostfixToken::Call { name, args } => PostfixToken::Call {
                name: name.clone(),
                args: *args,
            },
        }
    }
}

impl View for ShuntingYardOperator {
    type V = EntryModel;

    open spec fn view(&self) -> EntryModel {
        match self {
            ShuntingYardOperator::Operator(op) => EntryModel::Operator(*op),
            ShuntingYardOperator::Negate => EntryModel::Negate,
            ShuntingYardOperator::Function { name, commas } => EntryModel::Function {
                name: name@,
                commas: *commas as nat,
            },
            ShuntingYardOperator::LeftParenthesis => EntryModel::LeftParenthesis,
        }
    }
}

impl DeepView for ShuntingYardOperator {
    type V = EntryModel;

    open spec fn deep_view(&self) -> EntryModel {
        self@
    }
}

impl EntryModel {
    /// Whether the entry is an operator, binary or unary.
    pub open spec fn is_operator(self) -> bool {
        self is Operator || self is Negate
    }

    /// How tightly an operator binds. The unary minus binds tighter than
    /// addition and looser than multiplication.
    pub open spec fn precedence(self) -> nat {
        match self {
            EntryModel::Operator(op) => op.precedence(),
            EntryModel::Negate => 2,
            _ => 0,
        }
    }

    /// Whether a chain of the operator groups from the right.
    pub open spec fn right_associative(self) -> bool {
        match self {
            EntryModel::Operator(op) => op.right_associative(),
            EntryModel::Negate => true,
            _ => false,
        }
    }

    /// Whether the entry, on top of the stack, leaves it before `incoming` is
    /// pushed: it does where it is an operator that binds tighter, or as
    /// tightly while `incoming` groups from the left.
    pub open spec fn yields_to(self, incoming: EntryModel) -> bool {
        self.is_operator() && (self.precedence() > incoming.precedence() || (self.precedence()
            == incoming.precedence() && !incoming.right_associative()))
    }

    /// The entry as it stands in the output once it has left the stack. A
    /// function that leaves it without a parenthesis of its own has no
    /// argument.
    pub open spec fn emitted(self) -> PostfixModel {
        match self {
            EntryModel::Operator(op) => PostfixModel::Binary(op),
            EntryModel::Negate => PostfixModel::Negate,
            EntryModel::Function { name, commas } => PostfixModel::Call { name, args: 0 },
            EntryModel::LeftParenthesis => PostfixModel::Negate,
        }
    }
}

/// The state of a conversion: the operator stack, its top last, and the
/// output so far.
pub struct YardModel {
    pub stack: Seq<EntryModel>,
    pub output: Seq<PostfixModel>,
}

impl YardModel {
    pub open spec fn start() -> YardModel {
        YardModel { stack: Seq::empty(), output: Seq::empty() }
    }

    /// The top of the stack moved to the output.
    pub open spec fn shifted(self) -> YardModel
        recommends
            self.stack.len() > 0,
    {
        YardModel {
            stack: self.stack.drop_last(),
            output: self.output.push(self.stack.last().emitted()),
        }
    }

    /// The state once every entry on top that yields to `incoming` has moved
    /// to the output.
    pub open spec fn yielded(self, incoming: EntryModel) -> YardModel
        decreases self.stack.len(),
    {
        if self.stack.len() > 0 && self.stack.last().yields_to(incoming) {
            self.shifted().yielded(incoming)
        } else {
            self
        }
    }

    /// The state once every operator on top has moved to the output.
    pub open spec fn flushed(self) -> YardModel
        decreases self.stack.len(),
    {
        if self.stack.len() > 0 && self.stack.last().is_operator() {
            self.shifted().flushed()
        } else {
            self
        }
    }

    /// Whether the top of the stack is the parenthesis that opens the
    /// arguments of a function.
    pub open spec fn in_arguments(self) -> bool {
        &&& self.stack.len() >= 2
        &&& self.stack.last() is LeftParenthesis
        &&& self.stack[self.stack.len() - 2] is Function
    }

    /// The output once the input has ended: what is left on the stack follows
    /// it, top first, unless a parenthesis is left there.
    pub open spec fn drained(self) -> Result<Seq<PostfixModel>, ConvertError>
        decreases self.stack.len(),
    {
        if self.stack.len() == 0 {
            Ok(self.output)
        } else if self.stack.last() is LeftParenthesis {
            Err(ConvertError::UnbalancedParentheses)
        } else {
            self.shifted().drained()
        }
    }
}

/// Whether a minus at place `at` is the unary one: it is at the start, and
/// behind an opening parenthesis, a comma or an operator.
pub open spec fn unary_context(tokens: Seq<TokenModel>, at: int) -> bool {
    at == 0 || tokens[at - 1] is LeftParenthesis || tokens[at - 1] is Comma || tokens[at
        - 1] is Operator
}

/// Whether the token before place `at` is an opening parenthesis.
pub open spec fn just_opened(tokens: Seq<TokenModel>, at: int) -> bool {
    at > 0 && tokens[at - 1] is LeftParenthesis
}

/// The entry that the operator at place `at` is pushed as.
pub open spec fn entry_of(tokens: Seq<TokenModel>, at: int) -> EntryModel
    recommends
        0 <= at < tokens.len(),
        tokens[at] is Operator,
{
    if tokens[at] == TokenModel::Operator(Operator::Sub) && unary_context(tokens, at) {
        EntryModel::Negate
    } else {
        EntryModel::Operator(tokens[at]->Operator_0)
    }
}

/// The state behind the token at place `at`, or the error that the token
/// meets.
///
/// A number, a variable and a constant go to the output. A function and an
/// opening parenthesis go onto the stack. An operator first sends to the
/// output what yields to it, then goes onto the stack. A comma sends the
/// operators on top to the output and must then find the parenthesis of a
/// function's arguments. A closing parenthesis sends the operators on top to
/// the output, must then find a parenthesis, which it removes, and takes the
/// function below it, if there is one, to the output with the number of its
/// arguments.
pub open spec fn step(state: YardModel, tokens: Seq<TokenModel>, at: int) -> Result<
    YardModel,
    ConvertError,
>
    recommends
        0 <= at < tokens.len(),
{
    match tokens[at] {
        TokenModel::Number(n) => Ok(
            YardModel { output: state.output.push(PostfixModel::Literal(n)), ..state },
        ),
        TokenModel::Variable(c) => Ok(
            YardModel { output: state.output.push(PostfixModel::Variable(c)), ..state },
        ),
        TokenModel::Constant(c) => Ok(
            YardModel { output: state.output.push(PostfixModel::Constant(c)), ..state },
        ),
        TokenModel::Function(name) => Ok(
            YardModel { stack: state.stack.push(EntryModel::Function { name, commas: 0 }), ..state },
        ),
        TokenModel::LeftParenthesis => Ok(
            YardModel { stack: state.stack.push(EntryModel::LeftParenthesis), ..state },
        ),
        TokenModel::Operator(_) => {
            let entry = entry_of(tokens, at);
            let yielded = state.yielded(entry);
            Ok(YardModel { stack: yielded.stack.push(entry), ..yielded })
        },
        TokenModel::Comma => {
            let flushed = state.flushed();
            if flushed.in_arguments() {
                let below = flushed.stack.len() - 2;
                let function = flushed.stack[below];
                Ok(
                    YardModel {
                        stack: flushed.stack.update(
                            below,
                            EntryModel::Function {
                                name: function->name,
                                commas: function->commas + 1,
                            },
                        ),
                        ..flushed
                    },
                )
            } else {
                Err(ConvertError::MisplacedComma)
            }
        },
        TokenModel::RightParenthesis => {
            let flushed = state.flushed();
            if flushed.stack.len() > 0 && flushed.stack.last() is LeftParenthesis {
                let opened = flushed.stack.drop_last();
                if opened.len() > 0 && opened.last() is Function {
                    let args = if just_opened(tokens, at) {
                        0
                    } else {
                        opened.last()->commas + 1
                    };
                    Ok(
                        YardModel {
                            stack: opened.drop_last(),
                            output: flushed.output.push(
                                PostfixModel::Call { name: opened.last()->name, args },
                            ),
                        },
                    )
                } else {
                    Ok(YardModel { stack: opened, ..flushed })
                }
            } else {
                Err(ConvertError::UnbalancedParentheses)
            }
        },
        _ => Ok(state),
    }
}

/// The outcome of a conversion that stands before place `at` in `state`.
pub open spec fn convert_from(tokens: Seq<TokenModel>, at: int, state: YardModel) -> Result<
    Seq<PostfixModel>,
    ConvertError,
>
    decreases tokens.len() - at,
{
    if at < 0 || at >= tokens.len() {
        state.drained()
    } else {
        match step(state, tokens, at) {
            Ok(next) => convert_from(tokens, at + 1, next),
            Err(e) => Err(e),
        }
    }
}

/// The postfix order of an expression, or the first error on the way to it.
pub open spec fn to_postfix_model(tokens: Seq<TokenModel>) -> Result<
    Seq<PostfixModel>,
    ConvertError,
> {
    convert_from(tokens, 0, YardModel::start())
}

impl ShuntingYardOperator {
    fn is_operator(&self) -> (b: bool)
        ensures
            b == self@.is_operator(),
    {
        match self {
            ShuntingYardOperator::Operator(_) => true,
            ShuntingYardOperator::Negate => true,
            _ => false,
        }
    }

    fn binds(&self) -> (p: u8)
        ensures
            p == self@.precedence(),
    {
        match self {
            ShuntingYardOperator::Operator(op) => op.binds(),
            ShuntingYardOperator::Negate => 2,
            _ => 0,
        }
    }

    fn groups_right(&self) -> (b: bool)
        ensures
            b == self@.right_associative(),
    {
        match self {
            ShuntingYardOperator::Operator(op) => op.groups_right(),
            ShuntingYardOperator::Negate => true,
            _ => false,
        }
    }

    fn yields_to(&self, incoming: &ShuntingYardOperator) -> (b: bool)
        ensures
            b == self@.yields_to(incoming@),
    {
        self.is_operator() && (self.binds() > incoming.binds() || (self.binds() == incoming.binds()
            && !incoming.groups_right()))
    }

    fn emit(self) -> (t: PostfixToken)
        ensures
            t@ == self@.emitted(),
    {
        match self {
            ShuntingYardOperator::Operator(op) => PostfixToken::Binary(op),
            ShuntingYardOperator::Negate => PostfixToken::Negate,
            ShuntingYardOperator::Function { name, commas } => PostfixToken::Call { name, args: 0 },
            ShuntingYardOperator::LeftParenthesis => PostfixToken::Negate,
        }
    }
}

/// The state that a stack and an output are in.
pub open spec fn yard(stack: Vec<ShuntingYardOperator>, output: Vec<PostfixToken>) -> YardModel {
    YardModel { stack: stack.deep_view(), output: output.deep_view() }
}

/// Moves the top of the stack to the output.
fn shift(stack: &mut Vec<ShuntingYardOperator>, output: &mut Vec<PostfixToken>)
    requires
        old(stack).len() > 0,
    ensures
        yard(*final(stack), *final(output)) == yard(*old(stack), *old(output)).shifted(),
        final(stack).len() == old(stack).len() - 1,
{
    let ghost stack_before = *stack;
    let ghost output_before = *output;
    let top = stack.pop().unwrap();
    let token = top.emit();
    output.push(token);
    proof {
        lemma_pop_model(stack_before, *stack);
        lemma_push_model(output_before, *output, token);
    }
}

/// Moves to the output every entry on top that yields to `incoming`.
fn yield_to(
    stack: &mut Vec<ShuntingYardOperator>,
    output: &mut Vec<PostfixToken>,
    incoming: &ShuntingYardOperator,
)
    ensures
        yard(*final(stack), *final(output)) == yard(*old(stack), *old(output)).yielded(incoming@),
{
    while stack.len() > 0 && stack[stack.len() - 1].yields_to(incoming)
        invariant
            yard(*stack, *output).yielded(incoming@) == yard(*old(stack), *old(output)).yielded(
                incoming@,
            ),
        decreases stack.len(),
    {
        assert(stack.deep_view().last() == stack[stack.len() - 1]@);
        shift(stack, output);
    }
    proof {
        if stack.len() > 0 {
            assert(stack.deep_view().last() == stack[stack.len() - 1]@);
        }
    }
}

/// Moves to the output every operator on top of the stack.
fn flush(stack: &mut Vec<ShuntingYardOperator>, output: &mut Vec<PostfixToken>)
    ensures
        yard(*final(stack), *final(output)) == yard(*old(stack), *old(output)).flushed(),
{
    while stack.len() > 0 && stack[stack.len() - 1].is_operator()
        invariant
            yard(*stack, *output).flushed() == yard(*old(stack), *old(output)).flushed(),
        decreases stack.len(),
    {
        assert(stack.deep_view().last() == stack[stack.len() - 1]@);
        shift(stack, output);
    }
    proof {
        if stack.len() > 0 {
            assert(stack.deep_view().last() == stack[stack.len() - 1]@);
        }
    }
}

/// Whether no function on the stack has met more than `bound` commas.
pub open spec fn commas_within(stack: Seq<EntryModel>, bound: int) -> bool {
    forall|k: int|
        0 <= k < stack.len() && (#[trigger] stack[k]) is Function ==> stack[k]->commas <= bound
}

/// What yields to an operator leaves the top of the stack; the rest stays.
pub proof fn lemma_yielded_keeps(state: YardModel, incoming: EntryModel)
    ensures
        state.yielded(incoming).stack.len() <= state.stack.len(),
        state.yielded(incoming).stack == state.stack.take(
            state.yielded(incoming).stack.len() as int,
        ),
        forall|k: int|
            state.yielded(incoming).stack.len() <= k < state.stack.len() ==> (
            #[trigger] state.stack[k]).is_operator(),
    decreases state.stack.len(),
{
    if state.stack.len() > 0 && state.stack.last().yields_to(incoming) {
        let shorter = state.shifted();
        lemma_yielded_keeps(shorter, incoming);
        assert forall|k: int|
            state.yielded(incoming).stack.len() <= k < state.stack.len() implies (
        #[trigger] state.stack[k]).is_operator() by {
            if k < shorter.stack.len() {
                assert(shorter.stack[k].is_operator());
            }
        }
    }
}

/// The operators that are flushed leave the top of the stack; the rest stays.
pub proof fn lemma_flushed_keeps(state: YardModel)
    ensures
        state.flushed().stack.len() <= state.stack.len(),
        state.flushed().stack == state.stack.take(state.flushed().stack.len() as int),
        state.flushed().stack.len() > 0 ==> !state.flushed().stack.last().is_operator(),
        forall|k: int|
            state.flushed().stack.len() <= k < state.stack.len() ==> (
            #[trigger] state.stack[k]).is_operator(),
    decreases state.stack.len(),
{
    if state.stack.len() > 0 && state.stack.last().is_operator() {
        let shorter = state.shifted();
        lemma_flushed_keeps(shorter);
        assert forall|k: int| state.flushed().stack.len() <= k < state.stack.len() implies (
        #[trigger] state.stack[k]).is_operator() by {
            if k < shorter.stack.len() {
                assert(shorter.stack[k].is_operator());
            }
        }
    }
}

/// Counts one more comma for the function whose arguments are being read.
fn count_comma(stack: &mut Vec<ShuntingYardOperator>, Ghost(bound): Ghost<int>)
    requires
        bound < usize::MAX,
        commas_within(old(stack).deep_view(), bound),
        old(stack).len() >= 2,
        old(stack).deep_view().last() is LeftParenthesis,
        old(stack).deep_view()[old(stack).len() - 2] is Function,
    ensures
        commas_within(final(stack).deep_view(), bound + 1),
        final(stack).deep_view() == old(stack).deep_view().update(
            old(stack).len() - 2,
            EntryModel::Function {
                name: old(stack).deep_view()[old(stack).len() - 2]->name,
                commas: old(stack).deep_view()[old(stack).len() - 2]->commas + 1,
            },
        ),
{
    let ghost before = stack.deep_view();
    assert(before[stack.len() - 2] == stack[stack.len() - 2]@);
    let paren = stack.pop().unwrap();
    let function = stack.pop().unwrap();
    match function {
        ShuntingYardOperator::Function { name, commas } => {
            assert(commas <= bound);
            stack.push(ShuntingYardOperator::Function { name, commas: commas + 1 });
        },
        _ => {},
    }
    stack.push(paren);
    assert(stack.deep_view() =~= before.update(
        before.len() - 2,
        EntryModel::Function {
            name: before[before.len() - 2]->name,
            commas: before[before.len() - 2]->commas + 1,
        },
    ));
}

/// Takes the parenthesis off the top of the stack and, with it, the function
/// that it belongs to, which goes to the output with the number of its
/// arguments.
fn close(
    stack: &mut Vec<ShuntingYardOperator>,
    output: &mut Vec<PostfixToken>,
    empty: bool,
    Ghost(bound): Ghost<int>,
)
    requires
        bound < usize::MAX,
        commas_within(old(stack).deep_view(), bound),
        old(stack).len() > 0,
        old(stack).deep_view().last() is LeftParenthesis,
    ensures
        final(stack).len() < old(stack).len(),
        final(stack).deep_view() == old(stack).deep_view().take(final(stack).len() as int),
        ({
            let opened = old(stack).deep_view().drop_last();
            if opened.len() > 0 && opened.last() is Function {
                &&& final(stack).deep_view() == opened.drop_last()
                &&& final(output).deep_view() == old(output).deep_view().push(
                    PostfixModel::Call {
                        name: opened.last()->name,
                        args: if empty {
                            0
                        } else {
                            opened.last()->commas + 1
                        },
                    },
                )
            } else {
                &&& final(stack).deep_view() == opened
                &&& final(output).deep_view() == old(output).deep_view()
            }
        }),
{
    let ghost before = *stack;
    stack.pop();
    proof {
        lemma_pop_model(before, *stack);
    }
    let ghost opened = *stack;
    assert(opened.deep_view() == before.deep_view().take(opened.len() as int));
    if stack.len() > 0 {
        assert(stack.deep_view().last() == stack[stack.len() - 1]@);
        let is_function = match &stack[stack.len() - 1] {
            ShuntingYardOperator::Function { .. } => true,
            _ => false,
        };
        if is_function {
            let function = stack.pop().unwrap();
            proof {
                lemma_pop_model(opened, *stack);
                assert(stack.deep_view() == before.deep_view().take(stack.len() as int));
            }
            match function {
                ShuntingYardOperator::Function { name, commas } => {
                    assert(opened.deep_view()[opened.len() - 1]->commas == commas);
                    let ghost output_before = *output;
                    let token = PostfixToken::Call {
                        name,
                        args: if empty {
                            0
                        } else {
                            commas + 1
                        },
                    };
                    output.push(token);
                    proof {
                        lemma_push_model(output_before, *output, token);
                    }
                },
                _ => {},
            }
        }
    }
}

/// Whether a minus behind this token is the unary one.
fn leads_unary(token: &SimpleToken) -> (b: bool)
    ensures
        b == (token@ is LeftParenthesis || token@ is Comma || token@ is Operator),
{
    match token {
        SimpleToken::LeftParenthesis => true,
        SimpleToken::Comma => true,
        SimpleToken::Operator(_) => true,
        _ => false,
    }
}

/// Walks an expression with the operator stack and gives the output.
fn convert(expression: &CalculatableExpr) -> (r: Result<Vec<PostfixToken>, ConvertError>)
    ensures
        match r {
            Ok(postfix) => to_postfix_model(expression@) == Ok::<
                Seq<PostfixModel>,
                ConvertError,
            >(postfix.deep_view()),
            Err(e) => to_postfix_model(expression@) == Err::<Seq<PostfixModel>, ConvertError>(e),
        },
{
    let tokens = &expression.0;
    let ghost model = expression@;
    let mut stack: Vec<ShuntingYardOperator> = Vec::new();
    let mut output: Vec<PostfixToken> = Vec::new();
    let mut i: usize = 0;
    assert(stack.deep_view() =~= Seq::empty() && output.deep_view() =~= Seq::empty());
    while i < tokens.len()
        invariant
            i <= tokens.len(),
            model == tokens.deep_view(),
            model == expression@,
            commas_within(stack.deep_view(), i as int),
            convert_from(model, i as int, yard(stack, output)) == to_postfix_model(model),
        decreases tokens.len() - i,
    {
        let ghost before = yard(stack, output);
        let ghost stack_before = stack;
        let ghost output_before = output;
        assert(model[i as int] == tokens[i as int]@);
        if i > 0 {
            assert(model[i - 1] == tokens[i - 1]@);
        }
        match &tokens[i] {
            SimpleToken::Number(n) => {
                let token = PostfixToken::Literal(n.clone());
                output.push(token);
                proof {
                    lemma_push_model(output_before, output, token);
                }
            },
            SimpleToken::Variable(c) => {
                let token = PostfixToken::Variable(*c);
                output.push(token);
                proof {
                    lemma_push_model(output_before, output, token);
                }
            },
            SimpleToken::Constant(c) => {
                let token = PostfixToken::Constant(*c);
                output.push(token);
                proof {
                    lemma_push_model(output_before, output, token);
                }
            },
            SimpleToken::Function(name) => {
                let entry = ShuntingYardOperator::Function { name: name.clone(), commas: 0 };
                stack.push(entry);
                proof {
                    lemma_push_model(stack_before, stack, entry);
                }
            },
            SimpleToken::LeftParenthesis => {
                let entry = ShuntingYardOperator::LeftParenthesis;
                stack.push(entry);
                proof {
                    lemma_push_model(stack_before, stack, entry);
                }
            },
            SimpleToken::Operator(op) => {
                let is_minus = match op {
                    Operator::Sub => true,
                    _ => false,
                };
                let entry = if is_minus && (i == 0 || leads_unary(&tokens[i - 1])) {
                    ShuntingYardOperator::Negate
                } else {
                    ShuntingYardOperator::Operator(*op)
                };
                assert(entry@ == entry_of(model, i as int));
                yield_to(&mut stack, &mut output, &entry);
                let ghost yielded = stack;
                stack.push(entry);
                proof {
                    lemma_yielded_keeps(before, entry@);
                    lemma_push_model(yielded, stack, entry);
                }
            },
            SimpleToken::Comma => {
                flush(&mut stack, &mut output);
                proof {
                    lemma_flushed_keeps(before);
                }
                let n = stack.len();
                let in_arguments = n >= 2 && match (&stack[n - 1], &stack[n - 2]) {
                    (
                        ShuntingYardOperator::LeftParenthesis,
                        ShuntingYardOperator::Function { .. },
                    ) => true,
                    _ => false,
                };
                proof {
                    if n >= 2 {
                        assert(stack.deep_view().last() == stack[n - 1]@);
                        assert(stack.deep_view()[n - 2] == stack[n - 2]@);
                    }
                }
                if !in_arguments {
                    assert(step(before, model, i as int) == Err::<YardModel, ConvertError>(
                        ConvertError::MisplacedComma,
                    ));
                    return Err(ConvertError::MisplacedComma);
                }
                count_comma(&mut stack, Ghost(i as int));
            },
            SimpleToken::RightParenthesis => {
                flush(&mut stack, &mut output);
                proof {
                    lemma_flushed_keeps(before);
                }
                let n = stack.len();
                let opened = n > 0 && match &stack[n - 1] {
                    ShuntingYardOperator::LeftParenthesis => true,
                    _ => false,
                };
                proof {
                    if n > 0 {
                        assert(stack.deep_view().last() == stack[n - 1]@);
                    }
                }
                if !opened {
                    assert(step(before, model, i as int) == Err::<YardModel, ConvertError>(
                        ConvertError::UnbalancedParentheses,
                    ));
                    return Err(ConvertError::UnbalancedParentheses);
                }
                let empty = i > 0 && match &tokens[i - 1] {
                    SimpleToken::LeftParenthesis => true,
                    _ => false,
                };
                close(&mut stack, &mut output, empty, Ghost(i as int));
            },
        }
        assert(step(before, model, i as int) == Ok::<YardModel, ConvertError>(
            yard(stack, output),
        ));
        i += 1;
    }
    while stack.len() > 0
        invariant
            model == expression@,
            yard(stack, output).drained() == to_postfix_model(model),
        decreases stack.len(),
    {
        assert(stack.deep_view().last() == stack[stack.len() - 1]@);
        match &stack[stack.len() - 1] {
            ShuntingYardOperator::LeftParenthesis => {
                assert(yard(stack, output).drained() == Err::<Seq<PostfixModel>, ConvertError>(
                    ConvertError::UnbalancedParentheses,
                ));
                return Err(ConvertError::UnbalancedParentheses);
            },
            _ => {},
        }
        shift(&mut stack, &mut output);
    }
    Ok(output)
}

/// Brings an expression into postfix order.
///
/// Fails with `UnbalancedParentheses` where a parenthesis is never closed or
/// one closes that was not opened, and with `MisplacedComma` where a comma
/// stands outside the arguments of a function; of several faults the first
/// in the expression decides. An expression that writes a tree is given the
/// postfix order of the tree.
pub fn to_postfix(expression: &CalculatableExpr) -> (r: Result<Vec<PostfixToken>, ConvertError>)
    ensures
        match r {
            Ok(postfix) => to_postfix_model(expression@) == Ok::<
                Seq<PostfixModel>,
                ConvertError,
            >(postfix.deep_view()),
            Err(e) => to_postfix_model(expression@) == Err::<Seq<PostfixModel>, ConvertError>(e),
        },
        calls_open(expression@) ==> (r is Ok <==> verdict(expression@, 0) is None),
        calls_open(expression@) && r is Err ==> verdict(expression@, 0) == Some(r->Err_0),
        forall|t: Tree|
            #![trigger t.written()]
            t.valid() && t.written() == expression@ ==> r is Ok && r->Ok_0.deep_view()
                == t.postfix(),
{
    let r = convert(expression);
    proof {
        let model = expression@;
        if calls_open(model) {
            law_postfix_exists(model);
        }
        assert forall|t: Tree| #![trigger t.written()] t.valid() && t.written()
            == model implies to_postfix_model(model) == Ok::<Seq<PostfixModel>, ConvertError>(
            t.postfix(),
        ) by {
            law_precedence(t);
        }
    }
    r
}

} // verus!
