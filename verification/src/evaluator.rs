//! The evaluator: from a postfix sequence and bindings to a number.
//!
//! The evaluator walks the sequence with a stack of numbers. Where a token
//! needs arithmetic it stops with a question; the answer lets it go on.

use crate::bindings::Bindings;
use crate::grammar::Tree;
use crate::meaning::{law_postfix_value, value};
use crate::postfix::{PostfixModel, PostfixToken};
use crate::scalar::{is_nan, nan, negate, negated};
use crate::unit::{
    call, computes, find_call, find_operation, operation, Demand, Finding, Request, RequestModel,
};
use vstd::prelude::*;

verus! {

/// Why a postfix sequence has no value.
#[derive(Clone, Copy, Debug, PartialEq, Eq, Structural)]
pub enum EvalError {
    /// A letter stands for no number.
    UnboundVariable,
    /// A division by zero.
    DivisionByZero,
    /// An operation whose result is no number, or whose operands are not
    /// there; a sequence that leaves no single number.
    InvalidOperation,
    /// A function that the arithmetic unit does not know.
    UnknownFunction,
}

/// Either a question to the arithmetic unit or the end of the work.
#[derive(Debug, PartialEq)]
pub enum Progress<T> {
    Ask(Request),
    Done(T),
}

/// What a token is found to demand of the stack, if it takes arithmetic.
pub open spec fn demand(stack: Seq<u32>, t: PostfixModel) -> Option<Demand> {
    match t {
        PostfixModel::Literal(n) => Some(Demand::Ask(RequestModel::Convert(n))),
        PostfixModel::Binary(op) => Some(operation(op, stack)),
        PostfixModel::Call { name, args } => Some(call(name, args, stack)),
        _ => None,
    }
}

/// The question that a token puts, if it puts one.
pub open spec fn question_for(stack: Seq<u32>, t: PostfixModel) -> Option<RequestModel> {
    match demand(stack, t) {
        Some(Demand::Ask(q)) => Some(q),
        _ => None,
    }
}

/// How many numbers a token takes off the stack.
pub open spec fn operands(t: PostfixModel) -> nat {
    match t {
        PostfixModel::Negate => 1,
        PostfixModel::Binary(_) => 2,
        PostfixModel::Call { name, args } => args,
        _ => 0,
    }
}

/// The stack behind a token, or the error that the token meets. `answer` is
/// the answer to the token's question; where it puts none, the answer plays
/// no part.
///
/// A number goes onto the stack, a letter by its binding. The unary minus
/// changes the sign of the number on top. An operator and a function take
/// their operands off and leave the answer. An answer that is no number is
/// an invalid operation.
pub open spec fn resolved(
    stack: Seq<u32>,
    bindings: Map<char, u32>,
    t: PostfixModel,
    answer: u32,
) -> Result<Seq<u32>, EvalError> {
    match t {
        PostfixModel::Value(bits) => Ok(stack.push(bits)),
        PostfixModel::Variable(c) | PostfixModel::Constant(c) => if bindings.contains_key(c) {
            Ok(stack.push(bindings[c]))
        } else {
            Err(EvalError::UnboundVariable)
        },
        PostfixModel::Negate => if stack.len() >= 1 {
            Ok(stack.drop_last().push(negated(stack.last())))
        } else {
            Err(EvalError::InvalidOperation)
        },
        _ => match demand(stack, t) {
            Some(Demand::Ask(_)) => if is_nan(answer) {
                Err(EvalError::InvalidOperation)
            } else {
                Ok(stack.take(stack.len() - operands(t)).push(answer))
            },
            Some(Demand::ZeroDivisor) => Err(EvalError::DivisionByZero),
            Some(Demand::Unknown) => Err(EvalError::UnknownFunction),
            _ => Err(EvalError::InvalidOperation),
        },
    }
}

/// The mathematical model of an evaluation under way.
pub struct EvaluatorModel {
    pub tokens: Seq<PostfixModel>,
    pub bindings: Map<char, u32>,
    /// How many tokens are behind.
    pub position: nat,
    pub stack: Seq<u32>,
    pub failure: Option<EvalError>,
}

impl EvaluatorModel {
    pub open spec fn start(tokens: Seq<PostfixModel>, bindings: Map<char, u32>) -> EvaluatorModel {
        EvaluatorModel { tokens, bindings, position: 0, stack: Seq::empty(), failure: None }
    }

    /// Whether the work has ended: in an error, or behind the last token.
    pub open spec fn finished(self) -> bool {
        self.failure is Some || self.position >= self.tokens.len()
    }

    /// What the evaluation has come to: the error, or the one number that is
    /// left.
    pub open spec fn outcome(self) -> Result<u32, EvalError> {
        match self.failure {
            Some(e) => Err(e),
            None => if self.stack.len() == 1 {
                Ok(self.stack[0])
            } else {
                Err(EvalError::InvalidOperation)
            },
        }
    }

    /// The question that the next token puts, if there is a next token and
    /// it puts one.
    pub open spec fn question(self) -> Option<RequestModel> {
        if self.finished() {
            None
        } else {
            question_for(self.stack, self.tokens[self.position as int])
        }
    }

    /// The state behind the next token, `answer` being the answer to its
    /// question.
    pub open spec fn advanced(self, answer: u32) -> EvaluatorModel
        recommends
            !self.finished(),
    {
        match resolved(self.stack, self.bindings, self.tokens[self.position as int], answer) {
            Ok(stack) => EvaluatorModel { stack, position: self.position + 1, ..self },
            Err(e) => EvaluatorModel { failure: Some(e), position: self.position + 1, ..self },
        }
    }

    /// The state at the next question, or at the end if none comes.
    pub open spec fn settled(self) -> EvaluatorModel
        decreases self.tokens.len() - self.position,
    {
        if self.finished() || self.question() is Some {
            self
        } else {
            self.advanced(0).settled()
        }
    }

    /// What the evaluation comes to where `unit` answers every question.
    pub open spec fn completed(self, unit: spec_fn(RequestModel) -> u32) -> Result<u32, EvalError>
        decreases self.tokens.len() - self.position,
    {
        if self.finished() {
            self.outcome()
        } else {
            match self.question() {
                Some(q) => self.advanced(unit(q)).completed(unit),
                None => self.advanced(0).completed(unit),
            }
        }
    }
}

/// The value of a postfix sequence under bindings, where `unit` does the
/// arithmetic; or the first error on the way.
pub open spec fn evaluate_model(
    tokens: Seq<PostfixModel>,
    bindings: Map<char, u32>,
    unit: spec_fn(RequestModel) -> u32,
) -> Result<u32, EvalError> {
    EvaluatorModel::start(tokens, bindings).completed(unit)
}

/// Going on to the next question changes nothing in what the evaluation
/// comes to.
pub proof fn lemma_settled_completes(state: EvaluatorModel, unit: spec_fn(RequestModel) -> u32)
    ensures
        state.settled().completed(unit) == state.completed(unit),
    decreases state.tokens.len() - state.position,
{
    if !(state.finished() || state.question() is Some) {
        lemma_settled_completes(state.advanced(0), unit);
    }
}

/// Answering a question as `unit` does changes nothing in what the
/// evaluation comes to.
pub proof fn lemma_answer_completes(state: EvaluatorModel, unit: spec_fn(RequestModel) -> u32)
    requires
        state.question() is Some,
    ensures
        state.advanced(unit(state.question()->Some_0)).completed(unit) == state.completed(unit),
{
}

/// Going on to the next question leaves no token unread that was read, and
/// the sequence as it is.
pub proof fn lemma_settled_moves_on(state: EvaluatorModel)
    ensures
        state.settled().position >= state.position,
        state.settled().tokens == state.tokens,
    decreases state.tokens.len() - state.position,
{
    if !(state.finished() || state.question() is Some) {
        lemma_settled_moves_on(state.advanced(0));
    }
}

/// An evaluation under way.
pub struct Evaluator {
    tokens: Vec<PostfixToken>,
    bindings: Bindings,
    position: usize,
    stack: Vec<u32>,
    failure: Option<EvalError>,
}

impl View for Evaluator {
    type V = EvaluatorModel;

    closed spec fn view(&self) -> EvaluatorModel {
        EvaluatorModel {
            tokens: self.tokens.deep_view(),
            bindings: self.bindings@,
            position: self.position as nat,
            stack: self.stack@,
            failure: self.failure,
        }
    }
}

impl Evaluator {
    /// An evaluation of a postfix sequence under bindings, before its first
    /// token.
    pub fn new(postfix: Vec<PostfixToken>, bindings: Bindings) -> (e: Evaluator)
        ensures
            e@ == EvaluatorModel::start(postfix.deep_view(), bindings@),
    {
        Evaluator { tokens: postfix, bindings, position: 0, stack: Vec::new(), failure: None }
    }

    /// Whether the work has ended.
    pub fn finished(&self) -> (b: bool)
        ensures
            b == self@.finished(),
    {
        self.failure.is_some() || self.position >= self.tokens.len()
    }

    /// What the evaluation has come to.
    pub fn outcome(&self) -> (r: Result<u32, EvalError>)
        ensures
            r == self@.outcome(),
    {
        match self.failure {
            Some(e) => Err(e),
            None => if self.stack.len() == 1 {
                Ok(self.stack[0])
            } else {
                Err(EvalError::InvalidOperation)
            },
        }
    }

    /// What the next token is found to demand of the stack.
    fn finding(&self) -> (f: Option<Finding>)
        requires
            !self@.finished(),
        ensures
            f is Some == demand(self@.stack, self@.tokens[self@.position as int]) is Some,
            f is Some ==> f->Some_0@ == demand(
                self@.stack,
                self@.tokens[self@.position as int],
            )->Some_0,
    {
        assert(self.tokens.deep_view()[self.position as int] == self.tokens[self.position as int]@);
        match &self.tokens[self.position] {
            PostfixToken::Literal(n) => Some(Finding::Ask(Request::Convert(n.clone()))),
            PostfixToken::Binary(op) => Some(find_operation(*op, &self.stack)),
            PostfixToken::Call { name, args } => Some(
                find_call(name.as_str(), *args, &self.stack),
            ),
            _ => None,
        }
    }

    /// The question that the next token puts, if there is a next token and
    /// it puts one.
    pub fn question(&self) -> (q: Option<Request>)
        ensures
            q is Some == self@.question() is Some,
            q is Some ==> q->Some_0@ == self@.question()->Some_0,
    {
        if self.finished() {
            return None;
        }
        match self.finding() {
            Some(Finding::Ask(q)) => Some(q),
            _ => None,
        }
    }

    /// Takes the next token, `answer` being the answer to its question.
    fn step(&mut self, answer: u32)
        requires
            !old(self)@.finished(),
        ensures
            final(self)@ == old(self)@.advanced(answer),
    {
        let ghost before = self@;
        let ghost t = before.tokens[before.position as int];
        assert(self.tokens.deep_view().len() == self.tokens.len());
        assert(t == self.tokens[self.position as int]@);
        let finding = self.finding();
        let n = self.stack.len();
        let next = self.position + 1;
        match &self.tokens[self.position] {
            PostfixToken::Value(bits) => {
                self.stack.push(*bits);
            },
            PostfixToken::Variable(c) | PostfixToken::Constant(c) => {
                match self.bindings.get(*c) {
                    Some(bits) => {
                        self.stack.push(bits);
                    },
                    None => {
                        self.failure = Some(EvalError::UnboundVariable);
                    },
                }
            },
            PostfixToken::Negate => {
                match self.stack.pop() {
                    Some(bits) => {
                        self.stack.push(negate(bits));
                    },
                    None => {
                        self.failure = Some(EvalError::InvalidOperation);
                    },
                }
            },
            PostfixToken::Literal(_) => {
                if nan(answer) {
                    self.failure = Some(EvalError::InvalidOperation);
                } else {
                    self.stack.push(answer);
                }
            },
            PostfixToken::Binary(_) => {
                match finding {
                    Some(Finding::Ask(_)) => {
                        if nan(answer) {
                            self.failure = Some(EvalError::InvalidOperation);
                        } else {
                            self.stack.truncate(n - 2);
                            self.stack.push(answer);
                        }
                    },
                    Some(Finding::ZeroDivisor) => {
                        self.failure = Some(EvalError::DivisionByZero);
                    },
                    Some(Finding::Unknown) => {
                        self.failure = Some(EvalError::UnknownFunction);
                    },
                    _ => {
                        self.failure = Some(EvalError::InvalidOperation);
                    },
                }
            },
            PostfixToken::Call { name, args } => {
                match finding {
                    Some(Finding::Ask(_)) => {
                        if nan(answer) {
                            self.failure = Some(EvalError::InvalidOperation);
                        } else {
                            self.stack.truncate(n - *args);
                            self.stack.push(answer);
                        }
                    },
                    Some(Finding::ZeroDivisor) => {
                        self.failure = Some(EvalError::DivisionByZero);
                    },
                    Some(Finding::Unknown) => {
                        self.failure = Some(EvalError::UnknownFunction);
                    },
                    _ => {
                        self.failure = Some(EvalError::InvalidOperation);
                    },
                }
            },
        }
        self.position = next;
        assert(self@.stack =~= before.advanced(answer).stack);
    }

    /// Answers the question that the next token puts, and takes the token.
    /// Where no question is open, nothing changes.
    pub fn answer(&mut self, bits: u32)
        ensures
            final(self)@ == if old(self)@.question() is Some {
                old(self)@.advanced(bits)
            } else {
                old(self)@
            },
    {
        if self.question().is_some() {
            self.step(bits);
        }
    }

    /// Goes on until a token puts a question or the work has ended, and says
    /// which: the question, or what the evaluation has come to.
    pub fn advance(&mut self) -> (p: Progress<Result<u32, EvalError>>)
        ensures
            final(self)@ == old(self)@.settled(),
            match p {
                Progress::Ask(q) => final(self)@.question() == Some(q@),
                Progress::Done(r) => final(self)@.finished() && r == final(self)@.outcome(),
            },
    {
        loop
            invariant
                self@.settled() == old(self)@.settled(),
                self@.tokens == old(self)@.tokens,
            decreases self@.tokens.len() - self@.position,
        {
            if self.finished() {
                return Progress::Done(self.outcome());
            }
            if let Some(q) = self.question() {
                return Progress::Ask(q);
            }
            self.step(0);
        }
    }
}

/// Walks a postfix sequence, putting every question of arithmetic to `unit`.
fn run<U: Fn(Request) -> u32>(
    postfix: Vec<PostfixToken>,
    bindings: Bindings,
    unit: U,
) -> (r: Result<u32, EvalError>)
    requires
        forall|q: Request| #[trigger] call_requires(unit, (q,)),
    ensures
        forall|model: spec_fn(RequestModel) -> u32| #[trigger]
            computes(unit, model) ==> r == evaluate_model(postfix.deep_view(), bindings@, model),
{
    let ghost start = EvaluatorModel::start(postfix.deep_view(), bindings@);
    let mut evaluator = Evaluator::new(postfix, bindings);
    loop
        invariant
            forall|q: Request| #[trigger] call_requires(unit, (q,)),
            start == EvaluatorModel::start(postfix.deep_view(), bindings@),
            forall|model: spec_fn(RequestModel) -> u32| #[trigger]
                computes(unit, model) ==> evaluator@.completed(model) == start.completed(model),
        decreases evaluator@.tokens.len() - evaluator@.position,
    {
        let ghost before = evaluator@;
        proof {
            lemma_settled_moves_on(before);
        }
        match evaluator.advance() {
            Progress::Ask(q) => {
                let ghost asked = q@;
                let a = unit(q);
                evaluator.answer(a);
                assert forall|model: spec_fn(RequestModel) -> u32| #[trigger]
                    computes(unit, model) implies evaluator@.completed(model) == start.completed(
                    model,
                ) by {
                    lemma_settled_completes(before, model);
                    lemma_answer_completes(before.settled(), model);
                    assert(a == model(asked));
                }
            },
            Progress::Done(r) => {
                assert forall|model: spec_fn(RequestModel) -> u32| #[trigger]
                    computes(unit, model) implies r == start.completed(model) by {
                    lemma_settled_completes(before, model);
                }
                return r;
            },
        }
    }
}

/// Evaluates a postfix sequence under bindings, putting every question of
/// arithmetic to `unit`.
///
/// Fails with `UnboundVariable` at a letter that stands for no number, with
/// `DivisionByZero` at a division by zero, with `UnknownFunction` at a
/// function that the unit does not know, and with `InvalidOperation` at an
/// answer that is no number, at a token that does not find its operands, and
/// at the end of a sequence that leaves no single number. Where `unit`
/// answers as `model` does, the result is that of the model; and where the
/// sequence is the postfix order of a tree, it is the value of the tree.
pub fn evaluate<U: Fn(Request) -> u32>(
    postfix: Vec<PostfixToken>,
    bindings: Bindings,
    unit: U,
) -> (r: Result<u32, EvalError>)
    requires
        forall|q: Request| #[trigger] call_requires(unit, (q,)),
    ensures
        forall|model: spec_fn(RequestModel) -> u32| #[trigger]
            computes(unit, model) ==> r == evaluate_model(postfix.deep_view(), bindings@, model),
        forall|model: spec_fn(RequestModel) -> u32, t: Tree|
            #![trigger computes(unit, model), t.postfix()]
            computes(unit, model) && t.postfix() == postfix.deep_view() ==> r == value(
                t,
                bindings@,
                model,
            ),
{
    let ghost tokens = postfix.deep_view();
    let ghost bound = bindings@;
    let r = run(postfix, bindings, unit);
    proof {
        assert forall|model: spec_fn(RequestModel) -> u32, t: Tree|
            #![trigger computes(unit, model), t.postfix()]
            computes(unit, model) && t.postfix() == tokens implies r == value(t, bound, model) by {
            law_postfix_value(t, bound, model);
        }
    }
    r
}

} // verus!
