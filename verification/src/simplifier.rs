//! The simplifier: from a postfix sequence to a shorter one of the same
//! meaning.
//!
//! The simplifier walks the sequence as the evaluator does, with a stack of
//! pieces. A piece is a number that is known, or a stretch of postfix that is
//! kept as it is. An operation on known numbers is asked of the arithmetic
//! unit and becomes a number; an operation that changes nothing (`+0`, `*1`,
//! `^1`) leaves its operand; every other operation becomes a stretch of
//! postfix: what holds the parameter, what the unit has no number for, and
//! a division by zero, which is left for the evaluator to report.

use crate::evaluator::{operands, Progress};
use crate::idempotence::law_simplify_idempotent;
use crate::operator::Operator;
use crate::postfix::{PostfixModel, PostfixToken};
use crate::scalar::{is_nan, is_zero, nan, negate, negated, zero, ONE};
use crate::token::lemma_push_model;
use crate::unit::{computes, find_call, find_operation, Finding, Request, RequestModel};
use vstd::prelude::*;

verus! {

/// The mathematical model of a piece.
pub enum PieceModel {
    Known(u32),
    Residual(Seq<PostfixModel>),
}

impl PieceModel {
    /// The postfix sequence that the piece stands for.
    pub open spec fn tokens(self) -> Seq<PostfixModel> {
        match self {
            PieceModel::Known(bits) => seq![PostfixModel::Value(bits)],
            PieceModel::Residual(tokens) => tokens,
        }
    }
}

/// What the simplifier holds of a part of the sequence that is behind it.
pub enum Piece {
    /// The part has this value.
    Known(u32),
    /// The part is kept as it is.
    Residual(Vec<PostfixToken>),
}

impl View for Piece {
    type V = PieceModel;

    open spec fn view(&self) -> PieceModel {
        match self {
            Piece::Known(bits) => PieceModel::Known(*bits),
            Piece::Residual(tokens) => PieceModel::Residual(tokens.deep_view()),
        }
    }
}

impl DeepView for Piece {
    type V = PieceModel;

    open spec fn deep_view(&self) -> PieceModel {
        self@
    }
}

/// The postfix sequences of the pieces, one behind the other.
pub open spec fn joined(pieces: Seq<PieceModel>) -> Seq<PostfixModel>
    decreases pieces.len(),
{
    if pieces.len() == 0 {
        Seq::empty()
    } else {
        pieces[0].tokens() + joined(pieces.drop_first())
    }
}

/// Whether every piece is a known number.
pub open spec fn all_known(pieces: Seq<PieceModel>) -> bool {
    forall|i: int| 0 <= i < pieces.len() ==> (#[trigger] pieces[i]) is Known
}

/// The numbers of pieces that are all known.
pub open spec fn values(pieces: Seq<PieceModel>) -> Seq<u32> {
    Seq::new(pieces.len(), |i: int| pieces[i]->Known_0)
}

/// The pieces that a token takes off a stack that holds enough of them.
pub open spec fn taken(stack: Seq<PieceModel>, t: PostfixModel) -> Seq<PieceModel>
    recommends
        stack.len() >= operands(t),
{
    stack.skip(stack.len() - operands(t))
}

/// The question that a token puts, if it puts one: a numeral asks for its
/// number, a letter other than the parameter for what it stands for, an
/// operator and a function for their result where all their operands are
/// known numbers.
pub open spec fn question_for(stack: Seq<PieceModel>, t: PostfixModel, parameter: char) -> Option<
    RequestModel,
> {
    match t {
        PostfixModel::Literal(n) => Some(RequestModel::Convert(n)),
        PostfixModel::Constant(c) => Some(RequestModel::Lookup(c)),
        PostfixModel::Variable(c) => if c == parameter {
            None
        } else {
            Some(RequestModel::Lookup(c))
        },
        PostfixModel::Binary(_) | PostfixModel::Call { .. } => if stack.len() >= operands(t)
            && all_known(taken(stack, t)) {
            crate::evaluator::question_for(values(taken(stack, t)), t)
        } else {
            None
        },
        _ => None,
    }
}

/// Whether an operator changes nothing with this number on its right:
/// adding zero, multiplying by one, raising to the power one.
pub open spec fn is_identity(op: Operator, rhs: u32) -> bool {
    (op == Operator::Add && is_zero(rhs)) || ((op == Operator::Mul || op == Operator::Pow) && rhs
        == ONE)
}

/// Whether a token, on these operands, leaves its first operand as it is.
pub open spec fn elides(operands: Seq<PieceModel>, t: PostfixModel) -> bool {
    &&& t is Binary
    &&& operands.len() == 2
    &&& operands[0] is Residual
    &&& operands[1] is Known
    &&& is_identity(t->Binary_0, operands[1]->Known_0)
}

/// The piece that a token makes of its operands. `folded` is the number that
/// the arithmetic unit found for it, if it was asked and found one.
pub open spec fn combined(operands: Seq<PieceModel>, t: PostfixModel, folded: Option<u32>) -> PieceModel {
    if folded is Some {
        PieceModel::Known(folded->Some_0)
    } else if t is Value {
        PieceModel::Known(t->Value_0)
    } else if t is Negate && operands.len() == 1 && operands[0] is Known {
        PieceModel::Known(negated(operands[0]->Known_0))
    } else if elides(operands, t) {
        operands[0]
    } else {
        PieceModel::Residual(joined(operands).push(t))
    }
}

/// The number that folds a token, if its question was put and the answer is
/// a number.
pub open spec fn fold_of(
    stack: Seq<PieceModel>,
    t: PostfixModel,
    parameter: char,
    answer: u32,
) -> Option<u32> {
    if question_for(stack, t, parameter) is Some && !is_nan(answer) {
        Some(answer)
    } else {
        None
    }
}

/// The stack behind a token, if the stack holds the operands that the token
/// takes. `answer` is the answer to the token's question; where it puts none,
/// the answer plays no part.
pub open spec fn resolved(
    stack: Seq<PieceModel>,
    t: PostfixModel,
    parameter: char,
    answer: u32,
) -> Option<Seq<PieceModel>> {
    if stack.len() < operands(t) {
        None
    } else {
        Some(
            stack.take(stack.len() - operands(t)).push(
                combined(taken(stack, t), t, fold_of(stack, t, parameter, answer)),
            ),
        )
    }
}

/// The mathematical model of a simplification under way.
pub struct SimplifierModel {
    pub tokens: Seq<PostfixModel>,
    pub parameter: char,
    /// How many tokens are behind.
    pub position: nat,
    pub stack: Seq<PieceModel>,
    /// Whether a token did not find its operands.
    pub broken: bool,
}

impl SimplifierModel {
    pub open spec fn start(tokens: Seq<PostfixModel>, parameter: char) -> SimplifierModel {
        SimplifierModel { tokens, parameter, position: 0, stack: Seq::empty(), broken: false }
    }

    /// Whether the work has ended: at a token without its operands, or behind
    /// the last token.
    pub open spec fn finished(self) -> bool {
        self.broken || self.position >= self.tokens.len()
    }

    /// What the simplification has come to: the one piece that is left, or,
    /// where the sequence is no postfix order of one expression, the sequence
    /// as it was.
    pub open spec fn outcome(self) -> Seq<PostfixModel> {
        if !self.broken && self.stack.len() == 1 {
            self.stack[0].tokens()
        } else {
            self.tokens
        }
    }

    /// The question that the next token puts, if there is a next token and
    /// it puts one.
    pub open spec fn question(self) -> Option<RequestModel> {
        if self.finished() {
            None
        } else {
            question_for(self.stack, self.tokens[self.position as int], self.parameter)
        }
    }

    /// The state behind the next token, `answer` being the answer to its
    /// question.
    pub open spec fn advanced(self, answer: u32) -> SimplifierModel
        recommends
            !self.finished(),
    {
        match resolved(self.stack, self.tokens[self.position as int], self.parameter, answer) {
            Some(stack) => SimplifierModel { stack, position: self.position + 1, ..self },
            None => SimplifierModel { broken: true, position: self.position + 1, ..self },
        }
    }

    /// The state at the next question, or at the end if none comes.
    pub open spec fn settled(self) -> SimplifierModel
        decreases self.tokens.len() - self.position,
    {
        if self.finished() || self.question() is Some {
            self
        } else {
            self.advanced(0).settled()
        }
    }

    /// What the simplification comes to where `unit` answers every question.
    pub open spec fn completed(self, unit: spec_fn(RequestModel) -> u32) -> Seq<PostfixModel>
        decreases self.tokens.len() - self.position,
    {
        if self.finished() {
            self.outcome()
        } else {
            match self.question() {
                Some(q) => self.advanced(unit(q)).completed(unit),
                None => self.advanced(0).completed(unit),
            }
        }
    }
}

/// The simplest form of a postfix sequence as a function of `parameter`,
/// where `unit` does the arithmetic.
pub open spec fn simplify_model(
    tokens: Seq<PostfixModel>,
    parameter: char,
    unit: spec_fn(RequestModel) -> u32,
) -> Seq<PostfixModel> {
    SimplifierModel::start(tokens, parameter).completed(unit)
}

/// Going on to the next question changes nothing in what the simplification
/// comes to.
pub proof fn lemma_settled_completes(state: SimplifierModel, unit: spec_fn(RequestModel) -> u32)
    ensures
        state.settled().completed(unit) == state.completed(unit),
    decreases state.tokens.len() - state.position,
{
    if !(state.finished() || state.question() is Some) {
        lemma_settled_completes(state.advanced(0), unit);
    }
}

/// Answering a question as `unit` does changes nothing in what the
/// simplification comes to.
pub proof fn lemma_answer_completes(state: SimplifierModel, unit: spec_fn(RequestModel) -> u32)
    requires
        state.question() is Some,
    ensures
        state.advanced(unit(state.question()->Some_0)).completed(unit) == state.completed(unit),
{
}

/// Going on to the next question leaves no token unread that was read, and
/// the sequence as it is.
pub proof fn lemma_settled_moves_on(state: SimplifierModel)
    ensures
        state.settled().position >= state.position,
        state.settled().tokens == state.tokens,
    decreases state.tokens.len() - state.position,
{
    if !(state.finished() || state.question() is Some) {
        lemma_settled_moves_on(state.advanced(0));
    }
}

/// How many pieces a token takes off the stack.
fn count(t: &PostfixToken) -> (k: usize)
    ensures
        k == operands(t@),
{
    match t {
        PostfixToken::Negate => 1,
        PostfixToken::Binary(_) => 2,
        PostfixToken::Call { name, args } => *args,
        _ => 0,
    }
}

/// The numbers of the `k` pieces on top of the stack, if there are as many
/// and all are known.
fn known_top(stack: &Vec<Piece>, k: usize) -> (r: Option<Vec<u32>>)
    ensures
        r is Some <==> stack.len() >= k && all_known(stack.deep_view().skip(stack.len() - k)),
        r is Some ==> r->Some_0@ == values(stack.deep_view().skip(stack.len() - k)),
{
    let n = stack.len();
    if n < k {
        return None;
    }
    let ghost top = stack.deep_view().skip(n - k);
    let mut out: Vec<u32> = Vec::new();
    let mut i: usize = 0;
    while i < k
        invariant
            i <= k <= n == stack.len(),
            top == stack.deep_view().skip(n - k),
            out@ == values(top.take(i as int)),
            all_known(top.take(i as int)),
        decreases k - i,
    {
        assert(top[i as int] == stack[n - k + i]@);
        match &stack[n - k + i] {
            Piece::Known(bits) => {
                out.push(*bits);
            },
            Piece::Residual(_) => {
                return None;
            },
        }
        i += 1;
        assert forall|j: int| 0 <= j < i implies (#[trigger] top.take(i as int)[j]) is Known by {
            if j < i - 1 {
                assert(top.take(i - 1)[j] is Known);
            }
        }
        assert(out@ =~= values(top.take(i as int))) by {
            assert forall|j: int| 0 <= j < i implies out@[j] == values(top.take(i as int))[j] by {
                if j < i - 1 {
                    assert(values(top.take(i - 1))[j] == top.take(i - 1)[j]->Known_0);
                }
            }
        }
    }
    assert(top.take(k as int) == top);
    Some(out)
}

/// A copy of a postfix sequence.
fn copy_of(tokens: &Vec<PostfixToken>) -> (r: Vec<PostfixToken>)
    ensures
        r.deep_view() == tokens.deep_view(),
{
    let mut out: Vec<PostfixToken> = Vec::new();
    let mut i: usize = 0;
    while i < tokens.len()
        invariant
            i <= tokens.len(),
            out.deep_view() == tokens.deep_view().take(i as int),
        decreases tokens.len() - i,
    {
        let ghost before = out;
        let t = tokens[i].clone();
        out.push(t);
        proof {
            lemma_push_model(before, out, t);
        }
        i += 1;
        assert(out.deep_view() =~= tokens.deep_view().take(i as int));
    }
    assert(tokens.deep_view().take(tokens.len() as int) == tokens.deep_view());
    out
}

/// The postfix sequence that a piece stands for.
fn tokens_of(piece: Piece) -> (r: Vec<PostfixToken>)
    ensures
        r.deep_view() == piece@.tokens(),
{
    match piece {
        Piece::Known(bits) => {
            let mut out: Vec<PostfixToken> = Vec::new();
            out.push(PostfixToken::Value(bits));
            assert(out.deep_view() =~= piece@.tokens());
            out
        },
        Piece::Residual(tokens) => tokens,
    }
}

/// The postfix sequences of the pieces, one behind the other, and the token
/// behind them.
fn join(pieces: Vec<Piece>, t: PostfixToken) -> (r: Vec<PostfixToken>)
    ensures
        r.deep_view() == joined(pieces.deep_view()).push(t@),
{
    let ghost all = pieces.deep_view();
    let mut pieces = pieces;
    let mut out: Vec<PostfixToken> = Vec::new();
    assert(out.deep_view() + joined(all) == joined(all));
    while pieces.len() > 0
        invariant
            out.deep_view() + joined(pieces.deep_view()) == joined(all),
        decreases pieces.len(),
    {
        let ghost before = pieces;
        let ghost out_before = out;
        let piece = pieces.remove(0);
        assert(pieces.deep_view() =~= before.deep_view().drop_first());
        assert(before.deep_view()[0] == piece@);
        let mut tokens = tokens_of(piece);
        let ghost added = tokens;
        out.append(&mut tokens);
        assert(out.deep_view() =~= out_before.deep_view() + added.deep_view());
        assert(out.deep_view() + joined(pieces.deep_view()) == out_before.deep_view() + (
        added.deep_view() + joined(pieces.deep_view())));
    }
    assert(joined(pieces.deep_view()) == Seq::<PostfixModel>::empty());
    assert(out.deep_view() + Seq::<PostfixModel>::empty() == out.deep_view());
    let ghost before = out;
    out.push(t);
    proof {
        lemma_push_model(before, out, t);
    }
    out
}

/// Whether an operator changes nothing with this number on its right.
fn identity(op: Operator, rhs: u32) -> (b: bool)
    ensures
        b == is_identity(op, rhs),
{
    match op {
        Operator::Add => zero(rhs),
        Operator::Mul => rhs == ONE,
        Operator::Pow => rhs == ONE,
        _ => false,
    }
}

/// Whether a token, on these operands, leaves its first operand as it is.
fn leaves_first(operands: &Vec<Piece>, t: &PostfixToken) -> (b: bool)
    ensures
        b == elides(operands.deep_view(), t@),
{
    if operands.len() != 2 {
        return false;
    }
    assert(operands.deep_view()[0] == operands[0]@ && operands.deep_view()[1] == operands[1]@);
    match (t, &operands[0], &operands[1]) {
        (PostfixToken::Binary(op), Piece::Residual(_), Piece::Known(rhs)) => identity(*op, *rhs),
        _ => false,
    }
}

/// The piece that a token makes of its operands.
fn combine(operands: Vec<Piece>, t: &PostfixToken, folded: Option<u32>) -> (p: Piece)
    ensures
        p@ == combined(operands.deep_view(), t@, folded),
{
    let mut operands = operands;
    let ghost model = operands.deep_view();
    if let Some(bits) = folded {
        return Piece::Known(bits);
    }
    if let PostfixToken::Value(bits) = t {
        return Piece::Known(*bits);
    }
    if operands.len() == 1 {
        assert(model[0] == operands[0]@);
        if let (PostfixToken::Negate, Piece::Known(bits)) = (t, &operands[0]) {
            return Piece::Known(negate(*bits));
        }
    }
    if leaves_first(&operands, t) {
        let first = operands.remove(0);
        assert(first@ == model[0]);
        return first;
    }
    Piece::Residual(join(operands, t.clone()))
}

/// A simplification under way.
pub struct Simplifier {
    tokens: Vec<PostfixToken>,
    parameter: char,
    position: usize,
    stack: Vec<Piece>,
    broken: bool,
}

impl View for Simplifier {
    type V = SimplifierModel;

    closed spec fn view(&self) -> SimplifierModel {
        SimplifierModel {
            tokens: self.tokens.deep_view(),
            parameter: self.parameter,
            position: self.position as nat,
            stack: self.stack.deep_view(),
            broken: self.broken,
        }
    }
}

impl Simplifier {
    /// A simplification of a postfix sequence as a function of `parameter`,
    /// before its first token.
    pub fn new(postfix: Vec<PostfixToken>, parameter: char) -> (s: Simplifier)
        ensures
            s@ == SimplifierModel::start(postfix.deep_view(), parameter),
    {
        let s = Simplifier {
            tokens: postfix,
            parameter,
            position: 0,
            stack: Vec::new(),
            broken: false,
        };
        assert(s.stack.deep_view() =~= Seq::empty());
        s
    }

    /// Whether the work has ended.
    pub fn finished(&self) -> (b: bool)
        ensures
            b == self@.finished(),
    {
        assert(self.tokens.deep_view().len() == self.tokens.len());
        self.broken || self.position >= self.tokens.len()
    }

    /// What the simplification has come to.
    pub fn outcome(&self) -> (r: Vec<PostfixToken>)
        ensures
            r.deep_view() == self@.outcome(),
    {
        assert(self.stack.deep_view().len() == self.stack.len());
        if !self.broken && self.stack.len() == 1 {
            assert(self.stack.deep_view()[0] == self.stack[0]@);
            match &self.stack[0] {
                Piece::Known(bits) => {
                    let mut out: Vec<PostfixToken> = Vec::new();
                    out.push(PostfixToken::Value(*bits));
                    assert(out.deep_view() =~= self@.outcome());
                    out
                },
                Piece::Residual(tokens) => copy_of(tokens),
            }
        } else {
            copy_of(&self.tokens)
        }
    }

    /// The question that the next token puts, if there is a next token and
    /// it puts one.
    pub fn question(&self) -> (q: Option<Request>)
        ensures
            q is Some == self@.question() is Some,
            q is Some ==> q->Some_0@ == self@.question()->Some_0,
    {
        if self.finished() {
            return None;
        }
        assert(self.tokens.deep_view()[self.position as int] == self.tokens[self.position as int]@);
        match &self.tokens[self.position] {
            PostfixToken::Literal(n) => Some(Request::Convert(n.clone())),
            PostfixToken::Constant(c) => Some(Request::Lookup(*c)),
            PostfixToken::Variable(c) => if *c == self.parameter {
                None
            } else {
                Some(Request::Lookup(*c))
            },
            PostfixToken::Binary(op) => match known_top(&self.stack, 2) {
                Some(numbers) => match find_operation(*op, &numbers) {
                    Finding::Ask(q) => Some(q),
                    _ => None,
                },
                None => None,
            },
            PostfixToken::Call { name, args } => match known_top(&self.stack, *args) {
                Some(numbers) => match find_call(name.as_str(), *args, &numbers) {
                    Finding::Ask(q) => Some(q),
                    _ => None,
                },
                None => None,
            },
            _ => None,
        }
    }

    /// Takes the next token, `answer` being the answer to its question.
    fn step(&mut self, answer: u32)
        requires
            !old(self)@.finished(),
        ensures
            final(self)@ == old(self)@.advanced(answer),
    {
        let ghost before = self@;
        assert(self.tokens.deep_view().len() == self.tokens.len());
        assert(self.stack.deep_view().len() == self.stack.len());
        assert(before.tokens[before.position as int] == self.tokens[self.position as int]@);
        let next = self.position + 1;
        let asked = self.question().is_some();
        let k = count(&self.tokens[self.position]);
        let n = self.stack.len();
        if n < k {
            self.broken = true;
        } else {
            let folded = if asked && !nan(answer) {
                Some(answer)
            } else {
                None
            };
            let top = self.stack.split_off(n - k);
            assert(top.deep_view() =~= taken(before.stack, before.tokens[before.position as int]));
            let piece = combine(top, &self.tokens[self.position], folded);
            self.stack.push(piece);
            assert(self.stack.deep_view() =~= before.stack.take(n - k).push(piece@));
        }
        self.position = next;
    }

    /// Answers the question that the next token puts, and takes the token.
    /// Where no question is open, nothing changes.
    pub fn answer(&mut self, bits: u32)
        ensures
            final(self)@ == if old(self)@.question() is Some {
                old(self)@.advanced(bits)
            } else {
                old(self)@
            },
    {
        if self.question().is_some() {
            self.step(bits);
        }
    }

    /// Goes on until a token puts a question or the work has ended, and says
    /// which: the question, or what the simplification has come to.
    pub fn advance(&mut self) -> (p: Progress<Vec<PostfixToken>>)
        ensures
            final(self)@ == old(self)@.settled(),
            match p {
                Progress::Ask(q) => final(self)@.question() == Some(q@),
                Progress::Done(r) => final(self)@.finished() && r.deep_view()
                    == final(self)@.outcome(),
            },
    {
        loop
            invariant
                self@.settled() == old(self)@.settled(),
                self@.tokens == old(self)@.tokens,
            decreases self@.tokens.len() - self@.position,
        {
            if self.finished() {
                return Progress::Done(self.outcome());
            }
            if let Some(q) = self.question() {
                return Progress::Ask(q);
            }
            self.step(0);
        }
    }
}

/// Walks a postfix sequence, putting every question of arithmetic to `unit`.
fn run<U: Fn(Request) -> u32>(
    postfix: Vec<PostfixToken>,
    parameter: char,
    unit: U,
) -> (r: Vec<PostfixToken>)
    requires
        forall|q: Request| #[trigger] call_requires(unit, (q,)),
    ensures
        forall|model: spec_fn(RequestModel) -> u32| #[trigger]
            computes(unit, model) ==> r.deep_view() == simplify_model(
                postfix.deep_view(),
                parameter,
                model,
            ),
{
    let ghost start = SimplifierModel::start(postfix.deep_view(), parameter);
    let mut simplifier = Simplifier::new(postfix, parameter);
    loop
        invariant
            forall|q: Request| #[trigger] call_requires(unit, (q,)),
            start == SimplifierModel::start(postfix.deep_view(), parameter),
            forall|model: spec_fn(RequestModel) -> u32| #[trigger]
                computes(unit, model) ==> simplifier@.completed(model) == start.completed(model),
        decreases simplifier@.tokens.len() - simplifier@.position,
    {
        let ghost before = simplifier@;
        proof {
            lemma_settled_moves_on(before);
        }
        match simplifier.advance() {
            Progress::Ask(q) => {
                let ghost asked = q@;
                let a = unit(q);
                simplifier.answer(a);
                assert forall|model: spec_fn(RequestModel) -> u32| #[trigger]
                    computes(unit, model) implies simplifier@.completed(model) == start.completed(
                    model,
                ) by {
                    lemma_settled_completes(before, model);
                    lemma_answer_completes(before.settled(), model);
                    assert(a == model(asked));
                }
            },
            Progress::Done(r) => {
                assert forall|model: spec_fn(RequestModel) -> u32| #[trigger]
                    computes(unit, model) implies r.deep_view() == start.completed(model) by {
                    lemma_settled_completes(before, model);
                }
                return r;
            },
        }
    }
}

/// Simplifies a postfix sequence as a function of `parameter`, putting
/// every question of arithmetic to `unit`.
///
/// Every operation on known numbers becomes the number that `unit` finds for
/// it; adding zero, multiplying by one and raising to the power one leave
/// their operand; the parameter, and what the unit has no number for, stay
/// as they are. A sequence that is no postfix order of one expression comes
/// back unchanged. Where `unit` answers as `model` does, the result is that
/// of the model, and simplifying it again gives it back.
pub fn simplify<U: Fn(Request) -> u32>(
    postfix: Vec<PostfixToken>,
    parameter: char,
    unit: U,
) -> (r: Vec<PostfixToken>)
    requires
        forall|q: Request| #[trigger] call_requires(unit, (q,)),
    ensures
        forall|model: spec_fn(RequestModel) -> u32| #[trigger]
            computes(unit, model) ==> r.deep_view() == simplify_model(
                postfix.deep_view(),
                parameter,
                model,
            ),
        forall|model: spec_fn(RequestModel) -> u32| #[trigger]
            computes(unit, model) ==> simplify_model(r.deep_view(), parameter, model)
                == r.deep_view(),
{
    let ghost tokens = postfix.deep_view();
    let r = run(postfix, parameter, unit);
    proof {
        assert forall|model: spec_fn(RequestModel) -> u32| #[trigger]
            computes(unit, model) implies simplify_model(r.deep_view(), parameter, model)
            == r.deep_view() by {
            law_simplify_idempotent(tokens, parameter, model);
        }
    }
    r
}

} // verus!
