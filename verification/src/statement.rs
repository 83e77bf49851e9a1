//! The classifier: from tokens to the kind of statement that they make.

use crate::balance::{law_statement_calls_open, lemma_lexical_calls_open, statement_calls_open};
use crate::lexer::tokenize;
use crate::lexical::{lexical, saturated};
use crate::operator::ComparisonOp;
use crate::render::render_model;
use crate::round_trip::law_statement_round_trip;
use crate::token::{lemma_push_model, ComplexToken, SimpleToken, TokenModel};
use vstd::prelude::*;

verus! {

/// An expression: a run of tokens that holds no comparison and no character
/// that means nothing.
#[derive(Debug, PartialEq)]
pub struct CalculatableExpr(pub Vec<SimpleToken>);

impl View for CalculatableExpr {
    type V = Seq<TokenModel>;

    open spec fn view(&self) -> Seq<TokenModel> {
        self.0.deep_view()
    }
}

/// The kind of statement that a line makes, with its parts.
#[derive(Debug, PartialEq)]
#[allow(inconsistent_fields)]
pub enum ExprType {
    /// `name(param) = body`
    FunctionDefinition { name: String, param: char, body: CalculatableExpr },
    /// `left op right`
    Equation { left: CalculatableExpr, op: ComparisonOp, right: CalculatableExpr },
    /// An expression with no variable in it.
    CalculableExpression(CalculatableExpr),
    /// `name = value`
    VariableAssignment { name: char, value: CalculatableExpr },
    /// None of the others.
    Unrecognized,
}

/// The mathematical model of a statement.
#[allow(inconsistent_fields)]
pub enum StatementModel {
    FunctionDefinition { name: Seq<char>, param: char, body: Seq<TokenModel> },
    Equation { left: Seq<TokenModel>, op: ComparisonOp, right: Seq<TokenModel> },
    CalculableExpression(Seq<TokenModel>),
    VariableAssignment { name: char, value: Seq<TokenModel> },
    Unrecognized,
}

impl View for ExprType {
    type V = StatementModel;

    open spec fn view(&self) -> StatementModel {
        match self {
            ExprType::FunctionDefinition { name, param, body } => StatementModel::FunctionDefinition {
                name: name@,
                param: *param,
                body: body@,
            },
            ExprType::Equation { left, op, right } => StatementModel::Equation {
                left: left@,
                op: *op,
                right: right@,
            },
            ExprType::CalculableExpression(e) => StatementModel::CalculableExpression(e@),
            ExprType::VariableAssignment { name, value } => StatementModel::VariableAssignment {
                name: *name,
                value: value@,
            },
            ExprType::Unrecognized => StatementModel::Unrecognized,
        }
    }
}

/// Whether every token may stand in an expression.
pub open spec fn all_simple(tokens: Seq<TokenModel>) -> bool {
    forall|i: int| 0 <= i < tokens.len() ==> (#[trigger] tokens[i]).is_simple()
}

/// Whether no variable occurs among the tokens.
pub open spec fn no_variable(tokens: Seq<TokenModel>) -> bool {
    forall|i: int| 0 <= i < tokens.len() ==> !((#[trigger] tokens[i]) is Variable)
}

/// Whether no variable but `param` occurs among the tokens.
pub open spec fn variables_within(tokens: Seq<TokenModel>, param: char) -> bool {
    forall|i: int|
        0 <= i < tokens.len() && (#[trigger] tokens[i]) is Variable ==> tokens[i]
            == TokenModel::Variable(param)
}

/// The depth of parentheses behind a token, given the depth before it. A
/// closing parenthesis that closes nothing leaves the depth at zero.
pub open spec fn depth_behind(depth: nat, t: TokenModel) -> nat {
    if t is LeftParenthesis {
        depth + 1
    } else if t is RightParenthesis && depth > 0 {
        (depth - 1) as nat
    } else {
        depth
    }
}

/// How many comparisons stand outside every parenthesis, where `depth`
/// parentheses are open before the first token.
pub open spec fn top_level_comparisons(tokens: Seq<TokenModel>, depth: nat) -> nat
    decreases tokens.len(),
{
    if tokens.len() == 0 {
        0
    } else {
        let here: nat = if tokens[0] is ComparisonOp && depth == 0 {
            1
        } else {
            0
        };
        here + top_level_comparisons(tokens.drop_first(), depth_behind(depth, tokens[0]))
    }
}

/// The place of the first comparison that stands outside every parenthesis,
/// or the number of tokens where there is none.
pub open spec fn first_top_level(tokens: Seq<TokenModel>, depth: nat) -> nat
    decreases tokens.len(),
{
    if tokens.len() == 0 {
        0
    } else if tokens[0] is ComparisonOp && depth == 0 {
        0
    } else {
        1 + first_top_level(tokens.drop_first(), depth_behind(depth, tokens[0]))
    }
}

/// Whether the tokens begin as the definition of a function does:
/// a name, `(`, a variable, `)`, `=`.
pub open spec fn heads_definition(tokens: Seq<TokenModel>) -> bool {
    &&& tokens.len() >= 5
    &&& tokens[0] is Function
    &&& tokens[1] is LeftParenthesis
    &&& tokens[2] is Variable
    &&& tokens[3] is RightParenthesis
    &&& tokens[4] == TokenModel::ComparisonOp(ComparisonOp::EqualTo)
}

/// Whether the tokens define a function: they begin as a definition does, and
/// what follows is an expression in which no variable but the parameter occurs.
pub open spec fn is_definition(tokens: Seq<TokenModel>) -> bool {
    &&& heads_definition(tokens)
    &&& all_simple(tokens.skip(5))
    &&& variables_within(tokens.skip(5), tokens[2]->Variable_0)
}

/// Whether the tokens make an equation: exactly one comparison stands outside
/// every parenthesis, and an expression stands on either side of it.
pub open spec fn is_equation(tokens: Seq<TokenModel>) -> bool {
    &&& top_level_comparisons(tokens, 0) == 1
    &&& all_simple(tokens.take(first_top_level(tokens, 0) as int))
    &&& all_simple(tokens.skip(first_top_level(tokens, 0) as int + 1))
}

/// Whether the tokens assign to a variable: a variable, `=`, an expression.
pub open spec fn is_assignment(tokens: Seq<TokenModel>) -> bool {
    &&& tokens.len() >= 2
    &&& tokens[0] is Variable
    &&& tokens[1] == TokenModel::ComparisonOp(ComparisonOp::EqualTo)
    &&& all_simple(tokens.skip(2))
}

/// Whether the tokens make an expression that can be calculated as it stands.
pub open spec fn is_calculable(tokens: Seq<TokenModel>) -> bool {
    all_simple(tokens) && no_variable(tokens)
}

/// The statement that the tokens make. The kinds are tried in this order:
/// definition of a function, equation, assignment, calculable expression;
/// what is none of them is not recognized.
///
/// An assignment has exactly one comparison outside every parenthesis and an
/// expression on either side, so it is an equation, and as one it is taken
/// first: see `law_assignment_is_equation`.
pub open spec fn classify_model(tokens: Seq<TokenModel>) -> StatementModel {
    if is_definition(tokens) {
        StatementModel::FunctionDefinition {
            name: tokens[0]->Function_0,
            param: tokens[2]->Variable_0,
            body: tokens.skip(5),
        }
    } else if is_equation(tokens) {
        let at = first_top_level(tokens, 0) as int;
        StatementModel::Equation {
            left: tokens.take(at),
            op: tokens[at]->ComparisonOp_0,
            right: tokens.skip(at + 1),
        }
    } else if is_assignment(tokens) {
        StatementModel::VariableAssignment { name: tokens[0]->Variable_0, value: tokens.skip(2) }
    } else if is_calculable(tokens) {
        StatementModel::CalculableExpression(tokens)
    } else {
        StatementModel::Unrecognized
    }
}

/// Where a comparison stands outside every parenthesis, the first such place
/// is within the tokens and holds a comparison.
pub proof fn lemma_first_top_level(tokens: Seq<TokenModel>, depth: nat)
    ensures
        first_top_level(tokens, depth) <= tokens.len(),
        top_level_comparisons(tokens, depth) > 0 ==> first_top_level(tokens, depth) < tokens.len()
            && tokens[first_top_level(tokens, depth) as int] is ComparisonOp,
        top_level_comparisons(tokens, depth) == 0 ==> first_top_level(tokens, depth)
            == tokens.len(),
    decreases tokens.len(),
{
    if tokens.len() > 0 {
        lemma_first_top_level(tokens.drop_first(), depth_behind(depth, tokens[0]));
    }
}

/// Among tokens that may all stand in an expression there is no comparison
/// to count.
pub proof fn lemma_simple_has_no_comparison(tokens: Seq<TokenModel>, depth: nat)
    requires
        all_simple(tokens),
    ensures
        top_level_comparisons(tokens, depth) == 0,
    decreases tokens.len(),
{
    if tokens.len() > 0 {
        assert(tokens[0].is_simple());
        assert forall|i: int| 0 <= i < tokens.drop_first().len() implies (
        #[trigger] tokens.drop_first()[i]).is_simple() by {
            assert(tokens[i + 1].is_simple());
        }
        lemma_simple_has_no_comparison(tokens.drop_first(), depth_behind(depth, tokens[0]));
    }
}

/// Every assignment is an equation: its one comparison stands outside every
/// parenthesis, with the variable before it and an expression behind it.
pub proof fn law_assignment_is_equation(tokens: Seq<TokenModel>)
    requires
        is_assignment(tokens),
    ensures
        is_equation(tokens),
        first_top_level(tokens, 0) == 1,
{
    let rest = tokens.drop_first();
    assert(rest.drop_first() == tokens.skip(2));
    assert(rest[0] == tokens[1]);
    lemma_simple_has_no_comparison(tokens.skip(2), 0);
    assert(top_level_comparisons(rest, 0) == 1);
    assert(first_top_level(rest, 0) == 0);
    assert(tokens.take(1)[0] == tokens[0]);
}

/// The expression that a stretch of tokens makes, if each of them may stand
/// in one.
fn expression_of(tokens: &Vec<ComplexToken>, from: usize, to: usize) -> (r: Option<
    CalculatableExpr,
>)
    requires
        from <= to <= tokens.len(),
    ensures
        r is Some <==> all_simple(tokens.deep_view().subrange(from as int, to as int)),
        r is Some ==> r->Some_0@ == tokens.deep_view().subrange(from as int, to as int),
{
    let ghost want = tokens.deep_view().subrange(from as int, to as int);
    let mut out: Vec<SimpleToken> = Vec::new();
    let mut i: usize = from;
    while i < to
        invariant
            from <= i <= to <= tokens.len(),
            want == tokens.deep_view().subrange(from as int, to as int),
            out.deep_view() == want.take(i - from),
            all_simple(want.take(i - from)),
        decreases to - i,
    {
        assert(want[i - from] == tokens[i as int]@);
        match tokens[i].to_simple() {
            Some(t) => {
                let ghost before = out;
                out.push(t);
                proof {
                    lemma_push_model(before, out, t);
                    assert(want.take(i + 1 - from) == want.take(i - from).push(want[i - from]));
                }
            },
            None => {
                return None;
            },
        }
        i += 1;
    }
    assert(want.take(to - from) == want);
    Some(CalculatableExpr(out))
}

/// Whether no variable but `param` occurs in an expression.
fn keeps_within(e: &CalculatableExpr, param: char) -> (b: bool)
    ensures
        b == variables_within(e@, param),
{
    let mut i: usize = 0;
    while i < e.0.len()
        invariant
            i <= e.0.len(),
            variables_within(e@.take(i as int), param),
        decreases e.0.len() - i,
    {
        assert(e@[i as int] == e.0[i as int]@);
        match &e.0[i] {
            SimpleToken::Variable(c) => {
                if *c != param {
                    return false;
                }
            },
            _ => {},
        }
        i += 1;
        assert forall|k: int| 0 <= k < i && (#[trigger] e@.take(i as int)[k]) is Variable implies e@.take(
            i as int,
        )[k] == TokenModel::Variable(param) by {
            if k < i - 1 {
                assert(e@.take(i - 1)[k] == e@.take(i as int)[k]);
            }
        }
    }
    assert(e@.take(e.0.len() as int) == e@);
    true
}

/// Whether no variable occurs in an expression.
fn lacks_variable(e: &CalculatableExpr) -> (b: bool)
    ensures
        b == no_variable(e@),
{
    let mut i: usize = 0;
    while i < e.0.len()
        invariant
            i <= e.0.len(),
            no_variable(e@.take(i as int)),
        decreases e.0.len() - i,
    {
        assert(e@[i as int] == e.0[i as int]@);
        match &e.0[i] {
            SimpleToken::Variable(_) => {
                return false;
            },
            _ => {},
        }
        i += 1;
        assert forall|k: int| 0 <= k < i implies !((#[trigger] e@.take(i as int)[k]) is Variable) by {
            if k < i - 1 {
                assert(e@.take(i - 1)[k] == e@.take(i as int)[k]);
            }
        }
    }
    assert(e@.take(e.0.len() as int) == e@);
    true
}

/// The parts of a definition, where the tokens define a function.
fn definition_of(tokens: &Vec<ComplexToken>) -> (r: Option<ExprType>)
    ensures
        r is Some <==> is_definition(tokens.deep_view()),
        r is Some ==> r->Some_0@ == classify_model(tokens.deep_view()),
{
    let ghost model = tokens.deep_view();
    if tokens.len() < 5 {
        return None;
    }
    assert(model[0] == tokens[0]@ && model[1] == tokens[1]@ && model[2] == tokens[2]@ && model[3]
        == tokens[3]@ && model[4] == tokens[4]@);
    assert(model.skip(5) == model.subrange(5, tokens.len() as int));
    match (&tokens[0], &tokens[1], &tokens[2], &tokens[3], &tokens[4]) {
        (
            ComplexToken::Function(name),
            ComplexToken::LeftParenthesis,
            ComplexToken::Variable(param),
            ComplexToken::RightParenthesis,
            ComplexToken::ComparisonOp(ComparisonOp::EqualTo),
        ) => {
            match expression_of(tokens, 5, tokens.len()) {
                Some(body) => {
                    if keeps_within(&body, *param) {
                        Some(
                            ExprType::FunctionDefinition {
                                name: name.clone(),
                                param: *param,
                                body,
                            },
                        )
                    } else {
                        None
                    }
                },
                None => None,
            }
        },
        _ => None,
    }
}

/// The number of comparisons outside every parenthesis, and the place of the
/// first of them.
fn survey(tokens: &Vec<ComplexToken>) -> (r: (usize, usize))
    ensures
        r.0 == top_level_comparisons(tokens.deep_view(), 0),
        r.1 == first_top_level(tokens.deep_view(), 0),
{
    let ghost model = tokens.deep_view();
    let mut depth: usize = 0;
    let mut count: usize = 0;
    let mut first: usize = 0;
    let mut i: usize = 0;
    assert(model.skip(0) == model);
    while i < tokens.len()
        invariant
            i <= tokens.len(),
            model == tokens.deep_view(),
            depth <= i,
            count <= i,
            top_level_comparisons(model, 0) == count + top_level_comparisons(
                model.skip(i as int),
                depth as nat,
            ),
            first_top_level(model, 0) == if count > 0 {
                first as int
            } else {
                i + first_top_level(model.skip(i as int), depth as nat)
            },
        decreases tokens.len() - i,
    {
        assert(model.skip(i as int)[0] == tokens[i as int]@);
        assert(model.skip(i as int).drop_first() == model.skip(i + 1));
        match &tokens[i] {
            ComplexToken::ComparisonOp(_) => {
                if depth == 0 {
                    if count == 0 {
                        first = i;
                    }
                    count += 1;
                }
            },
            ComplexToken::LeftParenthesis => {
                depth += 1;
            },
            ComplexToken::RightParenthesis => {
                if depth > 0 {
                    depth -= 1;
                }
            },
            _ => {},
        }
        i += 1;
    }
    assert(model.skip(tokens.len() as int).len() == 0);
    if count > 0 {
        (count, first)
    } else {
        (count, tokens.len())
    }
}

/// The parts of an equation, where the tokens make one.
fn equation_of(tokens: &Vec<ComplexToken>) -> (r: Option<ExprType>)
    ensures
        r is Some <==> is_equation(tokens.deep_view()),
        r is Some ==> r->Some_0@ == (StatementModel::Equation {
            left: tokens.deep_view().take(first_top_level(tokens.deep_view(), 0) as int),
            op: tokens.deep_view()[first_top_level(tokens.deep_view(), 0) as int]->ComparisonOp_0,
            right: tokens.deep_view().skip(first_top_level(tokens.deep_view(), 0) as int + 1),
        }),
{
    let ghost model = tokens.deep_view();
    let (count, at) = survey(tokens);
    if count != 1 {
        return None;
    }
    proof {
        lemma_first_top_level(model, 0);
    }
    assert(model[at as int] == tokens[at as int]@);
    assert(model.take(at as int) == model.subrange(0, at as int));
    assert(model.skip(at + 1) == model.subrange(at + 1, tokens.len() as int));
    match &tokens[at] {
        ComplexToken::ComparisonOp(op) => {
            match expression_of(tokens, 0, at) {
                Some(left) => {
                    match expression_of(tokens, at + 1, tokens.len()) {
                        Some(right) => Some(ExprType::Equation { left, op: *op, right }),
                        None => None,
                    }
                },
                None => None,
            }
        },
        _ => None,
    }
}

/// The parts of an assignment, where the tokens make one.
fn assignment_of(tokens: &Vec<ComplexToken>) -> (r: Option<ExprType>)
    ensures
        r is Some <==> is_assignment(tokens.deep_view()),
        r is Some ==> r->Some_0@ == (StatementModel::VariableAssignment {
            name: tokens.deep_view()[0]->Variable_0,
            value: tokens.deep_view().skip(2),
        }),
{
    let ghost model = tokens.deep_view();
    if tokens.len() < 2 {
        return None;
    }
    assert(model[0] == tokens[0]@ && model[1] == tokens[1]@);
    assert(model.skip(2) == model.subrange(2, tokens.len() as int));
    match (&tokens[0], &tokens[1]) {
        (ComplexToken::Variable(name), ComplexToken::ComparisonOp(ComparisonOp::EqualTo)) => {
            match expression_of(tokens, 2, tokens.len()) {
                Some(value) => Some(ExprType::VariableAssignment { name: *name, value }),
                None => None,
            }
        },
        _ => None,
    }
}

/// Decides which kind of statement the tokens make, and cuts them into its
/// parts. Never fails: what is no other kind is `Unrecognized`. Of tokens
/// that the lexer gave, every expression of the statement has its
/// parenthesis behind the name of every function, and the statement,
/// written out and read again, is the statement itself.
pub fn classify(tokens: Vec<ComplexToken>) -> (statement: ExprType)
    ensures
        statement@ == classify_model(tokens.deep_view()),
        lexical(tokens.deep_view()) ==> statement_calls_open(statement@),
        lexical(tokens.deep_view()) && saturated(tokens.deep_view()) ==> classify_model(
            tokenize(render_model(statement@)),
        ) == statement@,
{
    let ghost model = tokens.deep_view();
    proof {
        if lexical(model) {
            lemma_lexical_calls_open(model);
            law_statement_calls_open(model);
            if saturated(model) {
                law_statement_round_trip(model);
            }
        }
    }
    if let Some(definition) = definition_of(&tokens) {
        return definition;
    }
    if let Some(equation) = equation_of(&tokens) {
        return equation;
    }
    if let Some(assignment) = assignment_of(&tokens) {
        return assignment;
    }
    assert(model.subrange(0, tokens.len() as int) == model);
    match expression_of(&tokens, 0, tokens.len()) {
        Some(e) => {
            if lacks_variable(&e) {
                ExprType::CalculableExpression(e)
            } else {
                ExprType::Unrecognized
            }
        },
        None => ExprType::Unrecognized,
    }
}

} // verus!
