//! Rendering: from a statement back to a line of text.

use crate::operator::{ComparisonOp, Operator};
use crate::statement::{CalculatableExpr, ExprType, StatementModel};
use crate::text::push_char;
use crate::token::{SimpleToken, TokenModel};
use vstd::prelude::*;

verus! {

/// The text of one token. A blank ends it, but for the name of a function,
/// which its parenthesis must follow directly.
pub open spec fn word(t: TokenModel) -> Seq<char> {
    match t {
        TokenModel::Number(n) => n.push(' '),
        TokenModel::Operator(op) => seq![op.symbol(), ' '],
        TokenModel::ComparisonOp(op) => op.symbol().push(' '),
        TokenModel::Variable(c) => seq![c, ' '],
        TokenModel::Constant(c) => seq![c, ' '],
        TokenModel::Function(name) => name,
        TokenModel::LeftParenthesis => seq!['(', ' '],
        TokenModel::RightParenthesis => seq![')', ' '],
        TokenModel::Comma => seq![',', ' '],
        TokenModel::Unknown(c) => seq![c, ' '],
    }
}

/// The text of a run of tokens: their words one behind the other.
pub open spec fn spell(tokens: Seq<TokenModel>) -> Seq<char>
    decreases tokens.len(),
{
    if tokens.len() == 0 {
        Seq::empty()
    } else {
        word(tokens[0]) + spell(tokens.drop_first())
    }
}

/// The tokens that a statement is made of, in the order in which they are
/// written.
pub open spec fn tokens_of(statement: StatementModel) -> Seq<TokenModel> {
    match statement {
        StatementModel::FunctionDefinition { name, param, body } => seq![
            TokenModel::Function(name),
            TokenModel::LeftParenthesis,
            TokenModel::Variable(param),
            TokenModel::RightParenthesis,
            TokenModel::ComparisonOp(ComparisonOp::EqualTo),
        ] + body,
        StatementModel::Equation { left, op, right } => left + seq![TokenModel::ComparisonOp(op)]
            + right,
        StatementModel::CalculableExpression(e) => e,
        StatementModel::VariableAssignment { name, value } => seq![
            TokenModel::Variable(name),
            TokenModel::ComparisonOp(ComparisonOp::EqualTo),
        ] + value,
        StatementModel::Unrecognized => seq![TokenModel::Unknown('?')],
    }
}

/// The text of a statement. What is not recognized is written as a question
/// mark.
pub open spec fn render_model(statement: StatementModel) -> Seq<char> {
    spell(tokens_of(statement))
}

/// The text of a run of tokens behind another is the two texts one behind
/// the other.
pub proof fn lemma_spell_append(first: Seq<TokenModel>, second: Seq<TokenModel>)
    ensures
        spell(first + second) == spell(first) + spell(second),
    decreases first.len(),
{
    if first.len() == 0 {
        assert(first + second == second);
        assert(spell(first) + spell(second) == spell(second));
    } else {
        assert((first + second)[0] == first[0]);
        assert((first + second).drop_first() == first.drop_first() + second);
        lemma_spell_append(first.drop_first(), second);
        assert(word(first[0]) + (spell(first.drop_first()) + spell(second)) == (word(first[0])
            + spell(first.drop_first())) + spell(second));
    }
}

/// Writes a comparison behind a text, and a blank behind it.
fn write_comparison(out: &mut String, op: ComparisonOp)
    ensures
        final(out)@ == old(out)@ + word(TokenModel::ComparisonOp(op)),
{
    match op {
        ComparisonOp::LessThan => {
            push_char(out, '<');
        },
        ComparisonOp::GreaterThan => {
            push_char(out, '>');
        },
        ComparisonOp::LessThanOrEqualTo => {
            push_char(out, '<');
            push_char(out, '=');
        },
        ComparisonOp::GreaterThanOrEqualTo => {
            push_char(out, '>');
            push_char(out, '=');
        },
        ComparisonOp::EqualTo => {
            push_char(out, '=');
        },
        ComparisonOp::NotEqualTo => {
            push_char(out, '!');
            push_char(out, '=');
        },
    }
    push_char(out, ' ');
    assert(out@ =~= old(out)@ + word(TokenModel::ComparisonOp(op)));
}

/// Writes a character behind a text, and a blank behind it.
fn write_char(out: &mut String, c: char)
    ensures
        final(out)@ == old(out)@ + seq![c, ' '],
{
    push_char(out, c);
    push_char(out, ' ');
    assert(out@ =~= old(out)@ + seq![c, ' ']);
}

/// Writes a token behind a text.
fn write_token(out: &mut String, t: &SimpleToken)
    ensures
        final(out)@ == old(out)@ + word(t@),
{
    match t {
        SimpleToken::Number(n) => {
            out.append(n.as_str());
            push_char(out, ' ');
            assert(out@ =~= old(out)@ + word(t@));
        },
        SimpleToken::Operator(op) => write_char(out, op.to_char()),
        SimpleToken::Variable(c) => write_char(out, *c),
        SimpleToken::Constant(c) => write_char(out, *c),
        SimpleToken::Function(name) => {
            out.append(name.as_str());
        },
        SimpleToken::LeftParenthesis => write_char(out, '('),
        SimpleToken::RightParenthesis => write_char(out, ')'),
        SimpleToken::Comma => write_char(out, ','),
    }
}

/// Writes an expression behind a text.
fn write_expression(out: &mut String, e: &CalculatableExpr)
    ensures
        final(out)@ == old(out)@ + spell(e@),
{
    let ghost start = out@;
    let mut i: usize = 0;
    assert(e@.skip(0) == e@);
    while i < e.0.len()
        invariant
            i <= e.0.len(),
            out@ + spell(e@.skip(i as int)) == start + spell(e@),
        decreases e.0.len() - i,
    {
        let ghost before = out@;
        let ghost rest = e@.skip(i as int);
        assert(rest[0] == e.0[i as int]@);
        assert(rest.drop_first() == e@.skip(i + 1));
        write_token(out, &e.0[i]);
        assert((before + word(rest[0])) + spell(rest.drop_first()) == before + (word(rest[0])
            + spell(rest.drop_first())));
        i += 1;
    }
    assert(e@.skip(e.0.len() as int).len() == 0);
    assert(out@ + Seq::<char>::empty() == out@);
}

/// Writes a statement as a line of text.
pub fn render(statement: &ExprType) -> (text: String)
    ensures
        text@ == render_model(statement@),
{
    let mut out = String::new();
    let ghost none = Seq::<char>::empty();
    match statement {
        ExprType::FunctionDefinition { name, param, body } => {
            out.append(name.as_str());
            write_char(&mut out, '(');
            write_char(&mut out, *param);
            write_char(&mut out, ')');
            write_comparison(&mut out, ComparisonOp::EqualTo);
            let ghost head = seq![
                TokenModel::Function(name@),
                TokenModel::LeftParenthesis,
                TokenModel::Variable(*param),
                TokenModel::RightParenthesis,
                TokenModel::ComparisonOp(ComparisonOp::EqualTo),
            ];
            proof {
                lemma_spell_head(head);
                lemma_spell_append(head, body@);
                assert(out@ =~= spell(head));
            }
            write_expression(&mut out, body);
        },
        ExprType::Equation { left, op, right } => {
            assert(none + spell(left@) == spell(left@));
            write_expression(&mut out, left);
            write_comparison(&mut out, *op);
            let ghost middle = seq![TokenModel::ComparisonOp(*op)];
            proof {
                lemma_spell_head(middle);
                lemma_spell_append(left@, middle);
                lemma_spell_append(left@ + middle, right@);
                assert(spell(middle) =~= word(middle[0]));
            }
            write_expression(&mut out, right);
        },
        ExprType::CalculableExpression(e) => {
            assert(none + spell(e@) == spell(e@));
            write_expression(&mut out, e);
        },
        ExprType::VariableAssignment { name, value } => {
            write_char(&mut out, *name);
            write_comparison(&mut out, ComparisonOp::EqualTo);
            let ghost head = seq![
                TokenModel::Variable(*name),
                TokenModel::ComparisonOp(ComparisonOp::EqualTo),
            ];
            proof {
                lemma_spell_head(head);
                lemma_spell_append(head, value@);
                assert(out@ =~= spell(head));
            }
            write_expression(&mut out, value);
        },
        ExprType::Unrecognized => {
            write_char(&mut out, '?');
            proof {
                lemma_spell_head(seq![TokenModel::Unknown('?')]);
                assert(out@ =~= spell(seq![TokenModel::Unknown('?')]));
            }
        },
    }
    out
}

/// The text of up to five tokens, word by word.
proof fn lemma_spell_head(tokens: Seq<TokenModel>)
    requires
        tokens.len() <= 5,
    ensures
        tokens.len() == 1 ==> spell(tokens) =~= word(tokens[0]),
        tokens.len() == 2 ==> spell(tokens) =~= word(tokens[0]) + word(tokens[1]),
        tokens.len() == 5 ==> spell(tokens) =~= word(tokens[0]) + word(tokens[1]) + word(tokens[2])
            + word(tokens[3]) + word(tokens[4]),
    decreases tokens.len(),
{
    reveal_with_fuel(spell, 6);
    if tokens.len() == 5 {
        let a = tokens.drop_first();
        let b = a.drop_first();
        let c = b.drop_first();
        let d = c.drop_first();
        assert(d.drop_first().len() == 0);
        assert(a[0] == tokens[1] && b[0] == tokens[2] && c[0] == tokens[3] && d[0] == tokens[4]);
    } else if tokens.len() == 2 {
        let a = tokens.drop_first();
        assert(a.drop_first().len() == 0);
        assert(a[0] == tokens[1]);
    } else if tokens.len() == 1 {
        assert(tokens.drop_first().len() == 0);
    }
}

} // verus!
