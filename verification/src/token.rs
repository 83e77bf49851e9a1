//! Tokens: the atoms that a line of text is cut into.

use crate::numeral::Numeral;
use crate::operator::{ComparisonOp, Operator};
use vstd::prelude::*;

verus! {

/// The mathematical model of a token: what it is, with its text as a sequence
/// of characters.
pub enum TokenModel {
    Number(Seq<char>),
    Operator(Operator),
    ComparisonOp(ComparisonOp),
    Variable(char),
    Constant(char),
    Function(Seq<char>),
    LeftParenthesis,
    RightParenthesis,
    Comma,
    Unknown(char),
}

impl TokenModel {
    /// Whether the token may stand inside an expression: anything but a
    /// comparison and a character that means nothing.
    pub open spec fn is_simple(self) -> bool {
        !(self is ComparisonOp) && !(self is Unknown)
    }

    /// Whether an operand ends with the token.
    pub open spec fn closes_operand(self) -> bool {
        self is Number || self is RightParenthesis
    }

    /// Whether an operand begins with the token.
    pub open spec fn opens_operand(self) -> bool {
        self is Variable || self is Constant || self is LeftParenthesis || self is Function
    }
}

/// A token as the lexer gives it.
#[derive(Debug, PartialEq)]
pub enum ComplexToken {
    Number(Numeral),
    Operator(Operator),
    ComparisonOp(ComparisonOp),
    Variable(char),
    Constant(char),
    Function(String),
    LeftParenthesis,
    RightParenthesis,
    Comma,
    Unknown(char),
}

/// A token of an expression that can be calculated.
#[derive(Debug, PartialEq)]
pub enum SimpleToken {
    Number(Numeral),
    Operator(Operator),
    Variable(char),
    Constant(char),
    Function(String),
    LeftParenthesis,
    RightParenthesis,
    Comma,
}

impl View for ComplexToken {
    type V = TokenModel;

    open spec fn view(&self) -> TokenModel {
        match self {
            ComplexToken::Number(n) => TokenModel::Number(n@),
            ComplexToken::Operator(op) => TokenModel::Operator(*op),
            ComplexToken::ComparisonOp(op) => TokenModel::ComparisonOp(*op),
            ComplexToken::Variable(c) => TokenModel::Variable(*c),
            ComplexToken::Constant(c) => TokenModel::Constant(*c),
            ComplexToken::Function(name) => TokenModel::Function(name@),
            ComplexToken::LeftParenthesis => TokenModel::LeftParenthesis,
            ComplexToken::RightParenthesis => TokenModel::RightParenthesis,
            ComplexToken::Comma => TokenModel::Comma,
            ComplexToken::Unknown(c) => TokenModel::Unknown(*c),
        }
    }
}

impl DeepView for ComplexToken {
    type V = TokenModel;

    open spec fn deep_view(&self) -> TokenModel {
        self@
    }
}

impl View for SimpleToken {
    type V = TokenModel;

    open spec fn view(&self) -> TokenModel {
        match self {
            SimpleToken::Number(n) => TokenModel::Number(n@),
            SimpleToken::Operator(op) => TokenModel::Operator(*op),
            SimpleToken::Variable(c) => TokenModel::Variable(*c),
            SimpleToken::Constant(c) => TokenModel::Constant(*c),
            SimpleToken::Function(name) => TokenModel::Function(name@),
            SimpleToken::LeftParenthesis => TokenModel::LeftParenthesis,
            SimpleToken::RightParenthesis => TokenModel::RightParenthesis,
            SimpleToken::Comma => TokenModel::Comma,
        }
    }
}

impl DeepView for SimpleToken {
    type V = TokenModel;

    open spec fn deep_view(&self) -> TokenModel {
        self@
    }
}

impl Clone for ComplexToken {
    fn clone(&self) -> (t: Self)
        ensures
            t == *self,
    {
        match self {
            ComplexToken::Number(n) => ComplexToken::Number(n.clone()),
            ComplexToken::Operator(op) => ComplexToken::Operator(*op),
            ComplexToken::ComparisonOp(op) => ComplexToken::ComparisonOp(*op),
            ComplexToken::Variable(c) => ComplexToken::Variable(*c),
            ComplexToken::Constant(c) => ComplexToken::Constant(*c),
            ComplexToken::Function(name) => ComplexToken::Function(name.clone()),
            ComplexToken::LeftParenthesis => ComplexToken::LeftParenthesis,
            ComplexToken::RightParenthesis => ComplexToken::RightParenthesis,
            ComplexToken::Comma => ComplexToken::Comma,
            ComplexToken::Unknown(c) => ComplexToken::Unknown(*c),
        }
    }
}

impl Clone for SimpleToken {
    fn clone(&self) -> (t: Self)
        ensures
            t == *self,
    {
        match self {
            SimpleToken::Number(n) => SimpleToken::Number(n.clone()),
            SimpleToken::Operator(op) => SimpleToken::Operator(*op),
            SimpleToken::Variable(c) => SimpleToken::Variable(*c),
            SimpleToken::Constant(c) => SimpleToken::Constant(*c),
            SimpleToken::Function(name) => SimpleToken::Function(name.clone()),
            SimpleToken::LeftParenthesis => SimpleToken::LeftParenthesis,
            SimpleToken::RightParenthesis => SimpleToken::RightParenthesis,
            SimpleToken::Comma => SimpleToken::Comma,
        }
    }
}

impl ComplexToken {
    /// The same token as one of an expression, where it may stand in one.
    pub fn to_simple(&self) -> (r: Option<SimpleToken>)
        ensures
            r is Some <==> self@.is_simple(),
            r is Some ==> r->Some_0@ == self@,
    {
        match self {
            ComplexToken::Number(n) => Some(SimpleToken::Number(n.clone())),
            ComplexToken::Operator(op) => Some(SimpleToken::Operator(*op)),
            ComplexToken::ComparisonOp(_) => None,
            ComplexToken::Variable(c) => Some(SimpleToken::Variable(*c)),
            ComplexToken::Constant(c) => Some(SimpleToken::Constant(*c)),
            ComplexToken::Function(name) => Some(SimpleToken::Function(name.clone())),
            ComplexToken::LeftParenthesis => Some(SimpleToken::LeftParenthesis),
            ComplexToken::RightParenthesis => Some(SimpleToken::RightParenthesis),
            ComplexToken::Comma => Some(SimpleToken::Comma),
            ComplexToken::Unknown(_) => None,
        }
    }
}

/// Appending a token to a vector appends its model to the vector's model.
pub proof fn lemma_push_model<T: DeepView>(before: Vec<T>, after: Vec<T>, t: T)
    requires
        after@ == before@.push(t),
    ensures
        after.deep_view() == before.deep_view().push(t.deep_view()),
{
    assert(after.deep_view() =~= before.deep_view().push(t.deep_view()));
}

/// Taking the last element off a vector takes the last off its model.
pub proof fn lemma_pop_model<T: DeepView>(before: Vec<T>, after: Vec<T>)
    requires
        before@.len() > 0,
        after@ == before@.drop_last(),
    ensures
        after.deep_view() == before.deep_view().drop_last(),
        before.deep_view().last() == before@.last().deep_view(),
{
    assert(after.deep_view() =~= before.deep_view().drop_last());
}

} // verus!
