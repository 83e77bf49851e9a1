//! Expressions as trees, and how a tree is written and read in postfix.
//!
//! A tree says which operation applies to which operands. Its writing is the
//! run of tokens that spells it under the usual conventions: multiplication
//! and division bind tighter than the unary minus, which binds tighter than
//! addition and subtraction; a power binds tightest; a chain of powers groups
//! from the right, every other chain from the left; parentheses group
//! whatever stands between them.

use crate::operator::Operator;
use crate::postfix::PostfixModel;
use crate::token::TokenModel;
use vstd::prelude::*;

verus! {

/// An expression as a tree.
pub enum Tree {
    Number(Seq<char>),
    Variable(char),
    Constant(char),
    /// An expression in parentheses.
    Group(Box<Tree>),
    /// The unary minus before an expression.
    Negative(Box<Tree>),
    /// An operator between two expressions.
    Binary(Operator, Box<Tree>, Box<Tree>),
    /// A function with its arguments.
    Call(Seq<char>, Seq<Tree>),
}

impl Tree {
    /// How tightly the tree holds together: the precedence of the operator
    /// at its root; a tree without one cannot be torn.
    pub open spec fn level(self) -> nat {
        match self {
            Tree::Negative(_) => 2,
            Tree::Binary(op, _, _) => op.precedence(),
            _ => 5,
        }
    }

    /// Whether the tree is written without parentheses other than its
    /// groups: each operand holds together at least as tightly as its
    /// position asks.
    ///
    /// The operand of a unary minus must not be a sum. That on the left of an
    /// operator must hold as tightly as the operator, that on the right more
    /// tightly; for the power it is the other way round.
    pub open spec fn valid(self) -> bool
        decreases self, 0nat,
    {
        match self {
            Tree::Group(inner) => inner.valid(),
            Tree::Negative(inner) => inner.valid() && inner.level() >= 2,
            Tree::Binary(op, left, right) => {
                &&& left.valid()
                &&& right.valid()
                &&& if op.right_associative() {
                    left.level() > op.precedence() && right.level() >= op.precedence()
                } else {
                    left.level() >= op.precedence() && right.level() > op.precedence()
                }
            },
            Tree::Call(_, args) => all_valid(args, 0),
            _ => true,
        }
    }

    /// The tokens that write the tree.
    pub open spec fn written(self) -> Seq<TokenModel>
        decreases self, 0nat,
    {
        match self {
            Tree::Number(n) => seq![TokenModel::Number(n)],
            Tree::Variable(c) => seq![TokenModel::Variable(c)],
            Tree::Constant(c) => seq![TokenModel::Constant(c)],
            Tree::Group(inner) => seq![TokenModel::LeftParenthesis] + inner.written()
                + seq![TokenModel::RightParenthesis],
            Tree::Negative(inner) => seq![TokenModel::Operator(Operator::Sub)] + inner.written(),
            Tree::Binary(op, left, right) => left.written() + seq![TokenModel::Operator(op)]
                + right.written(),
            Tree::Call(name, args) => seq![
                TokenModel::Function(name),
                TokenModel::LeftParenthesis,
            ] + arguments(args, 0),
        }
    }

    /// The postfix order of the tree: every operation behind its operands.
    pub open spec fn postfix(self) -> Seq<PostfixModel>
        decreases self, 0nat,
    {
        match self {
            Tree::Number(n) => seq![PostfixModel::Literal(n)],
            Tree::Variable(c) => seq![PostfixModel::Variable(c)],
            Tree::Constant(c) => seq![PostfixModel::Constant(c)],
            Tree::Group(inner) => inner.postfix(),
            Tree::Negative(inner) => inner.postfix().push(PostfixModel::Negate),
            Tree::Binary(op, left, right) => (left.postfix() + right.postfix()).push(
                PostfixModel::Binary(op),
            ),
            Tree::Call(name, args) => postfixes(args, 0).push(
                PostfixModel::Call { name, args: args.len() },
            ),
        }
    }
}

/// Whether every tree from place `from` on is written without parentheses
/// other than its groups.
pub open spec fn all_valid(trees: Seq<Tree>, from: nat) -> bool
    decreases trees, trees.len() - from,
{
    if from >= trees.len() {
        true
    } else {
        trees[from as int].valid() && all_valid(trees, from + 1)
    }
}

/// The tokens that write the arguments from place `from` on, a comma
/// between two of them, and the parenthesis that closes them.
pub open spec fn arguments(trees: Seq<Tree>, from: nat) -> Seq<TokenModel>
    decreases trees, trees.len() - from,
{
    if from >= trees.len() {
        seq![TokenModel::RightParenthesis]
    } else if from + 1 == trees.len() {
        trees[from as int].written() + seq![TokenModel::RightParenthesis]
    } else {
        trees[from as int].written() + seq![TokenModel::Comma] + arguments(trees, from + 1)
    }
}

/// The postfix orders of the trees from place `from` on, one behind the
/// other.
pub open spec fn postfixes(trees: Seq<Tree>, from: nat) -> Seq<PostfixModel>
    decreases trees, trees.len() - from,
{
    if from >= trees.len() {
        Seq::empty()
    } else {
        trees[from as int].postfix() + postfixes(trees, from + 1)
    }
}

} // verus!
