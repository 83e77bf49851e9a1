//! The arithmetic and comparison operators, and the characters that stand for them.

use vstd::prelude::*;

verus! {

/// A binary arithmetic operator.
#[derive(Clone, Copy, Debug, PartialEq, Eq, Structural)]
pub enum Operator {
    Add,
    Sub,
    Mul,
    Div,
    Pow,
}

/// A comparison between the two sides of a statement.
#[derive(Clone, Copy, Debug, PartialEq, Eq, Structural)]
pub enum ComparisonOp {
    /// `<`
    LessThan,
    /// `>`
    GreaterThan,
    /// `<=`
    LessThanOrEqualTo,
    /// `>=`
    GreaterThanOrEqualTo,
    /// `=`
    EqualTo,
    /// `!=`
    NotEqualTo,
}

impl Operator {
    /// The operator that a character stands for, if it stands for one.
    pub open spec fn of_char(c: char) -> Option<Operator> {
        if c == '+' {
            Some(Operator::Add)
        } else if c == '-' {
            Some(Operator::Sub)
        } else if c == '*' {
            Some(Operator::Mul)
        } else if c == '/' {
            Some(Operator::Div)
        } else if c == '^' {
            Some(Operator::Pow)
        } else {
            None
        }
    }

    /// The character that stands for the operator.
    pub open spec fn symbol(self) -> char {
        match self {
            Operator::Add => '+',
            Operator::Sub => '-',
            Operator::Mul => '*',
            Operator::Div => '/',
            Operator::Pow => '^',
        }
    }

    /// How tightly the operator binds; a higher number binds tighter.
    pub open spec fn precedence(self) -> nat {
        match self {
            Operator::Add | Operator::Sub => 1,
            Operator::Mul | Operator::Div => 3,
            Operator::Pow => 4,
        }
    }

    /// Whether a chain of the operator groups from the right.
    pub open spec fn right_associative(self) -> bool {
        self == Operator::Pow
    }

    pub fn from_char(char: char) -> (op: Option<Self>)
        ensures
            op == Self::of_char(char),
    {
        match char {
            '+' => Some(Self::Add),
            '-' => Some(Self::Sub),
            '*' => Some(Self::Mul),
            '/' => Some(Self::Div),
            '^' => Some(Self::Pow),
            _ => None,
        }
    }

    pub fn binds(self) -> (p: u8)
        ensures
            p == self.precedence(),
    {
        match self {
            Operator::Add | Operator::Sub => 1,
            Operator::Mul | Operator::Div => 3,
            Operator::Pow => 4,
        }
    }

    pub fn groups_right(self) -> (b: bool)
        ensures
            b == self.right_associative(),
    {
        match self {
            Operator::Pow => true,
            _ => false,
        }
    }

    pub fn to_char(self) -> (c: char)
        ensures
            c == self.symbol(),
    {
        match self {
            Operator::Add => '+',
            Operator::Sub => '-',
            Operator::Mul => '*',
            Operator::Div => '/',
            Operator::Pow => '^',
        }
    }
}

impl ComparisonOp {
    /// The comparison that a character stands for, alone or with a `=` behind it.
    pub open spec fn of_char(c: char, is_equal: bool) -> Option<ComparisonOp> {
        if c == '<' {
            Some(
                if is_equal {
                    ComparisonOp::LessThanOrEqualTo
                } else {
                    ComparisonOp::LessThan
                },
            )
        } else if c == '>' {
            Some(
                if is_equal {
                    ComparisonOp::GreaterThanOrEqualTo
                } else {
                    ComparisonOp::GreaterThan
                },
            )
        } else if c == '!' && is_equal {
            Some(ComparisonOp::NotEqualTo)
        } else if c == '=' && !is_equal {
            Some(ComparisonOp::EqualTo)
        } else {
            None
        }
    }

    /// The characters that stand for the comparison.
    pub open spec fn symbol(self) -> Seq<char> {
        match self {
            ComparisonOp::LessThan => seq!['<'],
            ComparisonOp::GreaterThan => seq!['>'],
            ComparisonOp::LessThanOrEqualTo => seq!['<', '='],
            ComparisonOp::GreaterThanOrEqualTo => seq!['>', '='],
            ComparisonOp::EqualTo => seq!['='],
            ComparisonOp::NotEqualTo => seq!['!', '='],
        }
    }

    pub fn from_char(char: char, is_equal: bool) -> (op: Option<Self>)
        ensures
            op == Self::of_char(char, is_equal),
    {
        match (char, is_equal) {
            ('<', true) => Some(Self::LessThanOrEqualTo),
            ('>', true) => Some(Self::GreaterThanOrEqualTo),
            ('!', true) => Some(Self::NotEqualTo),
            ('<', false) => Some(Self::LessThan),
            ('>', false) => Some(Self::GreaterThan),
            ('=', false) => Some(Self::EqualTo),
            _ => None,
        }
    }
}

} // verus!
