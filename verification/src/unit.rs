//! The questions that the library asks the arithmetic unit.
//!
//! The library decides what is to be computed and what follows from a result;
//! the computing itself, on single-precision numbers, is done by the program
//! around it. Each question names one operation and its operands, by their
//! bit patterns; the answer is the bit pattern of the result.

use crate::numeral::Numeral;
use crate::operator::Operator;
use crate::scalar::{is_zero, zero};
use vstd::prelude::*;

verus! {

/// A function that the arithmetic unit knows.
#[derive(Clone, Copy, Debug, PartialEq, Eq, Structural)]
pub enum Builtin {
    Sin,
    Cos,
    Tan,
    Sqrt,
    Abs,
    Ln,
    Exp,
    Min,
    Max,
}

impl Builtin {
    /// The function of a name, if the name is that of one.
    pub open spec fn named(name: Seq<char>) -> Option<Builtin> {
        if name == seq!['s', 'i', 'n'] {
            Some(Builtin::Sin)
        } else if name == seq!['c', 'o', 's'] {
            Some(Builtin::Cos)
        } else if name == seq!['t', 'a', 'n'] {
            Some(Builtin::Tan)
        } else if name == seq!['s', 'q', 'r', 't'] {
            Some(Builtin::Sqrt)
        } else if name == seq!['a', 'b', 's'] {
            Some(Builtin::Abs)
        } else if name == seq!['l', 'n'] {
            Some(Builtin::Ln)
        } else if name == seq!['e', 'x', 'p'] {
            Some(Builtin::Exp)
        } else if name == seq!['m', 'i', 'n'] {
            Some(Builtin::Min)
        } else if name == seq!['m', 'a', 'x'] {
            Some(Builtin::Max)
        } else {
            None
        }
    }

    /// How many arguments the function takes.
    pub open spec fn arity(self) -> nat {
        match self {
            Builtin::Min | Builtin::Max => 2,
            _ => 1,
        }
    }

    pub fn arguments(self) -> (n: usize)
        ensures
            n == self.arity(),
    {
        match self {
            Builtin::Min | Builtin::Max => 2,
            _ => 1,
        }
    }

    /// Looks a function up by its name.
    pub fn from_name(name: &str) -> (r: Option<Builtin>)
        ensures
            r == Self::named(name@),
    {
        let n = name.unicode_len();
        if n == 2 {
            if spells(name, 'l', 'n', 'n', 'n') {
                Some(Builtin::Ln)
            } else {
                None
            }
        } else if n == 3 {
            if spells(name, 's', 'i', 'n', 'n') {
                Some(Builtin::Sin)
            } else if spells(name, 'c', 'o', 's', 's') {
                Some(Builtin::Cos)
            } else if spells(name, 't', 'a', 'n', 'n') {
                Some(Builtin::Tan)
            } else if spells(name, 'a', 'b', 's', 's') {
                Some(Builtin::Abs)
            } else if spells(name, 'e', 'x', 'p', 'p') {
                Some(Builtin::Exp)
            } else if spells(name, 'm', 'i', 'n', 'n') {
                Some(Builtin::Min)
            } else if spells(name, 'm', 'a', 'x', 'x') {
                Some(Builtin::Max)
            } else {
                None
            }
        } else if n == 4 {
            if spells(name, 's', 'q', 'r', 't') {
                Some(Builtin::Sqrt)
            } else {
                None
            }
        } else {
            None
        }
    }
}

/// Whether a name of two, three or four characters is spelled with these;
/// of `c` and `d` a shorter name takes none.
fn spells(name: &str, a: char, b: char, c: char, d: char) -> (yes: bool)
    requires
        2 <= name@.len() <= 4,
    ensures
        name@.len() == 2 ==> yes == (name@ == seq![a, b]),
        name@.len() == 3 ==> yes == (name@ == seq![a, b, c]),
        name@.len() == 4 ==> yes == (name@ == seq![a, b, c, d]),
{
    let n = name.unicode_len();
    let yes = name.get_char(0) == a && name.get_char(1) == b && (n < 3 || name.get_char(2) == c)
        && (n < 4 || name.get_char(3) == d);
    proof {
        if n == 2 {
            assert(yes ==> name@ =~= seq![a, b]);
            assert(seq![a, b][0] == a && seq![a, b][1] == b);
        } else if n == 3 {
            assert(yes ==> name@ =~= seq![a, b, c]);
            assert(seq![a, b, c][0] == a && seq![a, b, c][1] == b && seq![a, b, c][2] == c);
        } else {
            assert(yes ==> name@ =~= seq![a, b, c, d]);
            assert(seq![a, b, c, d][0] == a && seq![a, b, c, d][1] == b && seq![a, b, c, d][2] == c
                && seq![a, b, c, d][3] == d);
        }
    }
    yes
}

/// The mathematical model of a question.
pub enum RequestModel {
    Convert(Seq<char>),
    Lookup(char),
    Operate { op: Operator, lhs: u32, rhs: u32 },
    Call1 { function: Builtin, argument: u32 },
    Call2 { function: Builtin, first: u32, second: u32 },
}

/// A question to the arithmetic unit. The answer to each is a bit pattern.
#[derive(Debug, PartialEq)]
pub enum Request {
    /// Which number is nearest to the decimal fraction that the numeral
    /// writes?
    Convert(Numeral),
    /// Which number does this letter stand for? The pattern of no number
    /// says that it stands for none.
    Lookup(char),
    /// What is `lhs op rhs`?
    Operate { op: Operator, lhs: u32, rhs: u32 },
    /// What is the function of this argument?
    Call1 { function: Builtin, argument: u32 },
    /// What is the function of these two arguments?
    Call2 { function: Builtin, first: u32, second: u32 },
}

impl View for Request {
    type V = RequestModel;

    open spec fn view(&self) -> RequestModel {
        match self {
            Request::Convert(n) => RequestModel::Convert(n@),
            Request::Lookup(c) => RequestModel::Lookup(*c),
            Request::Operate { op, lhs, rhs } => RequestModel::Operate {
                op: *op,
                lhs: *lhs,
                rhs: *rhs,
            },
            Request::Call1 { function, argument } => RequestModel::Call1 {
                function: *function,
                argument: *argument,
            },
            Request::Call2 { function, first, second } => RequestModel::Call2 {
                function: *function,
                first: *first,
                second: *second,
            },
        }
    }
}

/// Whether an arithmetic unit answers every question with the number that
/// `model` gives for it.
pub open spec fn computes<U: Fn(Request) -> u32>(
    unit: U,
    model: spec_fn(RequestModel) -> u32,
) -> bool {
    forall|q: Request, a: u32| #[trigger] call_ensures(unit, (q,), a) ==> a == model(q@)
}

/// What an operation on the stack is found to be before it is asked for.
pub enum Demand {
    /// It can be asked for.
    Ask(RequestModel),
    /// Operands are missing, or their number is not the function's.
    Malformed,
    /// The divisor is zero.
    ZeroDivisor,
    /// No function has the name.
    Unknown,
}

/// What the operator is found to be on the two numbers on top of a stack.
pub open spec fn operation(op: Operator, stack: Seq<u32>) -> Demand {
    if stack.len() < 2 {
        Demand::Malformed
    } else if op == Operator::Div && is_zero(stack.last()) {
        Demand::ZeroDivisor
    } else {
        Demand::Ask(
            RequestModel::Operate { op, lhs: stack[stack.len() - 2], rhs: stack.last() },
        )
    }
}

/// What the call of a name with `args` arguments is found to be on the
/// numbers on top of a stack.
pub open spec fn call(name: Seq<char>, args: nat, stack: Seq<u32>) -> Demand {
    match Builtin::named(name) {
        None => Demand::Unknown,
        Some(function) => if function.arity() != args || stack.len() < args {
            Demand::Malformed
        } else if args == 1 {
            Demand::Ask(RequestModel::Call1 { function, argument: stack.last() })
        } else {
            Demand::Ask(
                RequestModel::Call2 {
                    function,
                    first: stack[stack.len() - 2],
                    second: stack.last(),
                },
            )
        },
    }
}

/// What an operation is found to be, as the library holds it.
pub enum Finding {
    Ask(Request),
    Malformed,
    ZeroDivisor,
    Unknown,
}

impl View for Finding {
    type V = Demand;

    open spec fn view(&self) -> Demand {
        match self {
            Finding::Ask(q) => Demand::Ask(q@),
            Finding::Malformed => Demand::Malformed,
            Finding::ZeroDivisor => Demand::ZeroDivisor,
            Finding::Unknown => Demand::Unknown,
        }
    }
}

/// Finds what the operator is on the two numbers on top of a stack.
pub fn find_operation(op: Operator, stack: &Vec<u32>) -> (f: Finding)
    ensures
        f@ == operation(op, stack@),
{
    let n = stack.len();
    if n < 2 {
        return Finding::Malformed;
    }
    let divides = match op {
        Operator::Div => true,
        _ => false,
    };
    if divides && zero(stack[n - 1]) {
        Finding::ZeroDivisor
    } else {
        Finding::Ask(Request::Operate { op, lhs: stack[n - 2], rhs: stack[n - 1] })
    }
}

/// Finds what the call of a name with `args` arguments is on the numbers on
/// top of a stack.
pub fn find_call(name: &str, args: usize, stack: &Vec<u32>) -> (f: Finding)
    ensures
        f@ == call(name@, args as nat, stack@),
{
    let n = stack.len();
    match Builtin::from_name(name) {
        None => Finding::Unknown,
        Some(function) => {
            if function.arguments() != args || n < args {
                Finding::Malformed
            } else if args == 1 {
                Finding::Ask(Request::Call1 { function, argument: stack[n - 1] })
            } else {
                Finding::Ask(
                    Request::Call2 { function, first: stack[n - 2], second: stack[n - 1] },
                )
            }
        },
    }
}

} // verus!
