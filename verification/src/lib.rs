//! A textual math-expression engine.
//!
//! A line of text is cut into tokens ([`MathParser::parse`]), the tokens are
//! classified as one kind of statement ([`classify`]), an expression is
//! brought into postfix order ([`to_postfix`]), and a postfix sequence is
//! evaluated ([`evaluate`]) or simplified ([`simplify`]). Every stage is a
//! function with a contract over a mathematical model of its data.
//!
//! Numbers are single-precision values. The library itself holds such a value
//! by its bit pattern and decides on it by integer tests only. The arithmetic
//! is done by a unit that the caller hands in: the evaluator and the
//! simplifier put one question at a time to it, and their contracts say what
//! they make of every answer.
//!
//! Besides the contracts the library states laws, each a proof function:
//! reading a statement that was written out gives the statement
//! (`round_trip`), simplifying twice is simplifying once (`idempotence`), the
//! postfix order of an expression is that of its tree and its value that of
//! the tree (`precedence`, `meaning`), and an expression has a postfix order
//! exactly where its parentheses and commas are in order (`balance`).

pub mod balance;
pub mod bindings;
pub mod evaluator;
pub mod grammar;
pub mod idempotence;
pub mod lexer;
pub mod lexical;
pub mod meaning;
pub mod numeral;
pub mod operator;
pub mod postfix;
pub mod precedence;
pub mod render;
pub mod round_trip;
pub mod scalar;
pub mod simplifier;
pub mod statement;
pub mod text;
pub mod token;
pub mod unit;

pub use bindings::Bindings;
pub use evaluator::{evaluate, EvalError, Evaluator, Progress};
pub use lexer::{LexError, MathParser};
pub use numeral::Numeral;
pub use operator::{ComparisonOp, Operator};
pub use postfix::{to_postfix, ConvertError, PostfixToken, ShuntingYardOperator};
pub use render::render;
pub use simplifier::{simplify, Piece, Simplifier};
pub use statement::{classify, CalculatableExpr, ExprType};
pub use token::{ComplexToken, SimpleToken};
pub use unit::{Builtin, Request};
