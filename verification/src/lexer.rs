//! The lexer: from a line of text to its tokens.

use crate::lexical::{law_tokens_lexical, lexical, saturated};
use crate::numeral::{is_numeral, Numeral};
use crate::operator::{ComparisonOp, Operator};
use crate::text::{
    chars_of, is_letter, is_numeral_char, is_reserved, is_space, letter, numeral_char, reserved,
    space, string_of,
};
use crate::token::{lemma_push_model, ComplexToken, TokenModel};
use vstd::prelude::*;

verus! {

/// The length of the run of digits and decimal points that a text begins with.
pub open spec fn numeral_run(s: Seq<char>) -> nat
    decreases s.len(),
{
    if s.len() > 0 && is_numeral_char(s[0]) {
        1 + numeral_run(s.drop_first())
    } else {
        0
    }
}

/// The length of the run of letters that a text begins with.
pub open spec fn letter_run(s: Seq<char>) -> nat
    decreases s.len(),
{
    if s.len() > 0 && is_letter(s[0]) {
        1 + letter_run(s.drop_first())
    } else {
        0
    }
}

/// The token that a run of digits and decimal points makes: the number it
/// writes, or the decimal point as a character that means nothing where the
/// run writes no number.
pub open spec fn number_token(run: Seq<char>) -> TokenModel {
    if is_numeral(run) {
        TokenModel::Number(run)
    } else {
        TokenModel::Unknown('.')
    }
}

/// The token that a single letter makes.
pub open spec fn letter_token(c: char) -> TokenModel {
    if is_reserved(c) {
        TokenModel::Constant(c)
    } else {
        TokenModel::Variable(c)
    }
}

/// Whether the run of letters at the head of a text names a function: it does
/// where an opening parenthesis follows it directly.
pub open spec fn names_function(s: Seq<char>) -> bool {
    letter_run(s) < s.len() && s[letter_run(s) as int] == '('
}

/// Whether a comparison character at the head of a text has `=` behind it.
pub open spec fn equals_follows(s: Seq<char>) -> bool {
    s.len() > 1 && s[1] == '='
}

/// The token at the head of a text that begins with no blank.
pub open spec fn head_token(s: Seq<char>) -> TokenModel
    recommends
        s.len() > 0,
{
    let c = s[0];
    if is_numeral_char(c) {
        number_token(s.take(numeral_run(s) as int))
    } else if c == '<' || c == '>' || c == '!' {
        match ComparisonOp::of_char(c, equals_follows(s)) {
            Some(op) => TokenModel::ComparisonOp(op),
            None => TokenModel::Unknown(c),
        }
    } else if c == '=' {
        TokenModel::ComparisonOp(ComparisonOp::EqualTo)
    } else if Operator::of_char(c) is Some {
        TokenModel::Operator(Operator::of_char(c)->Some_0)
    } else if c == '(' {
        TokenModel::LeftParenthesis
    } else if c == ')' {
        TokenModel::RightParenthesis
    } else if c == ',' {
        TokenModel::Comma
    } else if is_letter(c) {
        if names_function(s) {
            TokenModel::Function(s.take(letter_run(s) as int))
        } else {
            letter_token(c)
        }
    } else if is_reserved(c) {
        TokenModel::Constant(c)
    } else {
        TokenModel::Unknown(c)
    }
}

/// How many characters the token at the head of a text takes.
pub open spec fn head_len(s: Seq<char>) -> nat
    recommends
        s.len() > 0,
{
    let c = s[0];
    if is_numeral_char(c) {
        numeral_run(s)
    } else if c == '<' || c == '>' || c == '!' {
        if equals_follows(s) {
            2
        } else {
            1
        }
    } else if is_letter(c) && names_function(s) {
        letter_run(s)
    } else {
        1
    }
}

/// The tokens that a text spells, one after the other, blanks left out.
pub open spec fn scan(s: Seq<char>) -> Seq<TokenModel>
    decreases s.len(),
    via scan_decreases
{
    if s.len() == 0 {
        Seq::empty()
    } else if is_space(s[0]) {
        scan(s.drop_first())
    } else {
        seq![head_token(s)] + scan(s.skip(head_len(s) as int))
    }
}

#[via_fn]
proof fn scan_decreases(s: Seq<char>) {
    if s.len() > 0 && !is_space(s[0]) {
        lemma_head_len_bounds(s);
    }
}

/// The tokens with a multiplication put in wherever an operand ends and the
/// next begins with nothing between them.
pub open spec fn with_implicit(after_operand: bool, tokens: Seq<TokenModel>) -> Seq<TokenModel>
    decreases tokens.len(),
{
    if tokens.len() == 0 {
        Seq::empty()
    } else {
        let t = tokens[0];
        let rest = with_implicit(t.closes_operand(), tokens.drop_first());
        if after_operand && t.opens_operand() {
            seq![TokenModel::Operator(Operator::Mul), t] + rest
        } else {
            seq![t] + rest
        }
    }
}

/// The tokens of a text.
pub open spec fn tokenize(s: Seq<char>) -> Seq<TokenModel> {
    with_implicit(false, scan(s))
}

pub proof fn lemma_numeral_run_bound(s: Seq<char>)
    ensures
        numeral_run(s) <= s.len(),
    decreases s.len(),
{
    if s.len() > 0 && is_numeral_char(s[0]) {
        lemma_numeral_run_bound(s.drop_first());
    }
}

pub proof fn lemma_letter_run_bound(s: Seq<char>)
    ensures
        letter_run(s) <= s.len(),
    decreases s.len(),
{
    if s.len() > 0 && is_letter(s[0]) {
        lemma_letter_run_bound(s.drop_first());
    }
}

/// A token takes at least one character and no more than the text has.
pub proof fn lemma_head_len_bounds(s: Seq<char>)
    requires
        s.len() > 0,
    ensures
        1 <= head_len(s) <= s.len(),
{
    lemma_numeral_run_bound(s);
    lemma_letter_run_bound(s);
}

/// A stretch of digits and decimal points adds its length to the run that
/// begins behind it.
pub proof fn lemma_numeral_run_split(s: Seq<char>, i: int, j: int)
    requires
        0 <= i <= j <= s.len(),
        forall|k: int| i <= k < j ==> is_numeral_char(#[trigger] s[k]),
    ensures
        numeral_run(s.skip(i)) == (j - i) + numeral_run(s.skip(j)),
    decreases j - i,
{
    if i < j {
        assert(s.skip(i)[0] == s[i]);
        assert(s.skip(i).drop_first() == s.skip(i + 1));
        lemma_numeral_run_split(s, i + 1, j);
    }
}

/// A stretch of letters adds its length to the run that begins behind it.
pub proof fn lemma_letter_run_split(s: Seq<char>, i: int, j: int)
    requires
        0 <= i <= j <= s.len(),
        forall|k: int| i <= k < j ==> is_letter(#[trigger] s[k]),
    ensures
        letter_run(s.skip(i)) == (j - i) + letter_run(s.skip(j)),
    decreases j - i,
{
    if i < j {
        assert(s.skip(i)[0] == s[i]);
        assert(s.skip(i).drop_first() == s.skip(i + 1));
        lemma_letter_run_split(s, i + 1, j);
    }
}

/// What is wrong with a text at the first place where the lexer reads a
/// character that means nothing.
#[derive(Clone, Copy, Debug, PartialEq, Eq, Structural)]
pub enum LexError {
    /// A character that no token is written with, and its place.
    InvalidCharacter { position: usize, character: char },
    /// A run of digits and decimal points that writes no number, and the
    /// place where it begins.
    MalformedNumber { position: usize },
}

/// The mathematical model of a fault: its place is a natural number.
pub enum FaultModel {
    InvalidCharacter { position: nat, character: char },
    MalformedNumber { position: nat },
}

impl View for LexError {
    type V = FaultModel;

    open spec fn view(&self) -> FaultModel {
        match self {
            LexError::InvalidCharacter { position, character } => FaultModel::InvalidCharacter {
                position: *position as nat,
                character: *character,
            },
            LexError::MalformedNumber { position } => FaultModel::MalformedNumber {
                position: *position as nat,
            },
        }
    }
}

/// The fault of the token at the head of a text that stands at `position`,
/// if that token is a character that means nothing.
pub open spec fn head_fault(s: Seq<char>, position: nat) -> Option<FaultModel>
    recommends
        s.len() > 0,
{
    if !(head_token(s) is Unknown) {
        None
    } else if is_numeral_char(s[0]) {
        Some(FaultModel::MalformedNumber { position })
    } else {
        Some(FaultModel::InvalidCharacter { position, character: s[0] })
    }
}

/// The first fault in what is left of a text from place `from` on.
pub open spec fn first_fault(s: Seq<char>, from: nat) -> Option<FaultModel>
    decreases s.len() - from,
    via first_fault_decreases
{
    if from >= s.len() {
        None
    } else if is_space(s[from as int]) {
        first_fault(s, from + 1)
    } else if head_fault(s.skip(from as int), from) is Some {
        head_fault(s.skip(from as int), from)
    } else {
        first_fault(s, from + head_len(s.skip(from as int)))
    }
}

#[via_fn]
proof fn first_fault_decreases(s: Seq<char>, from: nat) {
    if from < s.len() && !is_space(s[from as int]) {
        lemma_head_len_bounds(s.skip(from as int));
    }
}

/// A text has no fault exactly where none of the tokens read from it is a
/// character that means nothing.
pub proof fn law_fault_is_unknown(s: Seq<char>, from: nat)
    requires
        from <= s.len(),
    ensures
        first_fault(s, from) is None <==> forall|i: int|
            0 <= i < scan(s.skip(from as int)).len() ==> !((#[trigger] scan(
                s.skip(from as int),
            )[i]) is Unknown),
    decreases s.len() - from,
{
    let rest = s.skip(from as int);
    if from >= s.len() {
    } else if is_space(s[from as int]) {
        assert(rest.drop_first() == s.skip(from as int + 1));
        law_fault_is_unknown(s, from + 1);
    } else {
        lemma_head_len_bounds(rest);
        let n = head_len(rest);
        assert(rest.skip(n as int) == s.skip((from + n) as int));
        let behind = scan(s.skip((from + n) as int));
        let all = scan(rest);
        assert(all == seq![head_token(rest)] + behind);
        law_fault_is_unknown(s, from + n);
        if head_fault(rest, from) is Some {
            assert(all[0] is Unknown);
        } else if first_fault(s, from) is None {
            assert forall|i: int| 0 <= i < all.len() implies !((#[trigger] all[i]) is Unknown) by {
                if i > 0 {
                    assert(all[i] == behind[i - 1]);
                }
            }
        } else {
            let i = choose|i: int| 0 <= i < behind.len() && (#[trigger] behind[i]) is Unknown;
            assert(all[i + 1] == behind[i]);
        }
    }
}

/// The lexer.
pub struct MathParser {}

impl MathParser {
    /// Cuts a line of text into its tokens. Never fails: a character that
    /// means nothing becomes a token of its own. Every token is one that is
    /// written as it should be, its parenthesis follows the name of every
    /// function, and a multiplication stands wherever an operand ends and the
    /// next begins.
    pub fn parse(input_str: &str) -> (expr: Vec<ComplexToken>)
        ensures
            expr.deep_view() == tokenize(input_str@),
            lexical(expr.deep_view()),
            saturated(expr.deep_view()),
    {
        proof {
            law_tokens_lexical(input_str@);
        }
        let chars = chars_of(input_str);
        let n = chars.len();
        let mut expr: Vec<ComplexToken> = Vec::new();
        let mut after_operand = false;
        let mut i: usize = 0;
        assert(chars@.skip(0) == chars@);
        assert(expr.deep_view() + tokenize(chars@) == tokenize(chars@));
        while i < n
            invariant
                i <= n == chars.len(),
                chars@ == input_str@,
                tokenize(chars@) == expr.deep_view() + with_implicit(
                    after_operand,
                    scan(chars@.skip(i as int)),
                ),
            decreases n - i,
        {
            let ghost rest = chars@.skip(i as int);
            assert(rest.len() > 0 && rest[0] == chars@[i as int]);
            if space(chars[i]) {
                assert(rest.drop_first() == chars@.skip(i + 1));
                i += 1;
            } else {
                let (token, len) = Self::head(&chars, i);
                let ghost tail = scan(chars@.skip(i + len));
                assert(rest.skip(len as int) == chars@.skip(i + len));
                assert(scan(rest) == seq![token@] + tail);
                assert(scan(rest).drop_first() == tail);
                if after_operand && Self::opens_operand(&token) {
                    let ghost before = expr;
                    expr.push(ComplexToken::Operator(Operator::Mul));
                    proof {
                        lemma_push_model(before, expr, ComplexToken::Operator(Operator::Mul));
                    }
                }
                after_operand = Self::closes_operand(&token);
                let ghost before = expr;
                expr.push(token);
                proof {
                    lemma_push_model(before, expr, token);
                    assert(tokenize(chars@) == expr.deep_view() + with_implicit(
                        after_operand,
                        tail,
                    ));
                }
                i += len;
            }
        }
        assert(chars@.skip(n as int) == Seq::<char>::empty());
        assert(expr.deep_view() + Seq::<TokenModel>::empty() == expr.deep_view());
        expr
    }

    /// Looks for the first place in a line of text where the lexer reads a
    /// character that means nothing, and says what is wrong there.
    pub fn first_error(input_str: &str) -> (fault: Option<LexError>)
        ensures
            fault is Some <==> first_fault(input_str@, 0) is Some,
            fault is Some ==> fault->Some_0@ == first_fault(input_str@, 0)->Some_0,
    {
        let chars = chars_of(input_str);
        let n = chars.len();
        let mut i: usize = 0;
        while i < n
            invariant
                i <= n == chars.len(),
                chars@ == input_str@,
                first_fault(chars@, i as nat) == first_fault(chars@, 0),
            decreases n - i,
        {
            if space(chars[i]) {
                i += 1;
            } else {
                let (token, len) = Self::head(&chars, i);
                assert(chars@.skip(i as int)[0] == chars@[i as int]);
                match token {
                    ComplexToken::Unknown(_) => {
                        if numeral_char(chars[i]) {
                            return Some(LexError::MalformedNumber { position: i });
                        } else {
                            return Some(
                                LexError::InvalidCharacter { position: i, character: chars[i] },
                            );
                        }
                    },
                    _ => {},
                }
                i += len;
            }
        }
        None
    }

    fn opens_operand(token: &ComplexToken) -> (b: bool)
        ensures
            b == token@.opens_operand(),
    {
        match token {
            ComplexToken::Variable(_) => true,
            ComplexToken::Constant(_) => true,
            ComplexToken::LeftParenthesis => true,
            ComplexToken::Function(_) => true,
            _ => false,
        }
    }

    fn closes_operand(token: &ComplexToken) -> (b: bool)
        ensures
            b == token@.closes_operand(),
    {
        match token {
            ComplexToken::Number(_) => true,
            ComplexToken::RightParenthesis => true,
            _ => false,
        }
    }

    /// Where the run of digits and decimal points that begins at `from` ends.
    fn numeral_run_end(chars: &Vec<char>, from: usize) -> (to: usize)
        requires
            from <= chars.len(),
        ensures
            from <= to <= chars.len(),
            to - from == numeral_run(chars@.skip(from as int)),
    {
        let mut to: usize = from;
        while to < chars.len() && numeral_char(chars[to])
            invariant
                from <= to <= chars.len(),
                forall|k: int| from <= k < to ==> is_numeral_char(#[trigger] chars@[k]),
            decreases chars.len() - to,
        {
            to += 1;
        }
        proof {
            lemma_numeral_run_split(chars@, from as int, to as int);
            if to < chars.len() {
                assert(chars@.skip(to as int)[0] == chars@[to as int]);
            }
        }
        to
    }

    /// Where the run of letters that begins at `from` ends.
    fn letter_run_end(chars: &Vec<char>, from: usize) -> (to: usize)
        requires
            from <= chars.len(),
        ensures
            from <= to <= chars.len(),
            to - from == letter_run(chars@.skip(from as int)),
    {
        let mut to: usize = from;
        while to < chars.len() && letter(chars[to])
            invariant
                from <= to <= chars.len(),
                forall|k: int| from <= k < to ==> is_letter(#[trigger] chars@[k]),
            decreases chars.len() - to,
        {
            to += 1;
        }
        proof {
            lemma_letter_run_split(chars@, from as int, to as int);
            if to < chars.len() {
                assert(chars@.skip(to as int)[0] == chars@[to as int]);
            }
        }
        to
    }

    /// The token that begins at `at`, and the number of characters it takes.
    fn head(chars: &Vec<char>, at: usize) -> (r: (ComplexToken, usize))
        requires
            at < chars.len(),
            !is_space(chars@[at as int]),
        ensures
            r.0@ == head_token(chars@.skip(at as int)),
            r.1 == head_len(chars@.skip(at as int)),
            1 <= r.1,
            at + r.1 <= chars.len(),
    {
        let ghost s = chars@.skip(at as int);
        let c = chars[at];
        assert(s[0] == c);
        proof {
            lemma_head_len_bounds(s);
        }
        if numeral_char(c) {
            let to = Self::numeral_run_end(chars, at);
            assert(s.take(to - at) == chars@.subrange(at as int, to as int));
            match Numeral::from_chars(chars, at, to) {
                Some(n) => (ComplexToken::Number(n), to - at),
                None => (ComplexToken::Unknown('.'), to - at),
            }
        } else if c == '<' || c == '>' || c == '!' {
            let is_equal = at + 1 < chars.len() && chars[at + 1] == '=';
            assert(is_equal == equals_follows(s)) by {
                if at + 1 < chars.len() {
                    assert(s[1] == chars@[at + 1]);
                }
            }
            match ComparisonOp::from_char(c, is_equal) {
                Some(op) => (
                    ComplexToken::ComparisonOp(op),
                    if is_equal {
                        2
                    } else {
                        1
                    },
                ),
                None => (ComplexToken::Unknown(c), 1),
            }
        } else if c == '=' {
            (ComplexToken::ComparisonOp(ComparisonOp::EqualTo), 1)
        } else if let Some(op) = Operator::from_char(c) {
            (ComplexToken::Operator(op), 1)
        } else if c == '(' {
            (ComplexToken::LeftParenthesis, 1)
        } else if c == ')' {
            (ComplexToken::RightParenthesis, 1)
        } else if c == ',' {
            (ComplexToken::Comma, 1)
        } else if letter(c) {
            let to = Self::letter_run_end(chars, at);
            if to < chars.len() && chars[to] == '(' {
                assert(s[to - at] == chars@[to as int]);
                assert(s.take(to - at) == chars@.subrange(at as int, to as int));
                (ComplexToken::Function(string_of(chars, at, to)), to - at)
            } else {
                if to < chars.len() {
                    assert(s[to - at] == chars@[to as int]);
                }
                if reserved(c) {
                    (ComplexToken::Constant(c), 1)
                } else {
                    (ComplexToken::Variable(c), 1)
                }
            }
        } else if reserved(c) {
            (ComplexToken::Constant(c), 1)
        } else {
            (ComplexToken::Unknown(c), 1)
        }
    }
}

} // verus!
