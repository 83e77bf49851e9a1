//! What holds of every run of tokens that the lexer gives.

use crate::lexer::{
    first_fault, head_len, law_fault_is_unknown, head_token, lemma_head_len_bounds, letter_run, names_function, scan,
    tokenize, with_implicit,
};
use crate::numeral::is_numeral;
use crate::operator::Operator;
use crate::text::{is_letter, is_reserved, is_space};
use crate::token::TokenModel;
use vstd::prelude::*;

verus! {

/// Whether a text is made of letters only.
pub open spec fn all_letters(s: Seq<char>) -> bool {
    forall|i: int| 0 <= i < s.len() ==> is_letter(#[trigger] s[i])
}

/// Whether a token is one that the lexer can give: a number that is written
/// as one, a variable that is a letter and no constant, a constant that is
/// kept for one, a function with a name of letters.
pub open spec fn lexical_token(t: TokenModel) -> bool {
    match t {
        TokenModel::Number(n) => is_numeral(n),
        TokenModel::Variable(c) => is_letter(c) && !is_reserved(c),
        TokenModel::Constant(c) => is_reserved(c),
        TokenModel::Function(name) => name.len() > 0 && all_letters(name),
        _ => true,
    }
}

/// Whether a run of tokens is one that the lexer can give: each token is,
/// and behind the name of a function stands its parenthesis.
pub open spec fn lexical(tokens: Seq<TokenModel>) -> bool {
    forall|i: int|
        0 <= i < tokens.len() ==> lexical_token(#[trigger] tokens[i]) && (tokens[i] is Function
            ==> i + 1 < tokens.len() && tokens[i + 1] is LeftParenthesis)
}

/// Whether no token is a character that means nothing.
pub open spec fn no_unknown(tokens: Seq<TokenModel>) -> bool {
    forall|i: int| 0 <= i < tokens.len() ==> !((#[trigger] tokens[i]) is Unknown)
}

/// Whether a multiplication stands wherever an operand ends and the next
/// begins.
pub open spec fn saturated(tokens: Seq<TokenModel>) -> bool {
    forall|i: int|
        0 <= i < tokens.len() - 1 ==> !((#[trigger] tokens[i]).closes_operand() && tokens[i
            + 1].opens_operand())
}

/// Every character of the run of letters at the head of a text is a letter.
proof fn lemma_letter_run_letters(s: Seq<char>)
    ensures
        letter_run(s) <= s.len(),
        all_letters(s.take(letter_run(s) as int)),
    decreases s.len(),
{
    if s.len() > 0 && is_letter(s[0]) {
        lemma_letter_run_letters(s.drop_first());
        let n = letter_run(s) as int;
        assert forall|i: int| 0 <= i < n implies is_letter(#[trigger] s.take(n)[i]) by {
            if i > 0 {
                assert(s.take(n)[i] == s.drop_first().take(n - 1)[i - 1]);
            }
        }
    }
}

/// The token at the head of a text is one that the lexer can give.
proof fn lemma_head_lexical(s: Seq<char>)
    requires
        s.len() > 0,
        !is_space(s[0]),
    ensures
        lexical_token(head_token(s)),
        head_token(s) is Function ==> head_len(s) < s.len() && s[head_len(s) as int] == '(',
{
    lemma_letter_run_letters(s);
    if is_letter(s[0]) && names_function(s) {
        assert(letter_run(s) >= 1);
    }
}

/// What the lexer reads from a text is a run of tokens that it can give.
pub proof fn lemma_scan_lexical(s: Seq<char>)
    ensures
        lexical(scan(s)),
    decreases s.len(),
{
    if s.len() == 0 {
    } else if is_space(s[0]) {
        lemma_scan_lexical(s.drop_first());
    } else {
        lemma_head_len_bounds(s);
        lemma_head_lexical(s);
        let n = head_len(s) as int;
        let rest = scan(s.skip(n));
        let all = scan(s);
        lemma_scan_lexical(s.skip(n));
        assert(all == seq![head_token(s)] + rest);
        if head_token(s) is Function {
            let behind = s.skip(n);
            assert(behind[0] == '(');
            assert(head_token(behind) is LeftParenthesis);
            assert(rest[0] is LeftParenthesis);
        }
        assert forall|i: int| 0 <= i < all.len() implies lexical_token(#[trigger] all[i]) && (
        all[i] is Function ==> i + 1 < all.len() && all[i + 1] is LeftParenthesis) by {
            if i > 0 {
                assert(all[i] == rest[i - 1]);
                assert(lexical_token(rest[i - 1]));
                if i + 1 < all.len() {
                    assert(all[i + 1] == rest[i]);
                }
            } else {
                if 1 < all.len() {
                    assert(all[1] == rest[0]);
                }
            }
        }
    }
}

/// The first token behind the multiplications that are put in is the
/// multiplication that is put in before the first token, or the first token.
proof fn lemma_implicit_first(after_operand: bool, tokens: Seq<TokenModel>)
    requires
        tokens.len() > 0,
    ensures
        with_implicit(after_operand, tokens).len() > 0,
        with_implicit(after_operand, tokens)[0] == if after_operand && tokens[0].opens_operand() {
            TokenModel::Operator(Operator::Mul)
        } else {
            tokens[0]
        },
{
}

/// Putting multiplications in leaves a run of tokens that the lexer can
/// give one that it can give.
pub proof fn lemma_implicit_lexical(after_operand: bool, tokens: Seq<TokenModel>)
    requires
        lexical(tokens),
    ensures
        lexical(with_implicit(after_operand, tokens)),
    decreases tokens.len(),
{
    if tokens.len() > 0 {
        let t = tokens[0];
        let rest = tokens.drop_first();
        assert forall|i: int| 0 <= i < rest.len() implies lexical_token(#[trigger] rest[i]) && (
        rest[i] is Function ==> i + 1 < rest.len() && rest[i + 1] is LeftParenthesis) by {
            assert(rest[i] == tokens[i + 1]);
            if i + 1 < rest.len() {
                assert(rest[i + 1] == tokens[i + 2]);
            }
        }
        lemma_implicit_lexical(t.closes_operand(), rest);
        let behind = with_implicit(t.closes_operand(), rest);
        let all = with_implicit(after_operand, tokens);
        let shift: int = if after_operand && t.opens_operand() {
            2
        } else {
            1
        };
        assert(lexical_token(t));
        if t is Function {
            assert(rest[0] == tokens[1]);
            lemma_implicit_first(false, rest);
        }
        assert forall|i: int| 0 <= i < all.len() implies lexical_token(#[trigger] all[i]) && (
        all[i] is Function ==> i + 1 < all.len() && all[i + 1] is LeftParenthesis) by {
            if i >= shift {
                assert(all[i] == behind[i - shift]);
                assert(lexical_token(behind[i - shift]));
                if i + 1 < all.len() {
                    assert(all[i + 1] == behind[i + 1 - shift]);
                }
            } else if i == shift - 1 {
                assert(all[i] == t);
                if i + 1 < all.len() {
                    assert(all[i + 1] == behind[0]);
                }
            }
        }
    }
}

/// Behind the multiplications that are put in, one stands wherever an
/// operand ends and the next begins.
pub proof fn lemma_implicit_saturated(after_operand: bool, tokens: Seq<TokenModel>)
    ensures
        saturated(with_implicit(after_operand, tokens)),
    decreases tokens.len(),
{
    if tokens.len() > 0 {
        let t = tokens[0];
        let rest = tokens.drop_first();
        lemma_implicit_saturated(t.closes_operand(), rest);
        let behind = with_implicit(t.closes_operand(), rest);
        let all = with_implicit(after_operand, tokens);
        let shift: int = if after_operand && t.opens_operand() {
            2
        } else {
            1
        };
        if rest.len() > 0 {
            lemma_implicit_first(t.closes_operand(), rest);
        }
        assert forall|i: int| 0 <= i < all.len() - 1 implies !((#[trigger] all[i]).closes_operand()
            && all[i + 1].opens_operand()) by {
            if i >= shift {
                assert(all[i] == behind[i - shift]);
                assert(all[i + 1] == behind[i + 1 - shift]);
            } else if i == shift - 1 {
                assert(all[i] == t);
                assert(all[i + 1] == behind[0]);
            } else {
                assert(all[i] == TokenModel::Operator(Operator::Mul));
            }
        }
    }
}

/// Where a multiplication stands wherever an operand ends and the next
/// begins, none is put in.
pub proof fn lemma_saturated_fixed(after_operand: bool, tokens: Seq<TokenModel>)
    requires
        saturated(tokens),
        tokens.len() > 0 ==> !(after_operand && tokens[0].opens_operand()),
    ensures
        with_implicit(after_operand, tokens) == tokens,
    decreases tokens.len(),
{
    if tokens.len() > 0 {
        let t = tokens[0];
        let rest = tokens.drop_first();
        assert forall|i: int| 0 <= i < rest.len() - 1 implies !((#[trigger] rest[i]).closes_operand()
            && rest[i + 1].opens_operand()) by {
            assert(rest[i] == tokens[i + 1]);
            assert(rest[i + 1] == tokens[i + 2]);
        }
        if rest.len() > 0 {
            assert(rest[0] == tokens[1]);
        }
        lemma_saturated_fixed(t.closes_operand(), rest);
        assert(seq![t] + rest == tokens);
    }
}

/// The multiplications that are put in bring no character that means
/// nothing, and take none away.
pub proof fn lemma_implicit_unknown(after_operand: bool, tokens: Seq<TokenModel>)
    ensures
        no_unknown(with_implicit(after_operand, tokens)) <==> no_unknown(tokens),
    decreases tokens.len(),
{
    if tokens.len() > 0 {
        let t = tokens[0];
        let rest = tokens.drop_first();
        lemma_implicit_unknown(t.closes_operand(), rest);
        let behind = with_implicit(t.closes_operand(), rest);
        let all = with_implicit(after_operand, tokens);
        let shift: int = if after_operand && t.opens_operand() {
            2
        } else {
            1
        };
        assert(all[shift - 1] == t);
        if no_unknown(tokens) {
            assert forall|i: int| 0 <= i < rest.len() implies !((#[trigger] rest[i]) is Unknown) by {
                assert(rest[i] == tokens[i + 1]);
            }
            assert forall|i: int| 0 <= i < all.len() implies !((#[trigger] all[i]) is Unknown) by {
                if i >= shift {
                    assert(all[i] == behind[i - shift]);
                } else if i == shift - 1 {
                    assert(all[i] == tokens[0]);
                }
            }
        }
        if no_unknown(all) {
            assert forall|i: int| 0 <= i < behind.len() implies !((#[trigger] behind[i]) is Unknown) by {
                assert(behind[i] == all[i + shift]);
            }
            assert forall|i: int| 0 <= i < tokens.len() implies !((#[trigger] tokens[i]) is Unknown) by {
                if i > 0 {
                    assert(tokens[i] == rest[i - 1]);
                } else {
                    assert(tokens[0] == all[shift - 1]);
                }
            }
        }
    }
}

/// The tokens of every text are a run that the lexer can give, with a
/// multiplication wherever an operand ends and the next begins.
pub proof fn law_tokens_lexical(text: Seq<char>)
    ensures
        lexical(tokenize(text)),
        saturated(tokenize(text)),
{
    lemma_scan_lexical(text);
    lemma_implicit_lexical(false, scan(text));
    lemma_implicit_saturated(false, scan(text));
}

/// A text has no fault exactly where none of its tokens is a character that
/// means nothing.
pub proof fn law_no_fault_no_unknown(text: Seq<char>)
    ensures
        first_fault(text, 0) is None <==> no_unknown(tokenize(text)),
{
    law_fault_is_unknown(text, 0);
    assert(text.skip(0) == text);
    lemma_implicit_unknown(false, scan(text));
}

} // verus!
