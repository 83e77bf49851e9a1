//! A statement that is written out and read again is the same statement.

use crate::lexer::{
    head_len, head_token, lemma_letter_run_split, lemma_numeral_run_split, letter_run,
    names_function, numeral_run, scan, tokenize, with_implicit,
};
use crate::lexical::{
    all_letters, law_tokens_lexical, lemma_saturated_fixed, lexical, lexical_token, no_unknown,
    saturated,
};
use crate::numeral::all_numeral_chars;
use crate::render::{render_model, spell, tokens_of, word};
use crate::statement::{
    all_simple, classify_model, first_top_level, is_assignment, is_calculable, is_definition,
    is_equation, lemma_first_top_level, top_level_comparisons,
};
use crate::text::{is_letter, is_numeral_char, is_space};
use crate::token::TokenModel;
use vstd::prelude::*;

verus! {

/// A blank at the head of a text stands for nothing.
proof fn lemma_scan_blank(tail: Seq<char>)
    ensures
        scan(seq![' '] + tail) == scan(tail),
{
    let text = seq![' '] + tail;
    assert(text[0] == ' ');
    assert(text.drop_first() == tail);
}

/// A text that begins with a token which takes `n` characters spells that
/// token and then what the rest spells.
proof fn lemma_scan_head(text: Seq<char>, n: int, tail: Seq<char>)
    requires
        text.len() > 0,
        !is_space(text[0]),
        n == head_len(text),
        0 <= n <= text.len(),
        text.skip(n) == seq![' '] + tail,
    ensures
        scan(text) == seq![head_token(text)] + scan(tail),
{
    lemma_scan_blank(tail);
}

/// A run of digits and decimal points that something else follows is the
/// whole run at the head of the text.
proof fn lemma_numeral_run_of(run: Seq<char>, tail: Seq<char>)
    requires
        all_numeral_chars(run),
        tail.len() == 0 || !is_numeral_char(tail[0]),
    ensures
        numeral_run(run + tail) == run.len(),
{
    let text = run + tail;
    assert forall|k: int| 0 <= k < run.len() implies is_numeral_char(#[trigger] text[k]) by {
        assert(text[k] == run[k]);
    }
    lemma_numeral_run_split(text, 0, run.len() as int);
    assert(text.skip(0) == text);
    assert(text.skip(run.len() as int) == tail);
}

/// A run of letters that something else follows is the whole run at the
/// head of the text.
proof fn lemma_letter_run_of(run: Seq<char>, tail: Seq<char>)
    requires
        all_letters(run),
        tail.len() == 0 || !is_letter(tail[0]),
    ensures
        letter_run(run + tail) == run.len(),
{
    let text = run + tail;
    assert forall|k: int| 0 <= k < run.len() implies is_letter(#[trigger] text[k]) by {
        assert(text[k] == run[k]);
    }
    lemma_letter_run_split(text, 0, run.len() as int);
    assert(text.skip(0) == text);
    assert(text.skip(run.len() as int) == tail);
}

/// The word of a token, read again, is the token.
proof fn lemma_scan_word(t: TokenModel, tail: Seq<char>)
    requires
        lexical_token(t),
        !(t is Unknown),
        t is Function ==> tail.len() > 0 && tail[0] == '(',
    ensures
        scan(word(t) + tail) == seq![t] + scan(tail),
{
    let text = word(t) + tail;
    match t {
        TokenModel::Number(n) => {
            let behind = seq![' '] + tail;
            assert(text == n + behind);
            assert(n.len() > 0);
            assert(text[0] == n[0]);
            assert(is_numeral_char(n[0]));
            lemma_numeral_run_of(n, behind);
            assert(text.take(n.len() as int) == n);
            assert(text.skip(n.len() as int) == behind);
            lemma_scan_head(text, n.len() as int, tail);
        },
        TokenModel::Operator(op) => {
            assert(text[0] == op.symbol());
            assert(text.skip(1) == seq![' '] + tail);
            lemma_scan_head(text, 1, tail);
        },
        TokenModel::ComparisonOp(op) => {
            let symbol = op.symbol();
            assert(text[0] == symbol[0]);
            assert(text[1] == if symbol.len() == 2 {
                '='
            } else {
                ' '
            });
            assert(text.skip(symbol.len() as int) == seq![' '] + tail);
            lemma_scan_head(text, symbol.len() as int, tail);
        },
        TokenModel::Variable(c) => {
            assert(text[0] == c);
            assert(text[1] == ' ');
            assert(text.drop_first()[0] == ' ');
            assert(letter_run(text.drop_first()) == 0);
            assert(text.skip(1) == seq![' '] + tail);
            lemma_scan_head(text, 1, tail);
        },
        TokenModel::Constant(c) => {
            assert(text[0] == c);
            assert(text[1] == ' ');
            assert(text.drop_first()[0] == ' ');
            assert(letter_run(text.drop_first()) == 0);
            assert(text.skip(1) == seq![' '] + tail);
            lemma_scan_head(text, 1, tail);
        },
        TokenModel::Function(name) => {
            assert(text[0] == name[0]);
            assert(is_letter(name[0]));
            lemma_letter_run_of(name, tail);
            assert(text[name.len() as int] == tail[0]);
            assert(names_function(text));
            assert(text.take(name.len() as int) == name);
            assert(text.skip(name.len() as int) == tail);
        },
        TokenModel::LeftParenthesis => {
            assert(text[0] == '(');
            assert(text.skip(1) == seq![' '] + tail);
            lemma_scan_head(text, 1, tail);
        },
        TokenModel::RightParenthesis => {
            assert(text[0] == ')');
            assert(text.skip(1) == seq![' '] + tail);
            lemma_scan_head(text, 1, tail);
        },
        TokenModel::Comma => {
            assert(text[0] == ',');
            assert(text.skip(1) == seq![' '] + tail);
            lemma_scan_head(text, 1, tail);
        },
        TokenModel::Unknown(_) => {},
    }
}

/// The text of tokens that the lexer can give, read again, is those tokens.
pub proof fn lemma_scan_spell(tokens: Seq<TokenModel>)
    requires
        lexical(tokens),
        no_unknown(tokens),
    ensures
        scan(spell(tokens)) == tokens,
    decreases tokens.len(),
{
    if tokens.len() > 0 {
        let rest = tokens.drop_first();
        assert forall|i: int| 0 <= i < rest.len() implies lexical_token(#[trigger] rest[i]) && (
        rest[i] is Function ==> i + 1 < rest.len() && rest[i + 1] is LeftParenthesis) && !(
        rest[i] is Unknown) by {
            assert(rest[i] == tokens[i + 1]);
            if i + 1 < rest.len() {
                assert(rest[i + 1] == tokens[i + 2]);
            }
        }
        lemma_scan_spell(rest);
        assert(lexical_token(tokens[0]) && !(tokens[0] is Unknown));
        if tokens[0] is Function {
            assert(rest[0] == tokens[1]);
            assert(spell(rest) == word(rest[0]) + spell(rest.drop_first()));
            assert(spell(rest)[0] == '(');
        }
        lemma_scan_word(tokens[0], spell(rest));
        assert(seq![tokens[0]] + rest == tokens);
    }
}

/// Tokens that the lexer can give, written out and read again, are the
/// tokens, where no character among them means nothing.
pub proof fn lemma_tokens_round_trip(tokens: Seq<TokenModel>)
    requires
        lexical(tokens),
        saturated(tokens),
        no_unknown(tokens),
    ensures
        tokenize(spell(tokens)) == tokens,
{
    lemma_scan_spell(tokens);
    lemma_saturated_fixed(false, tokens);
}

/// A statement that is recognized is made of the tokens that it was read
/// from, and none of them is a character that means nothing.
pub proof fn lemma_statement_tokens(tokens: Seq<TokenModel>)
    requires
        !(classify_model(tokens) is Unrecognized),
    ensures
        tokens_of(classify_model(tokens)) == tokens,
        no_unknown(tokens),
{
    let statement = classify_model(tokens);
    if is_definition(tokens) {
        let body = tokens.skip(5);
        assert(tokens_of(statement) =~= tokens);
        assert forall|i: int| 0 <= i < tokens.len() implies !((#[trigger] tokens[i]) is Unknown) by {
            if i >= 5 {
                assert(body[i - 5].is_simple());
            }
        }
    } else if is_equation(tokens) {
        lemma_first_top_level(tokens, 0);
        let at = first_top_level(tokens, 0) as int;
        assert(tokens_of(statement) =~= tokens);
        assert forall|i: int| 0 <= i < tokens.len() implies !((#[trigger] tokens[i]) is Unknown) by {
            if i < at {
                assert(tokens.take(at)[i].is_simple());
            } else if i > at {
                assert(tokens.skip(at + 1)[i - at - 1].is_simple());
            }
        }
    } else if is_assignment(tokens) {
        assert(tokens_of(statement) =~= tokens);
        assert forall|i: int| 0 <= i < tokens.len() implies !((#[trigger] tokens[i]) is Unknown) by {
            if i >= 2 {
                assert(tokens.skip(2)[i - 2].is_simple());
            }
        }
    } else {
        assert(is_calculable(tokens));
        assert forall|i: int| 0 <= i < tokens.len() implies !((#[trigger] tokens[i]) is Unknown) by {
            assert(tokens[i].is_simple());
        }
    }
}

/// The text of a statement that was not recognized is not recognized.
proof fn lemma_unrecognized_stays(text: Seq<char>)
    requires
        text == spell(seq![TokenModel::Unknown('?')]),
    ensures
        classify_model(tokenize(text)) is Unrecognized,
{
    let one = seq![TokenModel::Unknown('?')];
    assert(one.drop_first().len() == 0);
    assert(spell(one.drop_first()) == Seq::<char>::empty());
    assert(text =~= seq!['?', ' ']);
    assert(text[0] == '?');
    assert(head_len(text) == 1);
    assert(head_token(text) == TokenModel::Unknown('?'));
    let behind = text.skip(1);
    assert(behind =~= seq![' ']);
    assert(behind.drop_first().len() == 0);
    assert(scan(behind.drop_first()) == Seq::<TokenModel>::empty());
    assert(scan(behind) == Seq::<TokenModel>::empty());
    assert(scan(text) =~= one);
    assert(one.drop_first() == Seq::<TokenModel>::empty());
    assert(with_implicit(false, one.drop_first()) == Seq::<TokenModel>::empty());
    assert(tokenize(text) =~= one);
    assert(!one[0].is_simple());
    assert(!all_simple(one));
    assert(!all_simple(one.take(first_top_level(one, 0) as int)) || top_level_comparisons(one, 0) != 1) by {
        assert(top_level_comparisons(one.drop_first(), 0) == 0);
    }
}

/// The statement that is made of tokens which the lexer can give, written
/// out, cut into tokens and classified again, is the statement itself.
pub proof fn law_statement_round_trip(tokens: Seq<TokenModel>)
    requires
        lexical(tokens),
        saturated(tokens),
    ensures
        classify_model(tokenize(render_model(classify_model(tokens)))) == classify_model(tokens),
{
    let statement = classify_model(tokens);
    if statement is Unrecognized {
        lemma_unrecognized_stays(render_model(statement));
    } else {
        lemma_statement_tokens(tokens);
        lemma_tokens_round_trip(tokens);
    }
}

/// Round trip: the text of a statement, cut into tokens and classified
/// again, gives the statement itself. This holds of every statement that
/// the classifier gives for the tokens of a text.
pub proof fn law_round_trip(text: Seq<char>)
    ensures
        classify_model(tokenize(render_model(classify_model(tokenize(text))))) == classify_model(
            tokenize(text),
        ),
{
    law_tokens_lexical(text);
    law_statement_round_trip(tokenize(text));
}

} // verus!
