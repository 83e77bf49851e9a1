//! The postfix order that the converter gives is that of the tree which the
//! expression writes.

use crate::grammar::{all_valid, arguments, postfixes, Tree};
use crate::operator::Operator;
use crate::postfix::{
    convert_from, entry_of, step, to_postfix_model, unary_context, ConvertError, EntryModel,
    PostfixModel, YardModel,
};
use crate::token::TokenModel;
use vstd::prelude::*;

verus! {

/// The operators of a tree that wait on the stack when its last token is
/// behind: those on its right edge, the root lowest.
pub open spec fn pending(t: Tree) -> Seq<EntryModel>
    decreases t,
{
    match t {
        Tree::Negative(inner) => seq![EntryModel::Negate] + pending(*inner),
        Tree::Binary(op, left, right) => seq![EntryModel::Operator(op)] + pending(*right),
        _ => Seq::empty(),
    }
}

/// The part of a tree's postfix order that is in the output when its last
/// token is behind.
pub open spec fn partial(t: Tree) -> Seq<PostfixModel>
    decreases t,
{
    match t {
        Tree::Negative(inner) => partial(*inner),
        Tree::Binary(op, left, right) => left.postfix() + partial(*right),
        _ => t.postfix(),
    }
}

/// What the entries of a stack are in the output, the top first.
pub open spec fn emitted_down(entries: Seq<EntryModel>) -> Seq<PostfixModel>
    decreases entries.len(),
{
    if entries.len() == 0 {
        Seq::empty()
    } else {
        seq![entries.last().emitted()] + emitted_down(entries.drop_last())
    }
}

/// Whether every entry is an operator that binds at least as tightly as
/// `level`.
pub open spec fn all_bind(entries: Seq<EntryModel>, level: nat) -> bool {
    forall|k: int|
        0 <= k < entries.len() ==> (#[trigger] entries[k]).is_operator() && entries[k].precedence()
            >= level
}

/// Whether a stack lets a tree of this level be read on top of it: no
/// function lies on top, and no operator that would leave the stack for an
/// operator of the tree.
pub open spec fn admits(stack: Seq<EntryModel>, level: nat) -> bool {
    stack.len() == 0 || (!(stack.last() is Function) && (!stack.last().is_operator()
        || stack.last().precedence() < level || (stack.last().precedence() == level && (level == 2
        || level == 4))))
}

/// Whether an operand may begin at place `at`: at the start, or behind an
/// opening parenthesis, a comma or an operator.
pub open spec fn operand_place(tokens: Seq<TokenModel>, at: int) -> bool {
    unary_context(tokens, at)
}

/// The state behind the tokens from `from` up to `to`, or the first error
/// among them.
pub open spec fn walk(tokens: Seq<TokenModel>, from: int, to: int, state: YardModel) -> Result<
    YardModel,
    ConvertError,
>
    decreases to - from,
{
    if from >= to {
        Ok(state)
    } else {
        match step(state, tokens, from) {
            Ok(next) => walk(tokens, from + 1, to, next),
            Err(e) => Err(e),
        }
    }
}

/// Walking a stretch is walking its first part and then the rest.
proof fn lemma_walk_split(tokens: Seq<TokenModel>, from: int, mid: int, to: int, state: YardModel)
    requires
        from <= mid <= to,
    ensures
        walk(tokens, from, to, state) == match walk(tokens, from, mid, state) {
            Ok(middle) => walk(tokens, mid, to, middle),
            Err(e) => Err(e),
        },
    decreases mid - from,
{
    if from < mid {
        match step(state, tokens, from) {
            Ok(next) => lemma_walk_split(tokens, from + 1, mid, to, next),
            Err(e) => {},
        }
    }
}

/// Walking one token is taking its step.
proof fn lemma_walk_one(tokens: Seq<TokenModel>, at: int, state: YardModel)
    ensures
        walk(tokens, at, at + 1, state) == step(state, tokens, at),
{
    match step(state, tokens, at) {
        Ok(next) => {
            assert(walk(tokens, at + 1, at + 1, next) == Ok::<YardModel, ConvertError>(next));
        },
        Err(e) => {},
    }
}

/// A conversion is a walk to the end and the draining of the stack.
proof fn lemma_convert_is_walk(tokens: Seq<TokenModel>, at: int, state: YardModel)
    requires
        0 <= at <= tokens.len(),
    ensures
        convert_from(tokens, at, state) == match walk(tokens, at, tokens.len() as int, state) {
            Ok(end) => end.drained(),
            Err(e) => Err(e),
        },
    decreases tokens.len() - at,
{
    if at < tokens.len() {
        match step(state, tokens, at) {
            Ok(next) => lemma_convert_is_walk(tokens, at + 1, next),
            Err(e) => {},
        }
    }
}

/// Operators that lie on a stack above an entry that is none are flushed to
/// the output, the top first.
proof fn lemma_flushed_pending(
    below: Seq<EntryModel>,
    waiting: Seq<EntryModel>,
    output: Seq<PostfixModel>,
)
    requires
        all_bind(waiting, 0),
        below.len() == 0 || !below.last().is_operator(),
    ensures
        (YardModel { stack: below + waiting, output }).flushed() == (YardModel {
            stack: below,
            output: output + emitted_down(waiting),
        }),
    decreases waiting.len(),
{
    let state = YardModel { stack: below + waiting, output };
    if waiting.len() == 0 {
        assert(below + waiting == below);
        assert(output + emitted_down(waiting) == output);
    } else {
        let fewer = waiting.drop_last();
        assert(state.stack.last() == waiting.last());
        assert(waiting.last().is_operator());
        assert(state.stack.drop_last() == below + fewer);
        lemma_flushed_pending(below, fewer, output.push(waiting.last().emitted()));
        assert(output.push(waiting.last().emitted()) + emitted_down(fewer) == output
            + emitted_down(waiting));
    }
}

/// Operators that lie on a stack above an entry that does not yield, and
/// that all yield to an operator, go to the output before it, the top first.
proof fn lemma_yielded_pending(
    below: Seq<EntryModel>,
    waiting: Seq<EntryModel>,
    output: Seq<PostfixModel>,
    incoming: EntryModel,
)
    requires
        forall|k: int| 0 <= k < waiting.len() ==> (#[trigger] waiting[k]).yields_to(incoming),
        below.len() == 0 || !below.last().yields_to(incoming),
    ensures
        (YardModel { stack: below + waiting, output }).yielded(incoming) == (YardModel {
            stack: below,
            output: output + emitted_down(waiting),
        }),
    decreases waiting.len(),
{
    let state = YardModel { stack: below + waiting, output };
    if waiting.len() == 0 {
        assert(below + waiting == below);
        assert(output + emitted_down(waiting) == output);
    } else {
        let fewer = waiting.drop_last();
        assert(state.stack.last() == waiting.last());
        assert(waiting[waiting.len() - 1].yields_to(incoming));
        assert(state.stack.drop_last() == below + fewer);
        assert forall|k: int| 0 <= k < fewer.len() implies (#[trigger] fewer[k]).yields_to(
            incoming,
        ) by {
            assert(fewer[k] == waiting[k]);
        }
        lemma_yielded_pending(below, fewer, output.push(waiting.last().emitted()), incoming);
        assert(output.push(waiting.last().emitted()) + emitted_down(fewer) == output
            + emitted_down(waiting));
    }
}

/// A stack of operators drains to the output, the top first.
proof fn lemma_drained_pending(waiting: Seq<EntryModel>, output: Seq<PostfixModel>)
    requires
        all_bind(waiting, 0),
    ensures
        (YardModel { stack: waiting, output }).drained() == Ok::<Seq<PostfixModel>, ConvertError>(
            output + emitted_down(waiting),
        ),
    decreases waiting.len(),
{
    if waiting.len() == 0 {
        assert(output + emitted_down(waiting) == output);
    } else {
        let fewer = waiting.drop_last();
        assert(waiting.last().is_operator());
        lemma_drained_pending(fewer, output.push(waiting.last().emitted()));
        assert(output.push(waiting.last().emitted()) + emitted_down(fewer) == output
            + emitted_down(waiting));
    }
}

/// What waits on the stack behind a tree, emitted behind what is in the
/// output, completes the tree's postfix order; and it binds at least as
/// tightly as the tree holds together.
proof fn lemma_pending(t: Tree)
    requires
        t.valid(),
    ensures
        all_bind(pending(t), t.level()),
        t.level() >= 5 ==> pending(t).len() == 0,
        partial(t) + emitted_down(pending(t)) == t.postfix(),
    decreases t,
{
    match t {
        Tree::Negative(inner) => {
            lemma_pending(*inner);
            let rest = pending(*inner);
            let all = pending(t);
            assert forall|k: int| 0 <= k < all.len() implies (#[trigger] all[k]).is_operator()
                && all[k].precedence() >= 2 by {
                if k > 0 {
                    assert(all[k] == rest[k - 1]);
                }
            }
            lemma_emitted_down_first(EntryModel::Negate, rest);
            assert(partial(t) + (emitted_down(rest) + seq![PostfixModel::Negate]) == (partial(
                *inner,
            ) + emitted_down(rest)).push(PostfixModel::Negate));
        },
        Tree::Binary(op, left, right) => {
            lemma_pending(*right);
            let rest = pending(*right);
            let all = pending(t);
            assert forall|k: int| 0 <= k < all.len() implies (#[trigger] all[k]).is_operator()
                && all[k].precedence() >= op.precedence() by {
                if k > 0 {
                    assert(all[k] == rest[k - 1]);
                }
            }
            lemma_emitted_down_first(EntryModel::Operator(op), rest);
            assert((left.postfix() + partial(*right)) + (emitted_down(rest) + seq![
                PostfixModel::Binary(op),
            ]) == (left.postfix() + (partial(*right) + emitted_down(rest))).push(
                PostfixModel::Binary(op),
            ));
        },
        _ => {
            assert(partial(t) + emitted_down(pending(t)) == t.postfix());
        },
    }
}

/// The lowest entry of a stack is emitted last.
proof fn lemma_emitted_down_first(first: EntryModel, rest: Seq<EntryModel>)
    ensures
        emitted_down(seq![first] + rest) == emitted_down(rest) + seq![first.emitted()],
    decreases rest.len(),
{
    let all = seq![first] + rest;
    if rest.len() == 0 {
        assert(all.drop_last() == Seq::<EntryModel>::empty());
        assert(emitted_down(all.drop_last()) == Seq::<PostfixModel>::empty());
        assert(emitted_down(rest) == Seq::<PostfixModel>::empty());
        assert(all.last() == first);
        assert(emitted_down(all) == seq![first.emitted()] + Seq::<PostfixModel>::empty());
        assert(emitted_down(all) == emitted_down(rest) + seq![first.emitted()]);
    } else {
        assert(all.last() == rest.last());
        assert(all.drop_last() == seq![first] + rest.drop_last());
        lemma_emitted_down_first(first, rest.drop_last());
        assert(seq![rest.last().emitted()] + (emitted_down(rest.drop_last()) + seq![
            first.emitted(),
        ]) == (seq![rest.last().emitted()] + emitted_down(rest.drop_last())) + seq![
            first.emitted(),
        ]);
    }
}

/// Whether an operand may end with the token.
pub open spec fn ends_operand(t: TokenModel) -> bool {
    t is Number || t is Variable || t is Constant || t is RightParenthesis
}

/// The writing of a tree is not empty, and an operand ends with its last
/// token.
proof fn lemma_written_ends(t: Tree)
    ensures
        t.written().len() > 0,
        ends_operand(t.written().last()),
    decreases t, 0nat,
{
    match t {
        Tree::Negative(inner) => {
            lemma_written_ends(*inner);
        },
        Tree::Binary(op, left, right) => {
            lemma_written_ends(*right);
        },
        Tree::Call(name, args) => {
            lemma_arguments_end(args, 0);
        },
        _ => {},
    }
}

/// The writing of arguments ends with the parenthesis that closes them.
proof fn lemma_arguments_end(trees: Seq<Tree>, from: nat)
    ensures
        arguments(trees, from).len() > 0,
        arguments(trees, from).last() is RightParenthesis,
    decreases trees, trees.len() - from,
{
    if from < trees.len() && from + 1 != trees.len() {
        lemma_arguments_end(trees, from + 1);
    }
}

/// Whether the tokens from place `from` on begin with `part`.
pub open spec fn holds_at(tokens: Seq<TokenModel>, from: int, part: Seq<TokenModel>) -> bool {
    &&& 0 <= from
    &&& from + part.len() <= tokens.len()
    &&& tokens.subrange(from, from + part.len()) == part
}

/// A part of a part of the tokens is a part of the tokens.
proof fn lemma_holds_within(
    tokens: Seq<TokenModel>,
    from: int,
    part: Seq<TokenModel>,
    offset: int,
    inner: Seq<TokenModel>,
)
    requires
        holds_at(tokens, from, part),
        holds_at(part, offset, inner),
    ensures
        holds_at(tokens, from + offset, inner),
        forall|k: int| 0 <= k < part.len() ==> tokens[from + k] == #[trigger] part[k],
{
    assert forall|k: int| 0 <= k < part.len() implies tokens[from + k] == #[trigger] part[k] by {
        assert(tokens.subrange(from, from + part.len())[k] == tokens[from + k]);
    }
    assert(tokens.subrange(from + offset, from + offset + inner.len()) =~= inner) by {
        assert forall|k: int| 0 <= k < inner.len() implies tokens[from + offset + k]
            == inner[k] by {
            assert(part.subrange(offset, offset + inner.len())[k] == part[offset + k]);
        }
    }
}

/// Reading a number, a variable or a constant puts it into the output.
proof fn lemma_leaf_walk(
    t: Tree,
    tokens: Seq<TokenModel>,
    from: int,
    below: Seq<EntryModel>,
    output: Seq<PostfixModel>,
)
    requires
        t is Number || t is Variable || t is Constant,
        holds_at(tokens, from, t.written()),
    ensures
        walk(tokens, from, from + t.written().len(), YardModel { stack: below, output }) == Ok::<
            YardModel,
            ConvertError,
        >(YardModel { stack: below + pending(t), output: output + partial(t) }),
{
    let state = YardModel { stack: below, output };
    assert(tokens[from] == t.written()[0]) by {
        assert(tokens.subrange(from, from + 1)[0] == tokens[from]);
    }
    lemma_walk_one(tokens, from, state);
    assert(below + pending(t) == below);
    assert(output + partial(t) == output.push(partial(t)[0]));
}

/// A run of tokens holds its middle part behind its first.
proof fn lemma_part(
    whole: Seq<TokenModel>,
    before: Seq<TokenModel>,
    inner: Seq<TokenModel>,
    behind: Seq<TokenModel>,
)
    requires
        whole =~= before + inner + behind,
    ensures
        holds_at(whole, before.len() as int, inner),
{
    assert(whole.subrange(before.len() as int, (before.len() + inner.len()) as int) =~= inner);
}

/// Reading a group: the parentheses and what stands between them.
proof fn lemma_group_walk(
    t: Tree,
    tokens: Seq<TokenModel>,
    from: int,
    below: Seq<EntryModel>,
    output: Seq<PostfixModel>,
)
    requires
        t is Group,
        t.valid(),
        holds_at(tokens, from, t.written()),
        operand_place(tokens, from),
        admits(below, t.level()),
    ensures
        walk(tokens, from, from + t.written().len(), YardModel { stack: below, output }) == Ok::<
            YardModel,
            ConvertError,
        >(YardModel { stack: below + pending(t), output: output + partial(t) }),
    decreases t, 0nat,
{
    let state = YardModel { stack: below, output };
    let w = t.written();
    let to = from + w.len();
    let inner = *t->Group_0;
    let wi = inner.written();
    lemma_part(w, seq![TokenModel::LeftParenthesis], wi, seq![TokenModel::RightParenthesis]);
    lemma_holds_within(tokens, from, w, 1, wi);
    let q = from + 1 + wi.len();
    assert(tokens[from] == w[0]);
    assert(tokens[q] == w[1 + wi.len() as int]);
    let opened = YardModel { stack: below.push(EntryModel::LeftParenthesis), output };
    lemma_walk_one(tokens, from, state);
    assert(step(state, tokens, from) == Ok::<YardModel, ConvertError>(opened));
    lemma_tree_walk(inner, tokens, from + 1, opened.stack, output);
    let inside = YardModel {
        stack: opened.stack + pending(inner),
        output: output + partial(inner),
    };
    lemma_pending(inner);
    lemma_flushed_pending(opened.stack, pending(inner), inside.output);
    assert(output + partial(inner) + emitted_down(pending(inner)) == output + (partial(inner)
        + emitted_down(pending(inner))));
    lemma_walk_one(tokens, q, inside);
    assert(opened.stack.drop_last() == below);
    let closed = YardModel { stack: below, output: output + inner.postfix() };
    assert(inside.flushed() == (YardModel { stack: opened.stack, output: closed.output }));
    assert(step(inside, tokens, q) == Ok::<YardModel, ConvertError>(closed));
    lemma_walk_split(tokens, from, from + 1, to, state);
    lemma_walk_split(tokens, from + 1, q, to, opened);
    assert(below + pending(t) == below);
}

/// Reading a unary minus and its operand.
proof fn lemma_negative_walk(
    t: Tree,
    tokens: Seq<TokenModel>,
    from: int,
    below: Seq<EntryModel>,
    output: Seq<PostfixModel>,
)
    requires
        t is Negative,
        t.valid(),
        holds_at(tokens, from, t.written()),
        operand_place(tokens, from),
        admits(below, t.level()),
    ensures
        walk(tokens, from, from + t.written().len(), YardModel { stack: below, output }) == Ok::<
            YardModel,
            ConvertError,
        >(YardModel { stack: below + pending(t), output: output + partial(t) }),
    decreases t, 0nat,
{
    let state = YardModel { stack: below, output };
    let w = t.written();
    let to = from + w.len();
    let inner = *t->Negative_0;
    let wi = inner.written();
    let none = Seq::<EntryModel>::empty();
    lemma_part(w, seq![TokenModel::Operator(Operator::Sub)], wi, Seq::<TokenModel>::empty());
    lemma_holds_within(tokens, from, w, 1, wi);
    assert(tokens[from] == w[0]);
    let entry = EntryModel::Negate;
    assert(entry_of(tokens, from) == entry);
    lemma_yielded_pending(below, none, output, entry);
    assert(below + none == below);
    assert(output + emitted_down(none) == output);
    let pushed = YardModel { stack: below.push(entry), output };
    assert(step(state, tokens, from) == Ok::<YardModel, ConvertError>(pushed));
    lemma_walk_one(tokens, from, state);
    lemma_tree_walk(inner, tokens, from + 1, pushed.stack, output);
    lemma_walk_split(tokens, from, from + 1, to, state);
    assert(pushed.stack + pending(inner) == below + pending(t));
}

/// Reading an operator between its operands.
proof fn lemma_binary_walk(
    t: Tree,
    tokens: Seq<TokenModel>,
    from: int,
    below: Seq<EntryModel>,
    output: Seq<PostfixModel>,
)
    requires
        t is Binary,
        t.valid(),
        holds_at(tokens, from, t.written()),
        operand_place(tokens, from),
        admits(below, t.level()),
    ensures
        walk(tokens, from, from + t.written().len(), YardModel { stack: below, output }) == Ok::<
            YardModel,
            ConvertError,
        >(YardModel { stack: below + pending(t), output: output + partial(t) }),
    decreases t, 0nat,
{
    let state = YardModel { stack: below, output };
    let w = t.written();
    let to = from + w.len();
    let op = t->Binary_0;
    let left = *t->Binary_1;
    let right = *t->Binary_2;
    let wl = left.written();
    let wr = right.written();
    lemma_written_ends(left);
    lemma_part(w, Seq::<TokenModel>::empty(), wl, seq![TokenModel::Operator(op)] + wr);
    lemma_part(w, wl + seq![TokenModel::Operator(op)], wr, Seq::<TokenModel>::empty());
    lemma_holds_within(tokens, from, w, 0, wl);
    lemma_holds_within(tokens, from, w, wl.len() as int + 1, wr);
    let q = from + wl.len();
    assert(tokens[q] == w[wl.len() as int]);
    assert(tokens[q - 1] == w[wl.len() - 1]);
    assert(w[wl.len() - 1] == wl.last());
    lemma_tree_walk(left, tokens, from, below, output);
    let entry = EntryModel::Operator(op);
    assert(entry_of(tokens, q) == entry);
    lemma_pending(left);
    let waiting = pending(left);
    assert forall|k: int| 0 <= k < waiting.len() implies (#[trigger] waiting[k]).yields_to(
        entry,
    ) by {
        assert(waiting[k].is_operator() && waiting[k].precedence() >= left.level());
    }
    let ready = YardModel { stack: below + waiting, output: output + partial(left) };
    lemma_yielded_pending(below, waiting, ready.output, entry);
    assert(output + partial(left) + emitted_down(waiting) == output + (partial(left)
        + emitted_down(waiting)));
    let pushed = YardModel { stack: below.push(entry), output: output + left.postfix() };
    assert(ready.yielded(entry) == (YardModel { stack: below, output: pushed.output }));
    assert(step(ready, tokens, q) == Ok::<YardModel, ConvertError>(pushed));
    lemma_walk_one(tokens, q, ready);
    lemma_tree_walk(right, tokens, q + 1, pushed.stack, pushed.output);
    lemma_walk_split(tokens, from, q, to, state);
    lemma_walk_split(tokens, q, q + 1, to, ready);
    assert(pushed.stack + pending(right) == below + pending(t));
    assert(pushed.output + partial(right) == output + partial(t));
}

/// Reading a function with its arguments.
proof fn lemma_call_walk(
    t: Tree,
    tokens: Seq<TokenModel>,
    from: int,
    below: Seq<EntryModel>,
    output: Seq<PostfixModel>,
)
    requires
        t is Call,
        t.valid(),
        holds_at(tokens, from, t.written()),
        operand_place(tokens, from),
        admits(below, t.level()),
    ensures
        walk(tokens, from, from + t.written().len(), YardModel { stack: below, output }) == Ok::<
            YardModel,
            ConvertError,
        >(YardModel { stack: below + pending(t), output: output + partial(t) }),
    decreases t, 0nat,
{
    let state = YardModel { stack: below, output };
    let w = t.written();
    let to = from + w.len();
    let name = t->Call_0;
    let args = t->Call_1;
    let none = Seq::<EntryModel>::empty();
    let wa = arguments(args, 0);
    let head = seq![TokenModel::Function(name), TokenModel::LeftParenthesis];
    lemma_part(w, head, wa, Seq::<TokenModel>::empty());
    lemma_holds_within(tokens, from, w, 2, wa);
    assert(tokens[from] == w[0]);
    assert(tokens[from + 1] == w[1]);
    let function = EntryModel::Function { name, commas: 0 };
    let named = YardModel { stack: below.push(function), output };
    let opened = YardModel { stack: below + seq![function, EntryModel::LeftParenthesis], output };
    assert(named.stack.push(EntryModel::LeftParenthesis) == opened.stack);
    assert(step(state, tokens, from) == Ok::<YardModel, ConvertError>(named));
    assert(step(named, tokens, from + 1) == Ok::<YardModel, ConvertError>(opened));
    lemma_walk_one(tokens, from, state);
    lemma_walk_one(tokens, from + 1, named);
    lemma_walk_split(tokens, from, from + 1, to, state);
    lemma_walk_split(tokens, from + 1, from + 2, to, named);
    assert(below + pending(t) == below);
    if args.len() == 0 {
        assert(tokens[from + 2] == wa[0]);
        lemma_flushed_pending(opened.stack, none, output);
        assert(opened.stack + none == opened.stack);
        assert(output + emitted_down(none) == output);
        assert(opened.flushed() == opened);
        assert(opened.stack.drop_last() == below.push(function));
        assert(below.push(function).drop_last() == below);
        let closed = YardModel {
            stack: below,
            output: output.push(PostfixModel::Call { name, args: 0 }),
        };
        assert(step(opened, tokens, from + 2) == Ok::<YardModel, ConvertError>(closed));
        lemma_walk_one(tokens, from + 2, opened);
        assert(postfixes(args, 0) == Seq::<PostfixModel>::empty());
        assert(output + partial(t) == closed.output);
    } else {
        lemma_arguments_walk(args, 0, name, tokens, from + 2, below, output);
        assert(output + partial(t) == (output + postfixes(args, 0)).push(
            PostfixModel::Call { name, args: args.len() },
        ));
    }
}

/// Reading the writing of a tree on a stack that admits it leaves the
/// operators of its right edge on the stack and the rest of its postfix
/// order in the output.
proof fn lemma_tree_walk(
    t: Tree,
    tokens: Seq<TokenModel>,
    from: int,
    below: Seq<EntryModel>,
    output: Seq<PostfixModel>,
)
    requires
        t.valid(),
        holds_at(tokens, from, t.written()),
        operand_place(tokens, from),
        admits(below, t.level()),
    ensures
        walk(tokens, from, from + t.written().len(), YardModel { stack: below, output }) == Ok::<
            YardModel,
            ConvertError,
        >(YardModel { stack: below + pending(t), output: output + partial(t) }),
    decreases t, 1nat,
{
    match t {
        Tree::Group(_) => lemma_group_walk(t, tokens, from, below, output),
        Tree::Negative(_) => lemma_negative_walk(t, tokens, from, below, output),
        Tree::Binary(_, _, _) => lemma_binary_walk(t, tokens, from, below, output),
        Tree::Call(_, _) => lemma_call_walk(t, tokens, from, below, output),
        _ => lemma_leaf_walk(t, tokens, from, below, output),
    }
}

/// Reading the arguments of a function from one of them on, and the
/// parenthesis that closes them, puts their postfix orders into the output
/// and the function behind them, and takes the function off the stack.
proof fn lemma_arguments_walk(
    args: Seq<Tree>,
    j: nat,
    name: Seq<char>,
    tokens: Seq<TokenModel>,
    from: int,
    below: Seq<EntryModel>,
    output: Seq<PostfixModel>,
)
    requires
        j < args.len(),
        all_valid(args, j),
        holds_at(tokens, from, arguments(args, j)),
        operand_place(tokens, from),
    ensures
        walk(
            tokens,
            from,
            from + arguments(args, j).len(),
            YardModel {
                stack: below + seq![
                    EntryModel::Function { name, commas: j },
                    EntryModel::LeftParenthesis,
                ],
                output,
            },
        ) == Ok::<YardModel, ConvertError>(
            YardModel {
                stack: below,
                output: (output + postfixes(args, j)).push(
                    PostfixModel::Call { name, args: args.len() },
                ),
            },
        ),
    decreases args, args.len() - j,
{
    let function = EntryModel::Function { name, commas: j };
    let base = below + seq![function, EntryModel::LeftParenthesis];
    let state = YardModel { stack: base, output };
    let a = args[j as int];
    let wa = a.written();
    let all = arguments(args, j);
    let to = from + all.len();
    let q = from + wa.len();
    lemma_written_ends(a);
    if j + 1 == args.len() {
        lemma_part(all, Seq::<TokenModel>::empty(), wa, seq![TokenModel::RightParenthesis]);
    } else {
        lemma_part(
            all,
            Seq::<TokenModel>::empty(),
            wa,
            seq![TokenModel::Comma] + arguments(args, j + 1),
        );
    }
    lemma_holds_within(tokens, from, all, 0, wa);
    assert(tokens[q] == all[wa.len() as int]);
    assert(tokens[q - 1] == all[wa.len() - 1]);
    assert(all[wa.len() - 1] == wa.last());
    assert(base.last() is LeftParenthesis);
    lemma_tree_walk(a, tokens, from, base, output);
    lemma_pending(a);
    let inside = YardModel { stack: base + pending(a), output: output + partial(a) };
    lemma_flushed_pending(base, pending(a), inside.output);
    assert(output + partial(a) + emitted_down(pending(a)) == output + (partial(a) + emitted_down(
        pending(a),
    )));
    let flushed = YardModel { stack: base, output: output + a.postfix() };
    assert(inside.flushed() == flushed);
    assert(base[base.len() - 2] == function);
    lemma_walk_one(tokens, q, inside);
    lemma_walk_split(tokens, from, q, to, state);
    lemma_walk_split(tokens, q, q + 1, to, inside);
    if j + 1 == args.len() {
        assert(base.drop_last() == below.push(function));
        assert(below.push(function).drop_last() == below);
        let closed = YardModel {
            stack: below,
            output: flushed.output.push(PostfixModel::Call { name, args: args.len() }),
        };
        assert(step(inside, tokens, q) == Ok::<YardModel, ConvertError>(closed));
        assert(postfixes(args, j + 1) == Seq::<PostfixModel>::empty());
        assert(output + postfixes(args, j) == output + a.postfix());
    } else {
        let counted = EntryModel::Function { name, commas: j + 1 };
        let next = YardModel {
            stack: below + seq![counted, EntryModel::LeftParenthesis],
            output: flushed.output,
        };
        assert(base.update(base.len() - 2, counted) == next.stack);
        assert(step(inside, tokens, q) == Ok::<YardModel, ConvertError>(next));
        lemma_part(
            all,
            wa + seq![TokenModel::Comma],
            arguments(args, j + 1),
            Seq::<TokenModel>::empty(),
        );
        lemma_holds_within(tokens, from, all, wa.len() as int + 1, arguments(args, j + 1));
        lemma_arguments_walk(args, j + 1, name, tokens, q + 1, below, flushed.output);
        assert(output + a.postfix() + postfixes(args, j + 1) == output + postfixes(args, j));
    }
}

/// The converter gives every tree that is written without parentheses other
/// than its groups the postfix order of the tree: what binds tighter is
/// applied first, powers from the right, everything else from the left.
pub proof fn law_precedence(t: Tree)
    requires
        t.valid(),
    ensures
        to_postfix_model(t.written()) == Ok::<Seq<PostfixModel>, ConvertError>(t.postfix()),
{
    let tokens = t.written();
    let none = Seq::<EntryModel>::empty();
    let nothing = Seq::<PostfixModel>::empty();
    assert(tokens.subrange(0, tokens.len() as int) == tokens);
    lemma_tree_walk(t, tokens, 0, none, nothing);
    lemma_convert_is_walk(tokens, 0, YardModel::start());
    lemma_pending(t);
    assert(none + pending(t) == pending(t));
    assert(nothing + partial(t) == partial(t));
    lemma_drained_pending(pending(t), partial(t));
}

} // verus!
