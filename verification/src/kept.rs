//! What the conversion to postfix form keeps: the facts in their order,
//! and every token but the parentheses, as often as it stood.

use vstd::prelude::*;

use crate::expr::Expr;
use crate::rpn::{
    lemma_parse_level_names, lemma_parse_tail_names, lemma_parse_unary_names, level_connective,
    level_rank, parse_infix, parse_level, parse_tail, parse_unary,
};
use crate::token::{Operand, Token};

verus! {

/// The letters of the facts among the tokens, in their order.
pub open spec fn letters_of(tokens: Seq<Token>) -> Seq<char>
    decreases tokens.len(),
{
    if tokens.len() == 0 {
        Seq::empty()
    } else {
        let before = letters_of(tokens.drop_last());
        match tokens.last().as_fact() {
            Some(c) => before.push(c),
            None => before,
        }
    }
}

/// How often a token stands among the tokens.
pub open spec fn count_of(tokens: Seq<Token>, token: Token) -> nat
    decreases tokens.len(),
{
    if tokens.len() == 0 {
        0
    } else {
        count_of(tokens.drop_last(), token) + if tokens.last() == token {
            1nat
        } else {
            0nat
        }
    }
}

/// Whether a token is a parenthesis.
pub open spec fn is_parenthesis(token: Token) -> bool {
    token == Token::of_op(Operand::Opening) || token == Token::of_op(Operand::Closing)
}

/// The letters of the facts of an expression, from left to right.
pub open spec fn leaves(e: Expr) -> Seq<char>
    decreases e,
{
    match e {
        Expr::Fact(c) => seq![c],
        Expr::Not(a) => leaves(*a),
        Expr::Binary(_, l, r) => leaves(*l) + leaves(*r),
    }
}

/// How often a token is a part of an expression.
pub open spec fn occurs(e: Expr, token: Token) -> nat
    decreases e,
{
    match e {
        Expr::Fact(c) => if token == Token::of_fact(c) {
            1
        } else {
            0
        },
        Expr::Not(a) => occurs(*a, token) + if token == Token::of_op(Operand::Not) {
            1nat
        } else {
            0nat
        },
        Expr::Binary(k, l, r) => occurs(*l, token) + occurs(*r, token) + if token == Token::of_op(
            k.operand(),
        ) {
            1nat
        } else {
            0nat
        },
    }
}

/// The letters and the counts of a single token.
pub proof fn lemma_kept_one(token: Token, other: Token)
    ensures
        letters_of(seq![token]) == match token.as_fact() {
            Some(c) => seq![c],
            None => Seq::<char>::empty(),
        },
        count_of(seq![token], other) == if token == other {
            1nat
        } else {
            0nat
        },
{
    let one = seq![token];
    assert(one.drop_last().len() == 0);
    assert(one.last() == token);
    assert(letters_of(one.drop_last()) =~= Seq::<char>::empty());
    assert(count_of(one.drop_last(), other) == 0);
    match token.as_fact() {
        Some(c) => {
            assert(letters_of(one) =~= seq![c]);
        },
        None => {},
    }
}

/// The letters and the counts of tokens joined are those of the parts.
pub proof fn lemma_kept_add(a: Seq<Token>, b: Seq<Token>, token: Token)
    ensures
        letters_of(a + b) == letters_of(a) + letters_of(b),
        count_of(a + b, token) == count_of(a, token) + count_of(b, token),
    decreases b.len(),
{
    if b.len() == 0 {
        assert(a + b =~= a);
        assert(letters_of(a) + letters_of(b) =~= letters_of(a));
    } else {
        assert((a + b).drop_last() =~= a + b.drop_last());
        assert((a + b).last() == b.last());
        lemma_kept_add(a, b.drop_last(), token);
        match b.last().as_fact() {
            Some(c) => {
                assert((letters_of(a) + letters_of(b.drop_last())).push(c) =~= letters_of(a)
                    + letters_of(b.drop_last()).push(c));
            },
            None => {},
        }
    }
}

/// A stretch of tokens is its two parts joined.
pub proof fn lemma_kept_split(tokens: Seq<Token>, from: int, mid: int, to: int, token: Token)
    requires
        0 <= from <= mid <= to <= tokens.len(),
    ensures
        letters_of(tokens.subrange(from, to)) == letters_of(tokens.subrange(from, mid))
            + letters_of(tokens.subrange(mid, to)),
        count_of(tokens.subrange(from, to), token) == count_of(tokens.subrange(from, mid), token)
            + count_of(tokens.subrange(mid, to), token),
{
    assert(tokens.subrange(from, to) =~= tokens.subrange(from, mid) + tokens.subrange(mid, to));
    lemma_kept_add(tokens.subrange(from, mid), tokens.subrange(mid, to), token);
}

/// A stretch of one token has the letters and the counts of that token.
pub proof fn lemma_kept_at(tokens: Seq<Token>, at: int, token: Token)
    requires
        0 <= at < tokens.len(),
    ensures
        letters_of(tokens.subrange(at, at + 1)) == match tokens[at].as_fact() {
            Some(c) => seq![c],
            None => Seq::<char>::empty(),
        },
        count_of(tokens.subrange(at, at + 1), token) == if tokens[at] == token {
            1nat
        } else {
            0nat
        },
{
    assert(tokens.subrange(at, at + 1) =~= seq![tokens[at]]);
    lemma_kept_one(tokens[at], token);
}

/// The postfix form of an expression has the facts of the expression in
/// their order, and each token as often as it is a part of the expression.
pub proof fn lemma_postfix_keeps(e: Expr, token: Token)
    ensures
        letters_of(e.postfix()) == leaves(e),
        count_of(e.postfix(), token) == occurs(e, token),
        is_parenthesis(token) ==> occurs(e, token) == 0,
    decreases e,
{
    match e {
        Expr::Fact(c) => {
            lemma_kept_one(Token::of_fact(c), token);
        },
        Expr::Not(a) => {
            let last = Token::of_op(Operand::Not);
            lemma_postfix_keeps(*a, token);
            assert(e.postfix() =~= a.postfix() + seq![last]);
            lemma_kept_add(a.postfix(), seq![last], token);
            lemma_kept_one(last, token);
            assert(leaves(*a) + Seq::<char>::empty() =~= leaves(*a));
        },
        Expr::Binary(k, l, r) => {
            let last = Token::of_op(k.operand());
            lemma_postfix_keeps(*l, token);
            lemma_postfix_keeps(*r, token);
            assert(e.postfix() =~= (l.postfix() + r.postfix()) + seq![last]);
            lemma_kept_add(l.postfix() + r.postfix(), seq![last], token);
            lemma_kept_add(l.postfix(), r.postfix(), token);
            lemma_kept_one(last, token);
            assert((leaves(*l) + leaves(*r)) + Seq::<char>::empty() =~= leaves(*l) + leaves(*r));
        },
    }
}

/// Whether the tokens from `from` up to `to` have the facts of `e` in
/// their order and, parentheses apart, each token as often as it is a
/// part of `e`.
pub open spec fn keeps_parts(tokens: Seq<Token>, from: int, to: int, e: Expr) -> bool {
    &&& letters_of(tokens.subrange(from, to)) == leaves(e)
    &&& forall|token: Token|
        !is_parenthesis(token) ==> #[trigger] count_of(tokens.subrange(from, to), token) == occurs(
            e,
            token,
        )
}

/// An expression that is read at a level keeps the parts of the tokens
/// that it was read from.
pub proof fn lemma_parse_level_keeps(tokens: Seq<Token>, pos: int, level: nat)
    requires
        parse_level(tokens, pos, level) is Some,
    ensures
        ({
            let (e, next) = parse_level(tokens, pos, level).unwrap();
            0 <= pos < next <= tokens.len() && keeps_parts(tokens, pos, next, e)
        }),
    decreases tokens.len() - pos, level_rank(level),
{
    lemma_parse_level_names(tokens, pos, level);
    if level >= 3 {
        lemma_parse_unary_keeps(tokens, pos);
    } else {
        lemma_parse_level_names(tokens, pos, level + 1);
        lemma_parse_level_keeps(tokens, pos, level + 1);
        let (first, mid) = parse_level(tokens, pos, level + 1).unwrap();
        lemma_parse_tail_keeps(tokens, pos, mid, level, first);
    }
}

/// An expression that is carried on from `left` keeps the parts of the
/// tokens that `left` and the rest were read from.
pub proof fn lemma_parse_tail_keeps(tokens: Seq<Token>, from: int, pos: int, level: nat, left: Expr)
    requires
        0 <= from <= pos <= tokens.len(),
        parse_tail(tokens, pos, level, left) is Some,
        keeps_parts(tokens, from, pos, left),
    ensures
        ({
            let (e, next) = parse_tail(tokens, pos, level, left).unwrap();
            pos <= next <= tokens.len() && keeps_parts(tokens, from, next, e)
        }),
    decreases tokens.len() - pos, 0int,
{
    let k = level_connective(level);
    lemma_parse_tail_names(tokens, pos, level, left);
    if pos < tokens.len() && tokens[pos] == Token::of_op(k.operand()) {
        lemma_parse_level_names(tokens, pos + 1, level + 1);
        lemma_parse_level_keeps(tokens, pos + 1, level + 1);
        let (right, mid) = parse_level(tokens, pos + 1, level + 1).unwrap();
        let joined = Expr::Binary(k, Box::new(left), Box::new(right));
        assert(keeps_parts(tokens, from, mid, joined)) by {
            lemma_kept_split(tokens, from, pos, mid, tokens[pos]);
            lemma_kept_split(tokens, pos, pos + 1, mid, tokens[pos]);
            lemma_kept_at(tokens, pos, tokens[pos]);
            assert(Seq::<char>::empty() + leaves(right) =~= leaves(right));
            assert forall|token: Token| !is_parenthesis(token) implies #[trigger] count_of(
                tokens.subrange(from, mid),
                token,
            ) == occurs(joined, token) by {
                lemma_kept_split(tokens, from, pos, mid, token);
                lemma_kept_split(tokens, pos, pos + 1, mid, token);
                lemma_kept_at(tokens, pos, token);
                assert(count_of(tokens.subrange(from, pos), token) == occurs(left, token));
                assert(count_of(tokens.subrange(pos + 1, mid), token) == occurs(right, token));
            }
        }
        lemma_parse_tail_keeps(tokens, from, mid, level, joined);
    }
}

/// A fact, a negation or a parenthesis keeps the parts of the tokens that
/// it was read from.
pub proof fn lemma_parse_unary_keeps(tokens: Seq<Token>, pos: int)
    requires
        parse_unary(tokens, pos) is Some,
    ensures
        ({
            let (e, next) = parse_unary(tokens, pos).unwrap();
            0 <= pos < next <= tokens.len() && keeps_parts(tokens, pos, next, e)
        }),
    decreases tokens.len() - pos, 0int,
{
    lemma_parse_unary_names(tokens, pos);
    let (e, next) = parse_unary(tokens, pos).unwrap();
    if tokens[pos] == Token::of_op(Operand::Not) {
        lemma_parse_unary_keeps(tokens, pos + 1);
        let (a, _) = parse_unary(tokens, pos + 1).unwrap();
        lemma_kept_split(tokens, pos, pos + 1, next, tokens[pos]);
        lemma_kept_at(tokens, pos, tokens[pos]);
        assert(Seq::<char>::empty() + leaves(a) =~= leaves(a));
        assert forall|token: Token| !is_parenthesis(token) implies #[trigger] count_of(
            tokens.subrange(pos, next),
            token,
        ) == occurs(e, token) by {
            lemma_kept_split(tokens, pos, pos + 1, next, token);
            lemma_kept_at(tokens, pos, token);
            assert(count_of(tokens.subrange(pos + 1, next), token) == occurs(a, token));
        }
    } else if tokens[pos] == Token::of_op(Operand::Opening) {
        lemma_parse_level_keeps(tokens, pos + 1, 0);
        let (inner, close) = parse_level(tokens, pos + 1, 0).unwrap();
        lemma_kept_split(tokens, pos, pos + 1, next, tokens[pos]);
        lemma_kept_split(tokens, pos + 1, close, next, tokens[pos]);
        lemma_kept_at(tokens, pos, tokens[pos]);
        lemma_kept_at(tokens, close, tokens[pos]);
        assert(Seq::<char>::empty() + (leaves(inner) + Seq::<char>::empty()) =~= leaves(inner));
        assert forall|token: Token| !is_parenthesis(token) implies #[trigger] count_of(
            tokens.subrange(pos, next),
            token,
        ) == occurs(e, token) by {
            lemma_kept_split(tokens, pos, pos + 1, next, token);
            lemma_kept_split(tokens, pos + 1, close, next, token);
            lemma_kept_at(tokens, pos, token);
            lemma_kept_at(tokens, close, token);
            assert(count_of(tokens.subrange(pos + 1, close), token) == occurs(inner, token));
        }
    } else {
        let c = tokens[pos].as_fact().unwrap();
        assert(tokens[pos] == Token::of_fact(c));
        lemma_kept_at(tokens, pos, tokens[pos]);
        assert forall|token: Token| !is_parenthesis(token) implies #[trigger] count_of(
            tokens.subrange(pos, next),
            token,
        ) == occurs(e, token) by {
            lemma_kept_at(tokens, pos, token);
        }
    }
}

/// Whether `postfix` has the facts of `infix` in their order, no
/// parenthesis, and every other token as often as `infix` has it.
pub open spec fn keeps_tokens(infix: Seq<Token>, postfix: Seq<Token>) -> bool {
    &&& letters_of(postfix) == letters_of(infix)
    &&& forall|token: Token| #[trigger]
        count_of(postfix, token) == if is_parenthesis(token) {
            0
        } else {
            count_of(infix, token)
        }
}

/// The postfix form of an infix sequence has the facts in their order, no
/// parenthesis, and every other token as often as it stood.
pub proof fn lemma_postfix_keeps_tokens(infix: Seq<Token>)
    requires
        parse_infix(infix) is Some,
    ensures
        keeps_tokens(infix, parse_infix(infix).unwrap().postfix()),
{
    let e = parse_infix(infix).unwrap();
    lemma_parse_level_keeps(infix, 0, 0);
    assert(infix.subrange(0, infix.len() as int) =~= infix);
    assert forall|token: Token| #[trigger]
        count_of(e.postfix(), token) == if is_parenthesis(token) {
            0
        } else {
            count_of(infix, token)
        } by {
        lemma_postfix_keeps(e, token);
        if !is_parenthesis(token) {
            assert(count_of(infix.subrange(0, infix.len() as int), token) == occurs(e, token));
        }
    }
    lemma_postfix_keeps(e, Token::of_op(Operand::Not));
}

} // verus!
