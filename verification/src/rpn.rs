//! The grammar of infix expressions, and their conversion to postfix
//! form.

use vstd::prelude::*;

use crate::error::Error;
use crate::expr::{Connective, Expr};
use crate::kept::{keeps_tokens, lemma_postfix_keeps_tokens};
use crate::token::{Operand, Token};

verus! {

/// The connective of a binding level. Level 0 binds loosest (`|`), level 1
/// is `^`, level 2 is `+`; above them stand negation and the atoms.
pub open spec fn level_connective(level: nat) -> Connective {
    if level == 0 {
        Connective::Or
    } else if level == 1 {
        Connective::Xor
    } else {
        Connective::And
    }
}

/// What the levels above `level` still have to go through, for termination.
pub open spec fn level_rank(level: nat) -> int {
    if level >= 3 {
        1
    } else {
        4 - level
    }
}

/// Reads from `pos` an expression whose connectives bind at `level` or
/// tighter, joining to the left: the expression and the position after it.
pub open spec fn parse_level(tokens: Seq<Token>, pos: int, level: nat) -> Option<(Expr, int)>
    decreases tokens.len() - pos, level_rank(level),
{
    if level >= 3 {
        parse_unary(tokens, pos)
    } else {
        match parse_level(tokens, pos, level + 1) {
            Some((first, next)) => if pos < next <= tokens.len() {
                parse_tail(tokens, next, level, first)
            } else {
                None
            },
            None => None,
        }
    }
}

/// Goes on from `pos` after the expression `left` of a level: as long as
/// the level's connective follows, reads the next operand and joins it on.
pub open spec fn parse_tail(tokens: Seq<Token>, pos: int, level: nat, left: Expr) -> Option<
    (Expr, int),
>
    decreases tokens.len() - pos, 0int,
{
    let k = level_connective(level);
    if 0 <= pos < tokens.len() && tokens[pos] == Token::of_op(k.operand()) {
        match parse_level(tokens, pos + 1, level + 1) {
            Some((right, next)) => if pos < next <= tokens.len() {
                parse_tail(tokens, next, level, Expr::Binary(k, Box::new(left), Box::new(right)))
            } else {
                None
            },
            None => None,
        }
    } else {
        Some((left, pos))
    }
}

/// Reads from `pos` a fact, a negation, or an expression in parentheses.
pub open spec fn parse_unary(tokens: Seq<Token>, pos: int) -> Option<(Expr, int)>
    decreases tokens.len() - pos, 0int,
{
    if pos < 0 || pos >= tokens.len() {
        None
    } else if tokens[pos] == Token::of_op(Operand::Not) {
        match parse_unary(tokens, pos + 1) {
            Some((a, next)) => Some((Expr::Not(Box::new(a)), next)),
            None => None,
        }
    } else if tokens[pos] == Token::of_op(Operand::Opening) {
        match parse_level(tokens, pos + 1, 0) {
            Some((e, next)) => if 0 <= next < tokens.len() && tokens[next] == Token::of_op(
                Operand::Closing,
            ) {
                Some((e, next + 1))
            } else {
                None
            },
            None => None,
        }
    } else {
        match tokens[pos].as_fact() {
            Some(c) => Some((Expr::Fact(c), pos + 1)),
            None => None,
        }
    }
}

/// The expression that an infix token sequence writes, if it writes one:
/// `!` binds tightest, then `+`, then `^`, then `|`; connectives of one
/// level join to the left; parentheses must balance, and nothing may be
/// left over.
pub open spec fn parse_infix(tokens: Seq<Token>) -> Option<Expr> {
    match parse_level(tokens, 0, 0) {
        Some((e, next)) => if next == tokens.len() {
            Some(e)
        } else {
            None
        },
        None => None,
    }
}

/// Whether one of the tokens from `from` up to `to` is the fact of the
/// given letter.
pub open spec fn names(tokens: Seq<Token>, from: int, to: int, letter: char) -> bool {
    exists|k: int|
        from <= k < to && 0 <= k < tokens.len() && (#[trigger] tokens[k]).as_fact() == Some(letter)
}

/// The facts of a stretch of tokens are those of its two parts.
pub proof fn lemma_names_split(tokens: Seq<Token>, from: int, mid: int, to: int, letter: char)
    requires
        from <= mid <= to,
    ensures
        names(tokens, from, to, letter) == (names(tokens, from, mid, letter) || names(
            tokens,
            mid,
            to,
            letter,
        )),
{
    if names(tokens, from, to, letter) {
        let k = choose|k: int|
            from <= k < to && 0 <= k < tokens.len() && (#[trigger] tokens[k]).as_fact() == Some(
                letter,
            );
        if k < mid {
            assert(names(tokens, from, mid, letter));
        } else {
            assert(names(tokens, mid, to, letter));
        }
    }
    if names(tokens, from, mid, letter) {
        let k = choose|k: int|
            from <= k < mid && 0 <= k < tokens.len() && (#[trigger] tokens[k]).as_fact() == Some(
                letter,
            );
        assert(names(tokens, from, to, letter));
    }
    if names(tokens, mid, to, letter) {
        let k = choose|k: int|
            mid <= k < to && 0 <= k < tokens.len() && (#[trigger] tokens[k]).as_fact() == Some(
                letter,
            );
        assert(names(tokens, from, to, letter));
    }
}

/// A stretch of one token is the fact of that token, if it is one.
pub proof fn lemma_names_one(tokens: Seq<Token>, at: int, letter: char)
    requires
        0 <= at < tokens.len(),
    ensures
        names(tokens, at, at + 1, letter) == (tokens[at].as_fact() == Some(letter)),
{
    if tokens[at].as_fact() == Some(letter) {
        assert(names(tokens, at, at + 1, letter));
    }
}

/// An expression that is read at a level mentions the facts among the
/// tokens that it was read from, and no others.
pub proof fn lemma_parse_level_names(tokens: Seq<Token>, pos: int, level: nat)
    requires
        parse_level(tokens, pos, level) is Some,
    ensures
        ({
            let (e, next) = parse_level(tokens, pos, level).unwrap();
            &&& 0 <= pos < next <= tokens.len()
            &&& forall|c: char| e.mentions(c) == names(tokens, pos, next, c)
        }),
    decreases tokens.len() - pos, level_rank(level),
{
    if level >= 3 {
        lemma_parse_unary_names(tokens, pos);
    } else {
        lemma_parse_level_names(tokens, pos, level + 1);
        let (first, mid) = parse_level(tokens, pos, level + 1).unwrap();
        lemma_parse_tail_names(tokens, mid, level, first);
        let (e, next) = parse_tail(tokens, mid, level, first).unwrap();
        assert forall|c: char| e.mentions(c) == names(tokens, pos, next, c) by {
            lemma_names_split(tokens, pos, mid, next, c);
        }
    }
}

/// An expression that is carried on from `left` mentions the facts of
/// `left` and those among the tokens that were read, and no others.
pub proof fn lemma_parse_tail_names(tokens: Seq<Token>, pos: int, level: nat, left: Expr)
    requires
        0 <= pos <= tokens.len(),
        parse_tail(tokens, pos, level, left) is Some,
    ensures
        ({
            let (e, next) = parse_tail(tokens, pos, level, left).unwrap();
            &&& pos <= next <= tokens.len()
            &&& forall|c: char| e.mentions(c) == (left.mentions(c) || names(tokens, pos, next, c))
        }),
    decreases tokens.len() - pos, 0int,
{
    let k = level_connective(level);
    let (e, next) = parse_tail(tokens, pos, level, left).unwrap();
    if pos < tokens.len() && tokens[pos] == Token::of_op(k.operand()) {
        lemma_parse_level_names(tokens, pos + 1, level + 1);
        let (right, mid) = parse_level(tokens, pos + 1, level + 1).unwrap();
        let joined = Expr::Binary(k, Box::new(left), Box::new(right));
        lemma_parse_tail_names(tokens, mid, level, joined);
        assert forall|c: char| e.mentions(c) == (left.mentions(c) || names(
            tokens,
            pos,
            next,
            c,
        )) by {
            lemma_names_one(tokens, pos, c);
            lemma_names_split(tokens, pos, pos + 1, next, c);
            lemma_names_split(tokens, pos + 1, mid, next, c);
            assert(joined.mentions(c) == (left.mentions(c) || right.mentions(c)));
            assert(right.mentions(c) == names(tokens, pos + 1, mid, c));
            assert(e.mentions(c) == (joined.mentions(c) || names(tokens, mid, next, c)));
        }
    } else {
        assert forall|c: char| !names(tokens, pos, pos, c) by {}
    }
}

/// A fact, a negation or a parenthesis mentions the facts among the
/// tokens that it was read from, and no others.
pub proof fn lemma_parse_unary_names(tokens: Seq<Token>, pos: int)
    requires
        parse_unary(tokens, pos) is Some,
    ensures
        ({
            let (e, next) = parse_unary(tokens, pos).unwrap();
            &&& 0 <= pos < next <= tokens.len()
            &&& forall|c: char| e.mentions(c) == names(tokens, pos, next, c)
        }),
    decreases tokens.len() - pos, 0int,
{
    let (e, next) = parse_unary(tokens, pos).unwrap();
    if tokens[pos] == Token::of_op(Operand::Not) {
        lemma_parse_unary_names(tokens, pos + 1);
        let (a, _) = parse_unary(tokens, pos + 1).unwrap();
        assert forall|c: char| e.mentions(c) == names(tokens, pos, next, c) by {
            lemma_names_one(tokens, pos, c);
            lemma_names_split(tokens, pos, pos + 1, next, c);
            assert(e.mentions(c) == a.mentions(c));
            assert(a.mentions(c) == names(tokens, pos + 1, next, c));
        }
    } else if tokens[pos] == Token::of_op(Operand::Opening) {
        lemma_parse_level_names(tokens, pos + 1, 0);
        assert forall|c: char| e.mentions(c) == names(tokens, pos, next, c) by {
            lemma_names_one(tokens, pos, c);
            lemma_names_one(tokens, next - 1, c);
            lemma_names_split(tokens, pos, pos + 1, next, c);
            lemma_names_split(tokens, pos + 1, next - 1, next, c);
        }
    } else {
        assert forall|c: char| e.mentions(c) == names(tokens, pos, next, c) by {
            lemma_names_one(tokens, pos, c);
        }
    }
}

/// Whether the token is the given operand and nothing else.
fn is_op(token: &Token, op: Operand) -> (b: bool)
    ensures
        b == (*token == Token::of_op(op)),
{
    token.fact.is_none() && match token.operand {
        Some(o) => o == op,
        None => false,
    }
}

fn level_operand(level: u8) -> (op: Operand)
    requires
        level < 3,
    ensures
        op == level_connective(level as nat).operand(),
{
    if level == 0 {
        Operand::Or
    } else if level == 1 {
        Operand::Xor
    } else {
        Operand::And
    }
}

/// Appends to `out` the postfix form of the expression of `level` that
/// begins at `pos`, and gives the position after it.
fn convert_level(tokens: &Vec<Token>, pos: usize, level: u8, out: &mut Vec<Token>) -> (r: Option<
    usize,
>)
    requires
        pos <= tokens.len(),
        level <= 3,
    ensures
        match parse_level(tokens@, pos as int, level as nat) {
            Some((e, next)) => {
                &&& r == Some(next as usize)
                &&& pos < next <= tokens.len()
                &&& final(out)@ == old(out)@ + e.postfix()
            },
            None => r is None,
        },
    decreases tokens.len() - pos, level_rank(level as nat),
{
    if level >= 3 {
        return convert_unary(tokens, pos, out);
    }
    let op = level_operand(level);
    let ghost k = level_connective(level as nat);
    let mut p: usize = match convert_level(tokens, pos, level + 1, out) {
        Some(next) => next,
        None => {
            return None;
        },
    };
    let ghost (first, _) = parse_level(tokens@, pos as int, (level + 1) as nat)->0;
    let ghost mut left = first;
    while p < tokens.len() && is_op(&tokens[p], op)
        invariant
            level < 3,
            op == k.operand(),
            k == level_connective(level as nat),
            pos < p <= tokens.len(),
            parse_level(tokens@, pos as int, level as nat) == parse_tail(
                tokens@,
                p as int,
                level as nat,
                left,
            ),
            out@ == old(out)@ + left.postfix(),
        decreases tokens.len() - p,
    {
        let ghost before = out@;
        let next = match convert_level(tokens, p + 1, level + 1, out) {
            Some(next) => next,
            None => {
                return None;
            },
        };
        out.push(tokens[p]);
        proof {
            let (right, _) = parse_level(tokens@, p + 1, (level + 1) as nat)->0;
            let joined = Expr::Binary(k, Box::new(left), Box::new(right));
            assert(out@ =~= old(out)@ + joined.postfix());
            left = joined;
        }
        p = next;
    }
    Some(p)
}

/// Appends to `out` the postfix form of the fact, negation or parenthesis
/// that begins at `pos`, and gives the position after it.
fn convert_unary(tokens: &Vec<Token>, pos: usize, out: &mut Vec<Token>) -> (r: Option<usize>)
    requires
        pos <= tokens.len(),
    ensures
        match parse_unary(tokens@, pos as int) {
            Some((e, next)) => {
                &&& r == Some(next as usize)
                &&& pos < next <= tokens.len()
                &&& final(out)@ == old(out)@ + e.postfix()
            },
            None => r is None,
        },
    decreases tokens.len() - pos, 0int,
{
    if pos >= tokens.len() {
        return None;
    }
    let token = tokens[pos];
    if is_op(&token, Operand::Not) {
        match convert_unary(tokens, pos + 1, out) {
            Some(next) => {
                out.push(token);
                Some(next)
            },
            None => None,
        }
    } else if is_op(&token, Operand::Opening) {
        match convert_level(tokens, pos + 1, 0, out) {
            Some(next) => {
                if next < tokens.len() && is_op(&tokens[next], Operand::Closing) {
                    Some(next + 1)
                } else {
                    None
                }
            },
            None => None,
        }
    } else if token.operand.is_none() && token.fact.is_some() {
        out.push(token);
        proof {
            let c = token.fact->0;
            assert(token == Token::of_fact(c));
            assert(out@ =~= old(out)@ + Expr::Fact(c).postfix());
        }
        Some(pos + 1)
    } else {
        None
    }
}

/// Rewrites an infix token sequence in postfix form, or refuses it where it
/// does not write an expression. The postfix form has the facts in their
/// order, no parenthesis, and every other token as often as it stood.
pub fn apply_on_vec(tokens: &Vec<Token>) -> (r: Result<Vec<Token>, Error>)
    ensures
        match parse_infix(tokens@) {
            Some(e) => r is Ok && r->Ok_0@ == e.postfix(),
            None => r == Err::<Vec<Token>, Error>(Error::ParseError),
        },
        r matches Ok(postfix) ==> keeps_tokens(tokens@, postfix@),
{
    proof {
        if parse_infix(tokens@) is Some {
            lemma_postfix_keeps_tokens(tokens@);
        }
    }
    let mut out: Vec<Token> = Vec::new();
    match convert_level(tokens, 0, 0, &mut out) {
        Some(next) => {
            if next == tokens.len() {
                assert(out@ =~= parse_infix(tokens@)->0.postfix());
                Ok(out)
            } else {
                Err(Error::ParseError)
            }
        },
        None => Err(Error::ParseError),
    }
}

} // verus!
