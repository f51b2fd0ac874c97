//! Boolean expressions over facts, and their postfix form.

use vstd::prelude::*;

use crate::token::{Operand, Token};

verus! {

/// A connective that joins two expressions.
pub enum Connective {
    And,
    Xor,
    Or,
}

impl Connective {
    /// The operand that the rule language writes for the connective.
    pub open spec fn operand(self) -> Operand {
        match self {
            Connective::And => Operand::And,
            Connective::Xor => Operand::Xor,
            Connective::Or => Operand::Or,
        }
    }

    /// The truth value of the connective applied to two truth values.
    pub open spec fn apply(self, a: bool, b: bool) -> bool {
        match self {
            Connective::And => a && b,
            Connective::Xor => a != b,
            Connective::Or => a || b,
        }
    }
}

/// The connective that an operand stands for, if it stands for one.
pub open spec fn connective_of(op: Operand) -> Option<Connective> {
    match op {
        Operand::And => Some(Connective::And),
        Operand::Xor => Some(Connective::Xor),
        Operand::Or => Some(Connective::Or),
        _ => None,
    }
}

/// A boolean expression over facts: the meaning of a token sequence.
pub enum Expr {
    Fact(char),
    Not(Box<Expr>),
    Binary(Connective, Box<Expr>, Box<Expr>),
}

impl Expr {
    /// The number of facts and connectives in the expression.
    pub open spec fn size(self) -> nat
        decreases self,
    {
        match self {
            Expr::Fact(_) => 1,
            Expr::Not(a) => 1 + a.size(),
            Expr::Binary(_, l, r) => 1 + l.size() + r.size(),
        }
    }

    /// The number of facts and connectives on the longest way from the
    /// top of the expression to a fact.
    pub open spec fn height(self) -> nat
        decreases self,
    {
        match self {
            Expr::Fact(_) => 1,
            Expr::Not(a) => 1 + a.height(),
            Expr::Binary(_, l, r) => 1 + if l.height() >= r.height() {
                l.height()
            } else {
                r.height()
            },
        }
    }

    /// The expression in postfix form: each connective after what it
    /// applies to, without parentheses.
    pub open spec fn postfix(self) -> Seq<Token>
        decreases self,
    {
        match self {
            Expr::Fact(c) => seq![Token::of_fact(c)],
            Expr::Not(a) => a.postfix().push(Token::of_op(Operand::Not)),
            Expr::Binary(k, l, r) => (l.postfix() + r.postfix()).push(Token::of_op(k.operand())),
        }
    }

    /// Whether the fact of the given letter occurs in the expression.
    pub open spec fn mentions(self, letter: char) -> bool
        decreases self,
    {
        match self {
            Expr::Fact(c) => c == letter,
            Expr::Not(a) => a.mentions(letter),
            Expr::Binary(_, l, r) => l.mentions(letter) || r.mentions(letter),
        }
    }

    /// An expression has at least one token, and as many as its size.
    pub proof fn lemma_size(self)
        ensures
            self.size() >= 1,
            self.postfix().len() == self.size(),
        decreases self,
    {
        match self {
            Expr::Fact(_) => {},
            Expr::Not(a) => {
                a.lemma_size();
            },
            Expr::Binary(_, l, r) => {
                l.lemma_size();
                r.lemma_size();
            },
        }
    }
}

/// Whether one of the tokens refers to the fact of the given letter.
pub open spec fn has_fact(tokens: Seq<Token>, letter: char) -> bool {
    exists|k: int| 0 <= k < tokens.len() && (#[trigger] tokens[k]).fact == Some(letter)
}

/// The tokens of two sequences joined refer to the facts of either.
pub proof fn lemma_has_fact_add(a: Seq<Token>, b: Seq<Token>, letter: char)
    ensures
        has_fact(a + b, letter) == (has_fact(a, letter) || has_fact(b, letter)),
{
    let ab = a + b;
    if has_fact(a, letter) {
        let k = choose|k: int| 0 <= k < a.len() && (#[trigger] a[k]).fact == Some(letter);
        assert(ab[k].fact == Some(letter));
    }
    if has_fact(b, letter) {
        let k = choose|k: int| 0 <= k < b.len() && (#[trigger] b[k]).fact == Some(letter);
        assert(ab[a.len() + k].fact == Some(letter));
    }
    if has_fact(ab, letter) {
        let k = choose|k: int| 0 <= k < ab.len() && (#[trigger] ab[k]).fact == Some(letter);
        if k < a.len() {
            assert(a[k].fact == Some(letter));
        } else {
            assert(b[k - a.len()].fact == Some(letter));
        }
    }
}

/// The postfix form of an expression refers to the facts that the
/// expression mentions, and to no others.
pub proof fn lemma_postfix_facts(e: Expr, letter: char)
    ensures
        has_fact(e.postfix(), letter) == e.mentions(letter),
    decreases e,
{
    match e {
        Expr::Fact(c) => {
            let tokens = e.postfix();
            assert(tokens[0].fact == Some(c));
        },
        Expr::Not(a) => {
            lemma_postfix_facts(*a, letter);
            let last = seq![Token::of_op(Operand::Not)];
            assert(e.postfix() =~= a.postfix() + last);
            lemma_has_fact_add(a.postfix(), last, letter);
            assert(!has_fact(last, letter));
        },
        Expr::Binary(k, l, r) => {
            lemma_postfix_facts(*l, letter);
            lemma_postfix_facts(*r, letter);
            let last = seq![Token::of_op(k.operand())];
            assert(e.postfix() =~= (l.postfix() + r.postfix()) + last);
            lemma_has_fact_add(l.postfix() + r.postfix(), last, letter);
            lemma_has_fact_add(l.postfix(), r.postfix(), letter);
            assert(!has_fact(last, letter));
        },
    }
}

/// The postfix form of an expression holds facts, negations and
/// connectives, and no parenthesis.
pub proof fn lemma_postfix_tokens(e: Expr, k: int)
    requires
        0 <= k < e.postfix().len(),
    ensures
        ({
            let token = e.postfix()[k];
            ||| token.as_fact() is Some
            ||| token == Token::of_op(Operand::Not)
            ||| exists|c: Connective| token == Token::of_op(c.operand())
        }),
    decreases e,
{
    e.lemma_size();
    match e {
        Expr::Fact(_) => {},
        Expr::Not(a) => {
            a.lemma_size();
            if k < a.size() {
                lemma_postfix_tokens(*a, k);
            }
        },
        Expr::Binary(c, l, r) => {
            l.lemma_size();
            r.lemma_size();
            if k < l.size() {
                lemma_postfix_tokens(*l, k);
            } else if k < l.size() + r.size() {
                lemma_postfix_tokens(*r, k - l.size());
            } else {
                assert(e.postfix()[k] == Token::of_op(c.operand()));
            }
        },
    }
}

/// Reads one expression backwards from a postfix sequence: the expression
/// whose postfix form ends just before `end`, with the position at which
/// that form begins.
pub open spec fn expr_ending_at(tokens: Seq<Token>, end: int) -> Option<(Expr, int)>
    decreases end,
{
    if end <= 0 || end > tokens.len() {
        None
    } else {
        let t = tokens[end - 1];
        match (t.as_fact(), t.as_op()) {
            (Some(c), _) => Some((Expr::Fact(c), end - 1)),
            (None, Some(Operand::Not)) => match expr_ending_at(tokens, end - 1) {
                Some((a, start)) => Some((Expr::Not(Box::new(a)), start)),
                None => None,
            },
            (None, Some(op)) => match (connective_of(op), expr_ending_at(tokens, end - 1)) {
                (Some(k), Some((r, mid))) => if 0 <= mid < end {
                    match expr_ending_at(tokens, mid) {
                        Some((l, start)) => Some(
                            (Expr::Binary(k, Box::new(l), Box::new(r)), start),
                        ),
                        None => None,
                    }
                } else {
                    None
                },
                _ => None,
            },
            (None, None) => None,
        }
    }
}

/// The expression that a token sequence is the postfix form of, if it is
/// the postfix form of one.
pub open spec fn parse_postfix(tokens: Seq<Token>) -> Option<Expr> {
    match expr_ending_at(tokens, tokens.len() as int) {
        Some((e, start)) => if start == 0 {
            Some(e)
        } else {
            None
        },
        None => None,
    }
}

/// Reading backwards finds the expression whose postfix form lies in the
/// sequence.
pub proof fn lemma_read_back(tokens: Seq<Token>, start: int, e: Expr)
    requires
        0 <= start,
        start + e.size() <= tokens.len(),
        tokens.subrange(start, start + e.size()) == e.postfix(),
    ensures
        expr_ending_at(tokens, start + e.size()) == Some((e, start)),
    decreases e,
{
    let end = start + e.size();
    let part = tokens.subrange(start, end);
    e.lemma_size();
    assert(tokens[end - 1] == part[end - 1 - start]);
    match e {
        Expr::Fact(c) => {},
        Expr::Not(a) => {
            a.lemma_size();
            assert(tokens.subrange(start, start + a.size()) =~= a.postfix()) by {
                assert forall|i: int| 0 <= i < a.size() implies tokens[start + i]
                    == a.postfix()[i] by {
                    assert(tokens[start + i] == part[i]);
                }
            }
            lemma_read_back(tokens, start, *a);
        },
        Expr::Binary(k, l, r) => {
            l.lemma_size();
            r.lemma_size();
            let mid = start + l.size();
            assert(tokens.subrange(mid, mid + r.size()) =~= r.postfix()) by {
                assert forall|i: int| 0 <= i < r.size() implies tokens[mid + i]
                    == r.postfix()[i] by {
                    assert(tokens[mid + i] == part[l.size() + i]);
                }
            }
            assert(tokens.subrange(start, start + l.size()) =~= l.postfix()) by {
                assert forall|i: int| 0 <= i < l.size() implies tokens[start + i]
                    == l.postfix()[i] by {
                    assert(tokens[start + i] == part[i]);
                }
            }
            lemma_read_back(tokens, mid, *r);
            lemma_read_back(tokens, start, *l);
        },
    }
}

/// What reading backwards finds is an expression whose postfix form lies
/// in the sequence, between the start it gives and the end it was given.
pub proof fn lemma_read_back_sound(tokens: Seq<Token>, end: int)
    requires
        expr_ending_at(tokens, end) is Some,
    ensures
        ({
            let (e, start) = expr_ending_at(tokens, end)->0;
            &&& 0 <= start < end <= tokens.len()
            &&& end - start == e.size()
            &&& tokens.subrange(start, end) == e.postfix()
        }),
    decreases end,
{
    let (e, start) = expr_ending_at(tokens, end)->0;
    let t = tokens[end - 1];
    match e {
        Expr::Fact(c) => {
            assert(tokens.subrange(start, end) =~= e.postfix());
        },
        Expr::Not(a) => {
            lemma_read_back_sound(tokens, end - 1);
            assert(tokens.subrange(start, end) =~= tokens.subrange(start, end - 1).push(t));
        },
        Expr::Binary(k, l, r) => {
            lemma_read_back_sound(tokens, end - 1);
            let (_, mid) = expr_ending_at(tokens, end - 1)->0;
            lemma_read_back_sound(tokens, mid);
            assert(tokens.subrange(start, end) =~= (tokens.subrange(start, mid)
                + tokens.subrange(mid, end - 1)).push(t));
        },
    }
}

/// A token sequence is the postfix form of an expression exactly when
/// [`parse_postfix`] gives that expression.
pub proof fn lemma_parse_postfix(tokens: Seq<Token>, e: Expr)
    ensures
        parse_postfix(tokens) == Some(e) <==> tokens == e.postfix(),
{
    e.lemma_size();
    if tokens == e.postfix() {
        assert(tokens.subrange(0, tokens.len() as int) =~= tokens);
        lemma_read_back(tokens, 0, e);
    }
    if parse_postfix(tokens) == Some(e) {
        lemma_read_back_sound(tokens, tokens.len() as int);
        assert(tokens.subrange(0, tokens.len() as int) =~= tokens);
    }
}

} // verus!
