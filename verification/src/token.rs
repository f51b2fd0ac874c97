//! The tokens of the rule language.

use vstd::prelude::*;

use crate::facts::{is_fact_letter, is_letter, letter_index, Fact, Facts};

verus! {

/// A connective or a parenthesis of the rule language.
#[derive(Copy, Clone, Debug, PartialEq, Eq, Structural)]
pub enum Operand {
    Not,
    And,
    Xor,
    Or,
    Opening,
    Closing,
}

/// One lexical unit of a rule: an operand or a reference to a fact.
///
/// A fact is referred to by its letter, which is the key under which the
/// registry holds it. A token of a finished sequence holds exactly one of the
/// two.
#[derive(Copy, Clone, Debug, PartialEq, Eq)]
pub struct Token {
    pub operand: Option<Operand>,
    pub fact: Option<char>,
}

/// The character that the rule language writes for an operand.
pub open spec fn operand_char(op: Operand) -> char {
    match op {
        Operand::Not => '!',
        Operand::And => '+',
        Operand::Xor => '^',
        Operand::Or => '|',
        Operand::Opening => '(',
        Operand::Closing => ')',
    }
}

impl Token {
    /// The token that refers to the fact of the given letter.
    pub open spec fn of_fact(letter: char) -> Token {
        Token { operand: None, fact: Some(letter) }
    }

    /// The token that holds the given operand.
    pub open spec fn of_op(op: Operand) -> Token {
        Token { operand: Some(op), fact: None }
    }

    /// The letter of the fact that the token refers to, where it refers to
    /// a fact and holds no operand.
    pub open spec fn as_fact(self) -> Option<char> {
        if self.operand is None {
            self.fact
        } else {
            None
        }
    }

    /// The operand that the token holds, where it holds one and refers to
    /// no fact.
    pub open spec fn as_op(self) -> Option<Operand> {
        if self.fact is None {
            self.operand
        } else {
            None
        }
    }

    /// Whether two tokens stand for the same thing: the same fact if both
    /// refer to one, else the same operand if both hold one.
    pub open spec fn same(self, other: Token) -> bool {
        if self.fact is Some && other.fact is Some {
            self.fact == other.fact
        } else if self.operand is Some && other.operand is Some {
            self.operand == other.operand
        } else {
            false
        }
    }

    /// The token that holds the given operand and refers to the given
    /// fact, as far as there is one.
    pub fn new(operand: Option<Operand>, fact: Option<&Fact>) -> (token: Token)
        ensures
            token.operand == operand,
            token.fact == match fact {
                Some(f) => Some(f.letter),
                None => None,
            },
    {
        match fact {
            Some(f) => Token { operand, fact: Some(f.letter) },
            None => Token { operand, fact: None },
        }
    }

    /// The token that holds the given operand.
    pub fn new_op(operand: Operand) -> (token: Token)
        ensures
            token == Token::of_op(operand),
    {
        Token { operand: Some(operand), fact: None }
    }

    /// The token that refers to the given fact.
    pub fn new_fact(fact: &Fact) -> (token: Token)
        ensures
            token == Token::of_fact(fact.letter),
    {
        Token { operand: None, fact: Some(fact.letter) }
    }

    pub fn is_empty(&self) -> (b: bool)
        ensures
            b == (self.fact is None && self.operand is None),
    {
        self.fact.is_none() && self.operand.is_none()
    }

    pub fn is_fact(&self) -> (b: bool)
        ensures
            b == (self.fact is Some),
    {
        self.fact.is_some()
    }

    pub fn is_operand(&self) -> (b: bool)
        ensures
            b == (self.operand is Some),
    {
        self.operand.is_some()
    }

    /// Whether the token may stand next to another operand: a negation or a
    /// parenthesis.
    pub fn is_cumulable(&self) -> (b: bool)
        ensures
            b == (self.operand == Some(Operand::Not) || self.operand == Some(Operand::Opening)
                || self.operand == Some(Operand::Closing)),
    {
        match self.operand {
            Some(op) => op == Operand::Not || op == Operand::Opening || op == Operand::Closing,
            None => false,
        }
    }

    /// The character of the token's operand, or `'@'` where it holds none.
    pub fn get_op_char(&self) -> (c: char)
        ensures
            c == match self.operand {
                Some(op) => operand_char(op),
                None => '@',
            },
    {
        match self.operand {
            Some(op) => match op {
                Operand::Not => '!',
                Operand::And => '+',
                Operand::Xor => '^',
                Operand::Or => '|',
                Operand::Opening => '(',
                Operand::Closing => ')',
            },
            None => '@',
        }
    }

    /// The character that shows the token: the letter of its fact, else
    /// the character of its operand; an empty token has none.
    pub fn symbol(&self) -> (c: Option<char>)
        ensures
            c == match (self.fact, self.operand) {
                (Some(letter), _) => Some(letter),
                (None, Some(op)) => Some(operand_char(op)),
                (None, None) => None,
            },
    {
        match self.fact {
            Some(letter) => Some(letter),
            None => if self.operand.is_some() {
                Some(self.get_op_char())
            } else {
                None
            },
        }
    }

    /// Gives the token's fact a truth value in the registry, and says
    /// whether the token refers to a fact of the registry at all. Whether
    /// the fact's value is final is left as it was.
    pub fn set_state(&self, facts: &mut Facts, new_state: bool) -> (done: bool)
        requires
            old(facts).wf(),
        ensures
            final(facts).wf(),
            final(facts).is_stable == old(facts).is_stable,
            match self.fact {
                Some(letter) if is_letter(letter) => done && final(facts)@ == old(facts)@.update(
                    letter_index(letter),
                    Fact { state: new_state, ..old(facts).fact(letter) },
                ),
                _ => !done && final(facts)@ == old(facts)@,
            },
    {
        match self.fact {
            Some(letter) => {
                if is_fact_letter(letter) {
                    let at = facts.get_index(letter);
                    let fact = facts.fact_arr[at];
                    facts.fact_arr[at] = Fact {
                        state: new_state,
                        determined: fact.determined,
                        queried: fact.queried,
                        letter: fact.letter,
                    };
                    true
                } else {
                    false
                }
            },
            None => false,
        }
    }

    /// Whether two tokens stand for the same thing: the same fact if both
    /// refer to one, else the same operand if both hold one.
    pub fn cmp_tok(&self, tok: &Token) -> (b: bool)
        ensures
            b == self.same(*tok),
    {
        match (self.fact, tok.fact) {
            (Some(a), Some(b)) => a == b,
            _ => match (self.operand, tok.operand) {
                (Some(a), Some(b)) => a == b,
                _ => false,
            },
        }
    }
}

} // verus!
