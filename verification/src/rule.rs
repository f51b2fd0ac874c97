//! Rules, the lines that write them, and the rule set of a file.

use vstd::prelude::*;

use crate::error::Error;
use crate::kept::keeps_tokens;
use crate::expr::{
    has_fact, lemma_parse_postfix, lemma_postfix_facts, parse_postfix, Connective, Expr,
};
use crate::facts::{is_letter, Fact};
use crate::rpn::{
    apply_on_vec, lemma_parse_level_names, names, parse_infix, parse_level, parse_tail, parse_unary,
};
use crate::text::{significant, stripped};
use crate::token::{Operand, Token};

verus! {

/// The side of a rule that a token goes to.
#[derive(Copy, Clone, Debug, PartialEq, Eq, Structural)]
pub enum Side {
    Lhs,
    Rhs,
    Pending,
    Bidirectional,
}

/// What a rule says: its antecedent and its consequent as token sequences,
/// and whether it holds in both directions.
pub struct RuleView {
    pub lhs: Seq<Token>,
    pub rhs: Seq<Token>,
    pub is_equivalent: bool,
}

impl RuleView {
    /// Whether the rule's consequent names the fact of the given letter.
    pub open spec fn implies(self, letter: char) -> bool {
        has_fact(self.rhs, letter)
    }

    /// The rule with both sides in postfix form, where both sides write an
    /// expression.
    pub open spec fn rpn(self) -> Option<RuleView> {
        match (parse_infix(self.lhs), parse_infix(self.rhs)) {
            (Some(l), Some(r)) => Some(
                RuleView { lhs: l.postfix(), rhs: r.postfix(), is_equivalent: self.is_equivalent },
            ),
            _ => None,
        }
    }
}

/// The token that a character of a rule line writes, if it writes one.
pub open spec fn token_of(c: char) -> Option<Token> {
    if is_letter(c) {
        Some(Token::of_fact(c))
    } else if c == '!' {
        Some(Token::of_op(Operand::Not))
    } else if c == '+' {
        Some(Token::of_op(Operand::And))
    } else if c == '^' {
        Some(Token::of_op(Operand::Xor))
    } else if c == '|' {
        Some(Token::of_op(Operand::Or))
    } else if c == '(' {
        Some(Token::of_op(Operand::Opening))
    } else if c == ')' {
        Some(Token::of_op(Operand::Closing))
    } else {
        None
    }
}

/// The tokens that a run of characters writes, one for each, if each
/// writes one.
pub open spec fn tokens_of(chars: Seq<char>) -> Option<Seq<Token>> {
    if forall|i: int| 0 <= i < chars.len() ==> token_of(#[trigger] chars[i]) is Some {
        Some(chars.map_values(|c: char| token_of(c).unwrap()))
    } else {
        None
    }
}

/// The position of the first `=` or `<`, where an arrow has to begin; the
/// length of the sequence where there is none.
pub open spec fn arrow_start(chars: Seq<char>) -> int
    decreases chars.len(),
{
    if chars.len() == 0 {
        0
    } else if chars[0] == '=' || chars[0] == '<' {
        0
    } else {
        1 + arrow_start(chars.drop_first())
    }
}

/// Whether `=>` stands at position `at`.
pub open spec fn plain_arrow_at(chars: Seq<char>, at: int) -> bool {
    0 <= at && at + 2 <= chars.len() && chars[at] == '=' && chars[at + 1] == '>'
}

/// Whether `<=>` stands at position `at`.
pub open spec fn double_arrow_at(chars: Seq<char>, at: int) -> bool {
    0 <= at && at + 3 <= chars.len() && chars[at] == '<' && chars[at + 1] == '=' && chars[at + 2]
        == '>'
}

/// Whether the tokens are facts joined by `+` and nothing else.
pub open spec fn is_conjunction(tokens: Seq<Token>) -> bool {
    &&& tokens.len() % 2 == 1
    &&& forall|i: int|
        0 <= i < tokens.len() ==> if i % 2 == 0 {
            (#[trigger] tokens[i]).as_fact() is Some
        } else {
            tokens[i] == Token::of_op(Operand::And)
        }
}

/// The rule that a line writes, if it writes one: the rule that its
/// characters write, white space left out.
pub open spec fn parse_rule(line: Seq<char>) -> Option<RuleView> {
    rule_of(stripped(line))
}

/// The rule that characters write, if they write one. The first `=>` or
/// `<=>` parts the antecedent from the consequent; every other character
/// writes a token. The antecedent has to be an expression, the consequent
/// a conjunction of facts.
pub open spec fn rule_of(chars: Seq<char>) -> Option<RuleView> {
    let at = arrow_start(chars);
    let width: int = if double_arrow_at(chars, at) {
        3
    } else if plain_arrow_at(chars, at) {
        2
    } else {
        0
    };
    if width == 0 {
        None
    } else {
        match (
            tokens_of(chars.subrange(0, at)),
            tokens_of(chars.subrange(at + width, chars.len() as int)),
        ) {
            (Some(lhs), Some(rhs)) => if parse_infix(lhs) is Some && is_conjunction(rhs) {
                Some(RuleView { lhs, rhs, is_equivalent: width == 3 })
            } else {
                None
            },
            _ => None,
        }
    }
}

/// Whether a rule is one that some line writes.
pub open spec fn is_written(rule: RuleView) -> bool {
    exists|line: Seq<char>| parse_rule(line) == Some(rule)
}

/// The tokens that characters write hold a fact or an operand, never both,
/// and the facts are letters.
pub proof fn lemma_tokens_of(chars: Seq<char>, k: int)
    requires
        tokens_of(chars) is Some,
        0 <= k < chars.len(),
    ensures
        ({
            let token = tokens_of(chars).unwrap()[k];
            &&& token.fact matches Some(c) ==> is_letter(c) && token.as_fact() == Some(c)
            &&& token.as_fact() == token.fact
        }),
{
    assert(token_of(chars[k]) is Some);
}

/// After a fact of a conjunction, the rest of it is read to its end.
pub proof fn lemma_conjunction_tail(tokens: Seq<Token>, pos: int, left: Expr)
    requires
        is_conjunction(tokens),
        0 <= pos <= tokens.len(),
        pos % 2 == 1,
    ensures
        parse_tail(tokens, pos, 2, left) matches Some((_, next)) && next == tokens.len(),
    decreases tokens.len() - pos,
{
    if pos < tokens.len() {
        assert(tokens[pos] == Token::of_op(Operand::And));
        let c = tokens[pos + 1].as_fact().unwrap();
        assert(parse_unary(tokens, pos + 1) == Some((Expr::Fact(c), pos + 2)));
        assert(parse_level(tokens, pos + 1, 3) == Some((Expr::Fact(c), pos + 2)));
        lemma_conjunction_tail(
            tokens,
            pos + 2,
            Expr::Binary(Connective::And, Box::new(left), Box::new(Expr::Fact(c))),
        );
    }
}

/// A conjunction of facts is an expression.
pub proof fn lemma_conjunction_parses(tokens: Seq<Token>)
    requires
        is_conjunction(tokens),
    ensures
        parse_infix(tokens) is Some,
{
    let c = tokens[0].as_fact().unwrap();
    let n = tokens.len() as int;
    assert(parse_unary(tokens, 0) == Some((Expr::Fact(c), 1int)));
    assert(parse_level(tokens, 0, 3) == Some((Expr::Fact(c), 1int)));
    lemma_conjunction_tail(tokens, 1, Expr::Fact(c));
    let (e, _) = parse_tail(tokens, 1, 2, Expr::Fact(c)).unwrap();
    assert(parse_level(tokens, 0, 2) == Some((e, n)));
    assert(parse_tail(tokens, n, 1, e) == Some((e, n)));
    assert(parse_level(tokens, 0, 1) == Some((e, n)));
    assert(parse_tail(tokens, n, 0, e) == Some((e, n)));
    assert(parse_level(tokens, 0, 0) == Some((e, n)));
}

/// Tokens that hold a fact or an operand, never both, refer to the facts
/// that they are.
pub proof fn lemma_names_has_fact(tokens: Seq<Token>, letter: char)
    requires
        forall|k: int| 0 <= k < tokens.len() ==> (#[trigger] tokens[k]).as_fact() == tokens[k].fact,
    ensures
        names(tokens, 0, tokens.len() as int, letter) == has_fact(tokens, letter),
{
    if names(tokens, 0, tokens.len() as int, letter) {
        let k = choose|k: int|
            0 <= k < tokens.len() && 0 <= k < tokens.len() && (#[trigger] tokens[k]).as_fact()
                == Some(letter);
        assert(tokens[k].fact == Some(letter));
    }
    if has_fact(tokens, letter) {
        let k = choose|k: int| 0 <= k < tokens.len() && (#[trigger] tokens[k]).fact == Some(letter);
        assert(tokens[k].as_fact() == Some(letter));
    }
}

/// A rule that a line writes can be put in postfix form. Its antecedent
/// is then the postfix form of the expression that the line writes, which
/// mentions only facts, and its consequent names the same facts as before.
pub proof fn lemma_written_rule(rule: RuleView)
    requires
        is_written(rule),
    ensures
        ({
            &&& rule.rpn() matches Some(postfix)
            &&& postfix.is_equivalent == rule.is_equivalent
            &&& parse_postfix(postfix.lhs) == parse_infix(rule.lhs)
            &&& parse_postfix(postfix.lhs) matches Some(e)
            &&& forall|c: char| e.mentions(c) ==> is_letter(c)
            &&& forall|c: char| postfix.implies(c) == rule.implies(c)
            &&& forall|c: char| rule.implies(c) ==> is_letter(c)
        }),
{
    let line = choose|line: Seq<char>| parse_rule(line) == Some(rule);
    let chars = stripped(line);
    let at = arrow_start(chars);
    let width: int = if double_arrow_at(chars, at) {
        3
    } else {
        2
    };
    let left = chars.subrange(0, at);
    let right = chars.subrange(at + width, chars.len() as int);
    assert(tokens_of(left) == Some(rule.lhs));
    assert(tokens_of(right) == Some(rule.rhs));
    lemma_conjunction_parses(rule.rhs);
    let e = parse_infix(rule.lhs).unwrap();
    let conj = parse_infix(rule.rhs).unwrap();
    let postfix = rule.rpn().unwrap();
    lemma_parse_postfix(postfix.lhs, e);
    lemma_parse_level_names(rule.lhs, 0, 0);
    lemma_parse_level_names(rule.rhs, 0, 0);
    assert forall|k: int| 0 <= k < rule.rhs.len() implies (#[trigger] rule.rhs[k]).as_fact()
        == rule.rhs[k].fact by {
        lemma_tokens_of(right, k);
    }
    assert forall|c: char| e.mentions(c) implies is_letter(c) by {
        let k = choose|k: int|
            0 <= k < rule.lhs.len() && 0 <= k < rule.lhs.len() && (#[trigger] rule.lhs[k]).as_fact()
                == Some(c);
        lemma_tokens_of(left, k);
    }
    assert forall|c: char| postfix.implies(c) == rule.implies(c) by {
        lemma_postfix_facts(conj, c);
        lemma_names_has_fact(rule.rhs, c);
    }
    assert forall|c: char| rule.implies(c) implies is_letter(c) by {
        let k = choose|k: int| 0 <= k < rule.rhs.len() && (#[trigger] rule.rhs[k]).fact == Some(c);
        lemma_tokens_of(right, k);
    }
}

/// An implication or an equivalence, from an expression to a conjunction
/// of facts.
#[derive(Clone, Debug, PartialEq, Eq)]
pub struct Rule {
    pub lhs: Vec<Token>,
    pub rhs: Vec<Token>,
    pub is_equivalent: bool,
}

impl View for Rule {
    type V = RuleView;

    open spec fn view(&self) -> RuleView {
        RuleView { lhs: self.lhs@, rhs: self.rhs@, is_equivalent: self.is_equivalent }
    }
}

fn token_for(c: char) -> (token: Option<Token>)
    ensures
        token == token_of(c),
{
    if 'A' <= c && c <= 'Z' {
        Some(Token { operand: None, fact: Some(c) })
    } else if c == '!' {
        Some(Token::new_op(Operand::Not))
    } else if c == '+' {
        Some(Token::new_op(Operand::And))
    } else if c == '^' {
        Some(Token::new_op(Operand::Xor))
    } else if c == '|' {
        Some(Token::new_op(Operand::Or))
    } else if c == '(' {
        Some(Token::new_op(Operand::Opening))
    } else if c == ')' {
        Some(Token::new_op(Operand::Closing))
    } else {
        None
    }
}

/// The tokens that the characters from `from` up to `to` write.
fn tokenize(chars: &Vec<char>, from: usize, to: usize) -> (tokens: Option<Vec<Token>>)
    requires
        from <= to <= chars.len(),
    ensures
        match tokens_of(chars@.subrange(from as int, to as int)) {
            Some(t) => tokens is Some && tokens->0@ == t,
            None => tokens is None,
        },
{
    let ghost part = chars@.subrange(from as int, to as int);
    let mut tokens: Vec<Token> = Vec::new();
    let mut i: usize = from;
    while i < to
        invariant
            from <= i <= to <= chars.len(),
            part == chars@.subrange(from as int, to as int),
            tokens@.len() == i - from,
            forall|j: int| 0 <= j < i - from ==> token_of(#[trigger] part[j]) == Some(tokens@[j]),
        decreases to - i,
    {
        assert(part[i - from] == chars@[i as int]);
        match token_for(chars[i]) {
            Some(token) => tokens.push(token),
            None => {
                return None;
            },
        }
        i += 1;
    }
    assert(tokens@ =~= part.map_values(|c: char| token_of(c).unwrap()));
    Some(tokens)
}

/// Whether the tokens are facts joined by `+` and nothing else.
fn check_conjunction(tokens: &Vec<Token>) -> (b: bool)
    ensures
        b == is_conjunction(tokens@),
{
    let n = tokens.len();
    if n % 2 != 1 {
        return false;
    }
    let mut i: usize = 0;
    while i < n
        invariant
            n == tokens.len(),
            i <= n,
            forall|j: int|
                0 <= j < i ==> if j % 2 == 0 {
                    (#[trigger] tokens@[j]).as_fact() is Some
                } else {
                    tokens@[j] == Token::of_op(Operand::And)
                },
        decreases n - i,
    {
        let token = tokens[i];
        let fits = if i % 2 == 0 {
            token.operand.is_none() && token.fact.is_some()
        } else {
            token.fact.is_none() && match token.operand {
                Some(op) => op == Operand::And,
                None => false,
            }
        };
        if !fits {
            return false;
        }
        i += 1;
    }
    true
}

impl Rule {
    /// The rule without tokens.
    pub fn new() -> (rule: Rule)
        ensures
            rule@ == (RuleView { lhs: Seq::empty(), rhs: Seq::empty(), is_equivalent: false }),
    {
        Rule { lhs: Vec::new(), rhs: Vec::new(), is_equivalent: false }
    }

    /// Rewrites both sides in postfix form. A rule of which a side does
    /// not write an expression is refused and left as it was.
    pub fn to_rpn(&mut self) -> (r: Result<(), Error>)
        ensures
            match old(self)@.rpn() {
                Some(rule) => r is Ok && final(self)@ == rule,
                None => r == Err::<(), Error>(Error::ParseError) && *final(self) == *old(self),
            },
            r is Ok ==> keeps_tokens(old(self).lhs@, final(self).lhs@) && keeps_tokens(
                old(self).rhs@,
                final(self).rhs@,
            ),
    {
        let lhs = match apply_on_vec(&self.lhs) {
            Ok(tokens) => tokens,
            Err(e) => {
                return Err(e);
            },
        };
        let rhs = match apply_on_vec(&self.rhs) {
            Ok(tokens) => tokens,
            Err(e) => {
                return Err(e);
            },
        };
        self.lhs = lhs;
        self.rhs = rhs;
        Ok(())
    }

    /// Appends a token to the antecedent where `side` is `Lhs`, else to
    /// the consequent.
    pub fn push(&mut self, side: &Side, operand: Option<Operand>, fact: Option<&Fact>)
        ensures
            final(self).is_equivalent == old(self).is_equivalent,
            ({
                let token = Token {
                    operand,
                    fact: match fact {
                        Some(f) => Some(f.letter),
                        None => None,
                    },
                };
                if *side == Side::Lhs {
                    final(self).lhs@ == old(self).lhs@.push(token) && final(self).rhs@ == old(
                        self,
                    ).rhs@
                } else {
                    final(self).rhs@ == old(self).rhs@.push(token) && final(self).lhs@ == old(
                        self,
                    ).lhs@
                }
            }),
    {
        if *side == Side::Lhs {
            self.lhs.push(Token::new(operand, fact));
        } else {
            self.rhs.push(Token::new(operand, fact));
        }
    }

    /// Whether the rule's consequent names the fact of the given letter.
    pub fn implies_fact(&self, letter: char) -> (b: bool)
        ensures
            b == self@.implies(letter),
    {
        let n = self.rhs.len();
        let mut i: usize = 0;
        while i < n
            invariant
                n == self.rhs.len(),
                i <= n,
                forall|j: int| 0 <= j < i ==> (#[trigger] self.rhs@[j]).fact != Some(letter),
            decreases n - i,
        {
            match self.rhs[i].fact {
                Some(c) => {
                    if c == letter {
                        return true;
                    }
                },
                None => {},
            }
            i += 1;
        }
        false
    }

    /// Reads a rule from a line.
    pub fn parse(line: &str) -> (r: Result<Rule, Error>)
        ensures
            match parse_rule(line@) {
                Some(rule) => r is Ok && r->Ok_0@ == rule,
                None => r == Err::<Rule, Error>(Error::ParseError),
            },
    {
        let chars = significant(line);
        Rule::parse_chars(&chars)
    }

    /// Reads a rule from the characters of a line, white space left out.
    pub fn parse_chars(chars: &Vec<char>) -> (r: Result<Rule, Error>)
        ensures
            match rule_of(chars@) {
                Some(rule) => r is Ok && r->Ok_0@ == rule,
                None => r == Err::<Rule, Error>(Error::ParseError),
            },
    {
        let n = chars.len();
        let mut at: usize = 0;
        assert(chars@.skip(0) == chars@);
        while at < n && chars[at] != '=' && chars[at] != '<'
            invariant
                n == chars.len(),
                at <= n,
                arrow_start(chars@) == at + arrow_start(chars@.skip(at as int)),
            decreases n - at,
        {
            assert(chars@.skip(at as int).drop_first() == chars@.skip(at + 1));
            at += 1;
        }
        assert(arrow_start(chars@) == at);
        let width: usize = if n - at >= 3 && chars[at] == '<' && chars[at + 1] == '=' && chars[at
            + 2] == '>' {
            3
        } else if n - at >= 2 && chars[at] == '=' && chars[at + 1] == '>' {
            2
        } else {
            return Err(Error::ParseError);
        };
        let lhs = match tokenize(chars, 0, at) {
            Some(tokens) => tokens,
            None => {
                return Err(Error::ParseError);
            },
        };
        let rhs = match tokenize(chars, at + width, n) {
            Some(tokens) => tokens,
            None => {
                return Err(Error::ParseError);
            },
        };
        if !check_conjunction(&rhs) {
            return Err(Error::ParseError);
        }
        if apply_on_vec(&lhs).is_err() {
            return Err(Error::ParseError);
        }
        Ok(Rule { lhs, rhs, is_equivalent: width == 3 })
    }
}

/// The rules of a file, in the order in which the file gives them.
#[derive(Clone, Debug, PartialEq, Eq)]
pub struct Rules {
    pub rules: Vec<Rule>,
}

impl View for Rules {
    type V = Seq<RuleView>;

    open spec fn view(&self) -> Seq<RuleView> {
        self.rules@.map_values(|rule: Rule| rule@)
    }
}

/// The rules with both sides in postfix form, where every one can be.
pub open spec fn all_rpn(rules: Seq<RuleView>) -> Option<Seq<RuleView>> {
    if forall|i: int| 0 <= i < rules.len() ==> (#[trigger] rules[i]).rpn() is Some {
        Some(rules.map_values(|rule: RuleView| rule.rpn().unwrap()))
    } else {
        None
    }
}

impl Rules {
    /// The rule set without rules.
    pub fn new() -> (rules: Rules)
        ensures
            rules@ == Seq::<RuleView>::empty(),
    {
        let rules = Rules { rules: Vec::new() };
        assert(rules@ =~= Seq::<RuleView>::empty());
        rules
    }

    pub fn len(&self) -> (n: usize)
        ensures
            n == self@.len(),
    {
        self.rules.len()
    }

    pub fn get(&self, i: usize) -> (rule: &Rule)
        requires
            i < self@.len(),
        ensures
            rule@ == self@[i as int],
    {
        &self.rules[i]
    }

    /// Reads a rule from a line and appends it. A line that writes no rule
    /// is refused, and the rules stay as they were.
    pub fn set_rule(&mut self, line: &str) -> (r: Result<(), Error>)
        ensures
            match parse_rule(line@) {
                Some(rule) => r is Ok && final(self)@ == old(self)@.push(rule),
                None => r == Err::<(), Error>(Error::ParseError) && final(self)@ == old(self)@,
            },
    {
        match Rule::parse(line) {
            Ok(rule) => {
                self.rules.push(rule);
                assert(self@ =~= old(self)@.push(rule@));
                Ok(())
            },
            Err(e) => Err(e),
        }
    }

    /// Rewrites both sides of every rule in postfix form. Where a side of
    /// some rule does not write an expression, the rules are refused and
    /// stay as they were.
    pub fn as_reverse_polish_notation(&mut self) -> (r: Result<(), Error>)
        ensures
            match all_rpn(old(self)@) {
                Some(rules) => r is Ok && final(self)@ == rules,
                None => r == Err::<(), Error>(Error::ParseError) && final(self)@ == old(self)@,
            },
    {
        let n = self.rules.len();
        let mut converted: Vec<Rule> = Vec::new();
        let mut i: usize = 0;
        while i < n
            invariant
                n == self.rules.len(),
                i <= n,
                self == old(self),
                converted.len() == i,
                forall|j: int| 0 <= j < i ==> (#[trigger] self@[j]).rpn() == Some(converted@[j]@),
            decreases n - i,
        {
            let rule = &self.rules[i];
            assert(rule@ == self@[i as int]);
            let lhs = match apply_on_vec(&rule.lhs) {
                Ok(tokens) => tokens,
                Err(e) => {
                    return Err(e);
                },
            };
            let rhs = match apply_on_vec(&rule.rhs) {
                Ok(tokens) => tokens,
                Err(e) => {
                    return Err(e);
                },
            };
            converted.push(Rule { lhs, rhs, is_equivalent: rule.is_equivalent });
            i += 1;
        }
        self.rules = converted;
        assert(self@ =~= all_rpn(old(self)@).unwrap());
        Ok(())
    }
}

} // verus!
