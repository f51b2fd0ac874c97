use expert_system::error::Error;
use expert_system::facts::Fact;
use expert_system::rpn::apply_on_vec;
use expert_system::rule::{Rule, Rules, Side};
use expert_system::text::significant;
use expert_system::token::{Operand, Token};

fn tokens(text: &str) -> Vec<Token> {
    let mut out = Vec::new();
    for c in text.chars() {
        let token = match c {
            '!' => Token::new_op(Operand::Not),
            '+' => Token::new_op(Operand::And),
            '^' => Token::new_op(Operand::Xor),
            '|' => Token::new_op(Operand::Or),
            '(' => Token::new_op(Operand::Opening),
            ')' => Token::new_op(Operand::Closing),
            ' ' => continue,
            _ => Token::new_fact(&Fact::new(c)),
        };
        out.push(token);
    }
    out
}

#[test]
fn white_space_is_stripped() {
    assert_eq!(significant(" A\t+ B \u{a0}=> C\r\n"), vec!['A', '+', 'B', '=', '>', 'C']);
    assert_eq!(significant(""), Vec::<char>::new());
    assert_eq!(significant(" \t "), Vec::<char>::new());
    assert_eq!(significant("_x_"), vec!['_', 'x', '_']);
}

#[test]
fn postfix_of_a_single_fact() {
    assert_eq!(apply_on_vec(&tokens("A")), Ok(tokens("A")));
}

#[test]
fn postfix_honours_precedence() {
    assert_eq!(apply_on_vec(&tokens("A + B | C")), Ok(tokens("A B + C |")));
    assert_eq!(apply_on_vec(&tokens("A | B + C")), Ok(tokens("A B C + |")));
    assert_eq!(apply_on_vec(&tokens("A ^ B | C + D")), Ok(tokens("A B ^ C D + |")));
    assert_eq!(apply_on_vec(&tokens("A | B ^ C + D")), Ok(tokens("A B C D + ^ |")));
    assert_eq!(apply_on_vec(&tokens("A + B ^ C")), Ok(tokens("A B + C ^")));
    assert_eq!(apply_on_vec(&tokens("A ^ B + C")), Ok(tokens("A B C + ^")));
}

#[test]
fn postfix_joins_to_the_left() {
    assert_eq!(apply_on_vec(&tokens("A + B + C")), Ok(tokens("A B + C +")));
    assert_eq!(apply_on_vec(&tokens("A | B | C")), Ok(tokens("A B | C |")));
    assert_eq!(apply_on_vec(&tokens("A ^ B ^ C")), Ok(tokens("A B ^ C ^")));
}

#[test]
fn postfix_negation_binds_tightest() {
    assert_eq!(apply_on_vec(&tokens("!A + B")), Ok(tokens("A ! B +")));
    assert_eq!(apply_on_vec(&tokens("A + !B")), Ok(tokens("A B ! +")));
    assert_eq!(apply_on_vec(&tokens("!!A")), Ok(tokens("A ! !")));
    assert_eq!(apply_on_vec(&tokens("!(A + B)")), Ok(tokens("A B + !")));
    assert_eq!(apply_on_vec(&tokens("!A | !B ^ !C")), Ok(tokens("A ! B ! C ! ^ |")));
}

#[test]
fn postfix_parentheses_override_precedence() {
    assert_eq!(apply_on_vec(&tokens("A + (B | C)")), Ok(tokens("A B C | +")));
    assert_eq!(apply_on_vec(&tokens("(A | B) + C")), Ok(tokens("A B | C +")));
    assert_eq!(apply_on_vec(&tokens("((A))")), Ok(tokens("A")));
    assert_eq!(apply_on_vec(&tokens("A + (B + C)")), Ok(tokens("A B C + +")));
    assert_eq!(
        apply_on_vec(&tokens("(A | (B ^ C)) + !(D | E)")),
        Ok(tokens("A B C ^ | D E | ! +"))
    );
}

#[test]
fn postfix_refuses_unbalanced_parentheses() {
    assert_eq!(apply_on_vec(&tokens("(A + B")), Err(Error::ParseError));
    assert_eq!(apply_on_vec(&tokens("A + B)")), Err(Error::ParseError));
    assert_eq!(apply_on_vec(&tokens(")A(")), Err(Error::ParseError));
    assert_eq!(apply_on_vec(&tokens("()")), Err(Error::ParseError));
    assert_eq!(apply_on_vec(&tokens("((A)")), Err(Error::ParseError));
}

#[test]
fn postfix_refuses_what_is_no_expression() {
    assert_eq!(apply_on_vec(&tokens("")), Err(Error::ParseError));
    assert_eq!(apply_on_vec(&tokens("A +")), Err(Error::ParseError));
    assert_eq!(apply_on_vec(&tokens("+ A")), Err(Error::ParseError));
    assert_eq!(apply_on_vec(&tokens("A B")), Err(Error::ParseError));
    assert_eq!(apply_on_vec(&tokens("A B +")), Err(Error::ParseError));
    assert_eq!(apply_on_vec(&tokens("A ! B")), Err(Error::ParseError));
    assert_eq!(apply_on_vec(&tokens("A + | B")), Err(Error::ParseError));
    assert_eq!(apply_on_vec(&tokens("!")), Err(Error::ParseError));
    assert_eq!(apply_on_vec(&vec![Token::new(None, None)]), Err(Error::ParseError));
    assert_eq!(
        apply_on_vec(&vec![Token::new(Some(Operand::Not), Some(&Fact::new('A')))]),
        Err(Error::ParseError)
    );
}

#[test]
fn new_rule_is_empty() {
    let rule = Rule::new();
    assert_eq!(rule, Rule { lhs: vec![], rhs: vec![], is_equivalent: false });
}

#[test]
fn push_goes_left_only_for_lhs() {
    let mut rule = Rule::new();
    let a = Fact::new('A');
    rule.push(&Side::Lhs, None, Some(&a));
    rule.push(&Side::Lhs, Some(Operand::And), None);
    rule.push(&Side::Rhs, None, Some(&Fact::new('B')));
    rule.push(&Side::Pending, Some(Operand::Or), None);
    rule.push(&Side::Bidirectional, Some(Operand::Not), Some(&a));
    assert_eq!(rule.lhs, tokens("A +"));
    assert_eq!(
        rule.rhs,
        vec![
            Token::new_fact(&Fact::new('B')),
            Token::new_op(Operand::Or),
            Token { operand: Some(Operand::Not), fact: Some('A') },
        ]
    );
    assert!(!rule.is_equivalent);
}

#[test]
fn rule_line_is_split_at_the_arrow() {
    let rule = Rule::parse("A + B => C").unwrap();
    assert_eq!(rule.lhs, tokens("A + B"));
    assert_eq!(rule.rhs, tokens("C"));
    assert!(!rule.is_equivalent);
    let rule = Rule::parse("A|!(B^C)<=>D+E").unwrap();
    assert_eq!(rule.lhs, tokens("A | ! ( B ^ C )"));
    assert_eq!(rule.rhs, tokens("D + E"));
    assert!(rule.is_equivalent);
}

#[test]
fn rule_line_ignores_white_space() {
    let spaced = Rule::parse("  A\t+ B  = >  C ").unwrap();
    assert_eq!(spaced, Rule::parse("A+B=>C").unwrap());
    let wide = Rule::parse("A\u{a0}<\u{2002}=>\u{3000}B").unwrap();
    assert_eq!(wide, Rule::parse("A<=>B").unwrap());
}

#[test]
fn rule_line_refuses_other_characters() {
    assert_eq!(Rule::parse("A + b => C"), Err(Error::ParseError));
    assert_eq!(Rule::parse("A & B => C"), Err(Error::ParseError));
    assert_eq!(Rule::parse("A => C # a comment"), Err(Error::ParseError));
    assert_eq!(Rule::parse("A => C => D"), Err(Error::ParseError));
    assert_eq!(Rule::parse("A > B => C"), Err(Error::ParseError));
    assert_eq!(Rule::parse("A => B <=> C"), Err(Error::ParseError));
}

#[test]
fn rule_line_needs_an_arrow() {
    assert_eq!(Rule::parse("A + B"), Err(Error::ParseError));
    assert_eq!(Rule::parse("A = B"), Err(Error::ParseError));
    assert_eq!(Rule::parse("A <= B"), Err(Error::ParseError));
    assert_eq!(Rule::parse("A < B"), Err(Error::ParseError));
    assert_eq!(Rule::parse("A =< B"), Err(Error::ParseError));
    assert_eq!(Rule::parse(""), Err(Error::ParseError));
}

#[test]
fn rule_consequent_is_a_conjunction_of_facts() {
    assert!(Rule::parse("A => B + C + D").is_ok());
    assert_eq!(Rule::parse("A => B | C"), Err(Error::ParseError));
    assert_eq!(Rule::parse("A => B ^ C"), Err(Error::ParseError));
    assert_eq!(Rule::parse("A => !B"), Err(Error::ParseError));
    assert_eq!(Rule::parse("A => (B)"), Err(Error::ParseError));
    assert_eq!(Rule::parse("A => B +"), Err(Error::ParseError));
    assert_eq!(Rule::parse("A => + B"), Err(Error::ParseError));
    assert_eq!(Rule::parse("A => B C"), Err(Error::ParseError));
    assert_eq!(Rule::parse("A =>"), Err(Error::ParseError));
}

#[test]
fn rule_antecedent_is_an_expression() {
    assert_eq!(Rule::parse("=> B"), Err(Error::ParseError));
    assert_eq!(Rule::parse("A + => B"), Err(Error::ParseError));
    assert_eq!(Rule::parse("(A + B => C"), Err(Error::ParseError));
    assert_eq!(Rule::parse("A + B) => C"), Err(Error::ParseError));
    assert_eq!(Rule::parse("A B => C"), Err(Error::ParseError));
    assert_eq!(Rule::parse("A ! => C"), Err(Error::ParseError));
}

#[test]
fn to_rpn_rewrites_both_sides() {
    let mut rule = Rule::parse("A + (B | C) <=> D + E + F").unwrap();
    assert_eq!(rule.to_rpn(), Ok(()));
    assert_eq!(rule.lhs, tokens("A B C | +"));
    assert_eq!(rule.rhs, tokens("D E + F +"));
    assert!(rule.is_equivalent);
}

#[test]
fn to_rpn_leaves_a_refused_rule_alone() {
    let mut rule = Rule { lhs: tokens("A + B"), rhs: tokens("C ("), is_equivalent: true };
    assert_eq!(rule.to_rpn(), Err(Error::ParseError));
    assert_eq!(rule, Rule { lhs: tokens("A + B"), rhs: tokens("C ("), is_equivalent: true });
    let mut rule = Rule { lhs: tokens("A +"), rhs: tokens("C"), is_equivalent: false };
    assert_eq!(rule.to_rpn(), Err(Error::ParseError));
    assert_eq!(rule.lhs, tokens("A +"));
}

#[test]
fn rule_implies_the_facts_of_its_consequent() {
    let rule = Rule::parse("A + B => C + D").unwrap();
    assert!(rule.implies_fact('C'));
    assert!(rule.implies_fact('D'));
    assert!(!rule.implies_fact('A'));
    assert!(!rule.implies_fact('B'));
    assert!(!rule.implies_fact('+'));
    let mut rule = rule;
    assert_eq!(rule.to_rpn(), Ok(()));
    assert!(rule.implies_fact('C'));
    assert!(rule.implies_fact('D'));
    assert!(!rule.implies_fact('A'));
}

#[test]
fn rules_keep_the_order_of_the_file() {
    let mut rules = Rules::new();
    assert_eq!(rules.len(), 0);
    assert_eq!(rules.set_rule("A => B"), Ok(()));
    assert_eq!(rules.set_rule("this is no rule"), Err(Error::ParseError));
    assert_eq!(rules.set_rule("B | C <=> D"), Ok(()));
    assert_eq!(rules.len(), 2);
    assert_eq!(*rules.get(0), Rule::parse("A => B").unwrap());
    assert_eq!(*rules.get(1), Rule::parse("B | C <=> D").unwrap());
}

#[test]
fn rules_go_to_postfix_together() {
    let mut rules = Rules::new();
    assert_eq!(rules.set_rule("A | B + C => D"), Ok(()));
    assert_eq!(rules.set_rule("!(A ^ B) <=> E + F"), Ok(()));
    assert_eq!(rules.as_reverse_polish_notation(), Ok(()));
    assert_eq!(rules.get(0).lhs, tokens("A B C + |"));
    assert_eq!(rules.get(0).rhs, tokens("D"));
    assert_eq!(rules.get(1).lhs, tokens("A B ^ !"));
    assert_eq!(rules.get(1).rhs, tokens("E F +"));
    assert!(rules.get(1).is_equivalent);
}

#[test]
fn rules_stay_as_they_are_when_one_is_refused() {
    let good = Rule::parse("A + B => C").unwrap();
    let bad = Rule { lhs: tokens("( A"), rhs: tokens("B"), is_equivalent: false };
    let mut rules = Rules { rules: vec![good.clone(), bad.clone()] };
    assert_eq!(rules.as_reverse_polish_notation(), Err(Error::ParseError));
    assert_eq!(rules, Rules { rules: vec![good, bad] });
}


#[test]
fn rule_from_characters() {
    let rule = Rule::parse_chars(&vec!['A', '+', 'B', '<', '=', '>', 'C']).unwrap();
    assert_eq!(rule.lhs, tokens("A + B"));
    assert_eq!(rule.rhs, tokens("C"));
    assert!(rule.is_equivalent);
    assert_eq!(Rule::parse_chars(&vec!['A', ' ', '=', '>', 'C']), Err(Error::ParseError));
    assert_eq!(Rule::parse_chars(&vec!['A', '=', 'C']), Err(Error::ParseError));
    assert_eq!(Rule::parse_chars(&vec![]), Err(Error::ParseError));
}

#[test]
fn postfix_keeps_the_facts_in_order_and_drops_the_parentheses() {
    let infix = tokens("!(A | (B ^ C)) + D + !(E)");
    let postfix = apply_on_vec(&infix).unwrap();
    let letters = |all: &Vec<Token>| -> Vec<char> { all.iter().filter_map(|t| t.fact).collect() };
    assert_eq!(letters(&postfix), vec!['A', 'B', 'C', 'D', 'E']);
    assert_eq!(letters(&postfix), letters(&infix));
    for operand in [Operand::Not, Operand::And, Operand::Xor, Operand::Or] {
        let wanted = Token::new_op(operand);
        let count = |all: &Vec<Token>| all.iter().filter(|t| **t == wanted).count();
        assert_eq!(count(&postfix), count(&infix));
    }
    assert!(!postfix.contains(&Token::new_op(Operand::Opening)));
    assert!(!postfix.contains(&Token::new_op(Operand::Closing)));
    assert_eq!(postfix.len(), infix.len() - 6);
}
