use expert_system::facts::Fact;
use expert_system::options::Options;
use expert_system::token::{Operand, Token};

#[test]
fn token_constructors_fill_one_side() {
    let fact = Fact::new('K');
    assert_eq!(Token::new_fact(&fact), Token { operand: None, fact: Some('K') });
    assert_eq!(Token::new_op(Operand::Xor), Token { operand: Some(Operand::Xor), fact: None });
    assert_eq!(Token::new(Some(Operand::Or), None), Token::new_op(Operand::Or));
    assert_eq!(Token::new(None, Some(&fact)), Token::new_fact(&fact));
    assert_eq!(
        Token::new(Some(Operand::Not), Some(&fact)),
        Token { operand: Some(Operand::Not), fact: Some('K') }
    );
}

#[test]
fn token_kinds() {
    let fact = Fact::new('A');
    let empty = Token::new(None, None);
    assert!(empty.is_empty());
    assert!(!empty.is_fact());
    assert!(!empty.is_operand());
    let leaf = Token::new_fact(&fact);
    assert!(!leaf.is_empty());
    assert!(leaf.is_fact());
    assert!(!leaf.is_operand());
    let op = Token::new_op(Operand::And);
    assert!(!op.is_empty());
    assert!(!op.is_fact());
    assert!(op.is_operand());
}

#[test]
fn cumulable_operands_are_not_and_parentheses() {
    assert!(Token::new_op(Operand::Not).is_cumulable());
    assert!(Token::new_op(Operand::Opening).is_cumulable());
    assert!(Token::new_op(Operand::Closing).is_cumulable());
    assert!(!Token::new_op(Operand::And).is_cumulable());
    assert!(!Token::new_op(Operand::Xor).is_cumulable());
    assert!(!Token::new_op(Operand::Or).is_cumulable());
    assert!(!Token::new_fact(&Fact::new('A')).is_cumulable());
    assert!(!Token::new(None, None).is_cumulable());
}

#[test]
fn operand_characters() {
    assert_eq!(Token::new_op(Operand::Not).get_op_char(), '!');
    assert_eq!(Token::new_op(Operand::And).get_op_char(), '+');
    assert_eq!(Token::new_op(Operand::Xor).get_op_char(), '^');
    assert_eq!(Token::new_op(Operand::Or).get_op_char(), '|');
    assert_eq!(Token::new_op(Operand::Opening).get_op_char(), '(');
    assert_eq!(Token::new_op(Operand::Closing).get_op_char(), ')');
    assert_eq!(Token::new_fact(&Fact::new('A')).get_op_char(), '@');
}

#[test]
fn tokens_compare_by_fact_then_by_operand() {
    let a = Token::new_fact(&Fact::new('A'));
    let b = Token::new_fact(&Fact::new('B'));
    let and = Token::new_op(Operand::And);
    let or = Token::new_op(Operand::Or);
    assert!(a.cmp_tok(&a));
    assert!(!a.cmp_tok(&b));
    assert!(and.cmp_tok(&and));
    assert!(!and.cmp_tok(&or));
    assert!(!a.cmp_tok(&and));
    assert!(!and.cmp_tok(&a));
    assert!(!Token::new(None, None).cmp_tok(&Token::new(None, None)));
    let both_a = Token::new(Some(Operand::And), Some(&Fact::new('A')));
    let both_b = Token::new(Some(Operand::And), Some(&Fact::new('B')));
    assert!(both_a.cmp_tok(&a));
    assert!(!both_a.cmp_tok(&both_b));
    assert!(both_a.cmp_tok(&and));
}

#[test]
fn options_start_switched_off() {
    let options = Options::new();
    assert_eq!(
        options,
        Options {
            graph: false,
            interactive: false,
            reasoning: false,
            file: false,
            log: false,
            comment: false,
        }
    );
    assert_eq!(Options::default(), options);
}

#[test]
fn options_load_switches_on_by_letter() {
    let mut options = Options::new();
    options.load("-gi");
    assert!(options.graph);
    assert!(options.interactive);
    assert!(!options.reasoning);
    assert!(!options.file);
    assert!(!options.log);
    assert!(!options.comment);
    options.load("-xfz");
    assert!(options.graph);
    assert!(options.interactive);
    assert!(options.file);
    assert!(!options.log);
    options.load("rlc");
    assert!(options.reasoning);
    assert!(options.log);
    assert!(options.comment);
    options.load("");
    assert_eq!(
        options,
        Options {
            graph: true,
            interactive: true,
            reasoning: true,
            file: true,
            log: true,
            comment: true,
        }
    );
}
