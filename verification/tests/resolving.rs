use expert_system::checker::infinite_rule_loop;
use expert_system::error::Error;
use expert_system::facts::{Fact, Facts};
use expert_system::rule::{Rule, Rules};
use expert_system::solver::{get_plain_solved_queries, resolve, solve};
use expert_system::token::{Operand, Token};

fn rules_of(lines: &[&str]) -> Rules {
    let mut rules = Rules::new();
    for line in lines {
        assert_eq!(rules.set_rule(line), Ok(()));
    }
    assert_eq!(rules.as_reverse_polish_notation(), Ok(()));
    rules
}

fn registry(initial: &str) -> Facts {
    let mut facts = Facts::new();
    assert_eq!(facts.set_initial_facts(initial), Ok(()));
    facts
}

fn settled(letter: char, state: bool) -> Fact {
    Fact { state, determined: true, queried: false, letter }
}

#[test]
fn path_check_names_the_fact_that_comes_back() {
    assert_eq!(infinite_rule_loop(&vec![], 'A'), Ok(()));
    assert_eq!(infinite_rule_loop(&vec!['B', 'C'], 'A'), Ok(()));
    assert_eq!(infinite_rule_loop(&vec!['B', 'A', 'C'], 'A'), Err(Error::CircularDependency('A')));
    assert_eq!(infinite_rule_loop(&vec!['C'], 'C'), Err(Error::CircularDependency('C')));
}

#[test]
fn initial_fact_resolves_to_true() {
    let rules = rules_of(&["B => A"]);
    let mut facts = registry("=A");
    assert_eq!(resolve(&mut facts, &rules, 'A'), Ok(true));
    assert_eq!(*facts.get('B'), Fact::new('B'));
}

#[test]
fn fact_without_a_rule_is_false() {
    let rules = rules_of(&["A => B"]);
    let mut facts = registry("=");
    assert_eq!(resolve(&mut facts, &rules, 'C'), Ok(false));
    assert_eq!(*facts.get('C'), settled('C', false));
    assert_eq!(*facts.get('A'), Fact::new('A'));
    assert_eq!(*facts.get('B'), Fact::new('B'));
    let none = Rules::new();
    let mut facts = Facts::new();
    assert_eq!(resolve(&mut facts, &none, 'Z'), Ok(false));
    assert_eq!(*facts.get('Z'), settled('Z', false));
}

#[test]
fn resolving_twice_gives_the_same_value() {
    let rules = rules_of(&["A | B => C", "C + !D => E"]);
    let mut facts = registry("=B");
    assert_eq!(resolve(&mut facts, &rules, 'E'), Ok(true));
    let after = facts.fact_arr;
    assert_eq!(resolve(&mut facts, &rules, 'E'), Ok(true));
    assert_eq!(facts.fact_arr, after);
    assert_eq!(resolve(&mut facts, &rules, 'C'), Ok(true));
    assert_eq!(resolve(&mut facts, &rules, 'D'), Ok(false));
    assert_eq!(resolve(&mut facts, &rules, 'E'), Ok(true));
    assert_eq!(facts.fact_arr, after);
}

#[test]
fn resolution_settles_what_it_reads() {
    let rules = rules_of(&["A + B => C", "D => B"]);
    let mut facts = registry("=AD");
    assert_eq!(resolve(&mut facts, &rules, 'C'), Ok(true));
    assert_eq!(*facts.get('B'), settled('B', true));
    assert_eq!(*facts.get('C'), settled('C', true));
    assert_eq!(*facts.get('E'), Fact::new('E'));
}

#[test]
fn chain_of_rules_is_followed() {
    let rules = rules_of(&["A => B", "B => C", "C => D", "D => E"]);
    let mut facts = registry("=A");
    assert_eq!(resolve(&mut facts, &rules, 'E'), Ok(true));
    let mut facts = registry("=");
    assert_eq!(resolve(&mut facts, &rules, 'E'), Ok(false));
}

#[test]
fn rule_with_several_consequents_justifies_each() {
    let rules = rules_of(&["A => B + C + D"]);
    let mut facts = registry("=A");
    assert_eq!(resolve(&mut facts, &rules, 'B'), Ok(true));
    assert_eq!(resolve(&mut facts, &rules, 'C'), Ok(true));
    assert_eq!(resolve(&mut facts, &rules, 'D'), Ok(true));
}

#[test]
fn cycle_of_two_rules_is_detected() {
    let rules = rules_of(&["A => B", "B => A"]);
    let mut facts = registry("=");
    assert_eq!(resolve(&mut facts, &rules, 'A'), Err(Error::CircularDependency('A')));
    let mut facts = registry("=");
    assert_eq!(resolve(&mut facts, &rules, 'B'), Err(Error::CircularDependency('B')));
}

#[test]
fn fact_that_needs_itself_is_detected() {
    let rules = rules_of(&["A + B => A"]);
    let mut facts = registry("=B");
    assert_eq!(resolve(&mut facts, &rules, 'A'), Err(Error::CircularDependency('A')));
    assert_eq!(*facts.get('A'), Fact::new('A'));
}

#[test]
fn longer_cycle_is_detected() {
    let rules = rules_of(&["C | D => A", "A => B", "!B => C"]);
    let mut facts = registry("=D");
    assert_eq!(resolve(&mut facts, &rules, 'B'), Err(Error::CircularDependency('B')));
    let mut facts = registry("=D");
    assert_eq!(resolve(&mut facts, &rules, 'A'), Err(Error::CircularDependency('A')));
}

#[test]
fn cycle_is_cut_by_an_initial_fact() {
    let rules = rules_of(&["A => B", "B => A"]);
    let mut facts = registry("=A");
    assert_eq!(resolve(&mut facts, &rules, 'B'), Ok(true));
    assert_eq!(resolve(&mut facts, &rules, 'A'), Ok(true));
}

#[test]
fn equivalence_gives_the_value_of_its_antecedent() {
    let rules = rules_of(&["A <=> B"]);
    let mut facts = registry("=A");
    assert_eq!(resolve(&mut facts, &rules, 'B'), Ok(true));
    let mut facts = registry("=");
    assert_eq!(resolve(&mut facts, &rules, 'B'), Ok(false));
    assert_eq!(*facts.get('A'), settled('A', false));
}

#[test]
fn equivalence_does_not_justify_its_antecedent() {
    let rules = rules_of(&["A <=> B"]);
    let mut facts = registry("=B");
    assert_eq!(resolve(&mut facts, &rules, 'A'), Ok(false));
}

#[test]
fn contradiction_between_rules_is_reported() {
    let rules = rules_of(&["A => B", "C <=> B"]);
    let mut facts = registry("=A");
    assert_eq!(resolve(&mut facts, &rules, 'B'), Err(Error::Contradiction('B')));
    assert!(!facts.get('B').determined);
    let rules = rules_of(&["A <=> B", "C <=> B"]);
    let mut facts = registry("=C");
    assert_eq!(resolve(&mut facts, &rules, 'B'), Err(Error::Contradiction('B')));
    let mut facts = registry("=AC");
    assert_eq!(resolve(&mut facts, &rules, 'B'), Ok(true));
    let mut facts = registry("=");
    assert_eq!(resolve(&mut facts, &rules, 'B'), Ok(false));
}

#[test]
fn plain_rule_that_does_not_hold_contradicts_nothing() {
    let rules = rules_of(&["A => B", "C <=> B"]);
    let mut facts = registry("=C");
    assert_eq!(resolve(&mut facts, &rules, 'B'), Ok(true));
    let mut facts = registry("=");
    assert_eq!(resolve(&mut facts, &rules, 'B'), Ok(false));
}

#[test]
fn failure_in_an_earlier_rule_comes_first() {
    let rules = rules_of(&["B => A", "A => B", "C => B", "!C <=> B"]);
    let mut facts = registry("=C");
    assert_eq!(resolve(&mut facts, &rules, 'B'), Err(Error::CircularDependency('B')));
}

#[test]
fn rules_in_infix_form_are_malformed_for_the_resolver() {
    let mut rules = Rules::new();
    assert_eq!(rules.set_rule("A + B => C"), Ok(()));
    let mut facts = registry("=AB");
    assert_eq!(resolve(&mut facts, &rules, 'C'), Err(Error::MalformedExpression));
    assert_eq!(resolve(&mut facts, &rules, 'D'), Ok(false));
}

#[test]
fn what_is_no_fact_cannot_be_resolved() {
    let rules = Rules::new();
    let mut facts = Facts::new();
    assert_eq!(resolve(&mut facts, &rules, 'a'), Err(Error::MalformedExpression));
    assert_eq!(resolve(&mut facts, &rules, '+'), Err(Error::MalformedExpression));
    let odd = Rule {
        lhs: vec![Token { operand: None, fact: Some('x') }],
        rhs: vec![Token { operand: None, fact: Some('A') }],
        is_equivalent: false,
    };
    let rules = Rules { rules: vec![odd] };
    assert_eq!(resolve(&mut facts, &rules, 'A'), Err(Error::MalformedExpression));
    let _ = Operand::Not;
}

#[test]
fn solve_answers_each_query_in_turn() {
    let rules = rules_of(&["A + B => C", "!C => D", "E | A => F"]);
    let mut facts = registry("=A");
    let solved = solve(vec!['F', 'C', 'D', 'A'], rules, &mut facts);
    assert_eq!(
        solved,
        Ok(vec![settled('F', true), settled('C', false), settled('D', true), settled('A', true)])
    );
    assert_eq!(*facts.get('B'), settled('B', false));
    assert_eq!(*facts.get('E'), settled('E', false));
}

#[test]
fn solve_answers_do_not_depend_on_the_order_of_the_queries() {
    let lines = ["A | B => C", "C ^ D => E", "!E + C => F", "F <=> G"];
    let forward = solve(vec!['C', 'E', 'F', 'G'], rules_of(&lines), &mut registry("=B")).unwrap();
    let backward = solve(vec!['G', 'F', 'E', 'C'], rules_of(&lines), &mut registry("=B")).unwrap();
    for fact in &forward {
        assert!(backward.contains(fact));
    }
    assert_eq!(forward.len(), backward.len());
}

#[test]
fn solve_stops_at_the_first_failure() {
    let rules = rules_of(&["A => B", "B => A", "C => D"]);
    let mut facts = registry("=C");
    assert_eq!(solve(vec!['D', 'A', 'E'], rules, &mut facts), Err(Error::CircularDependency('A')));
    assert_eq!(*facts.get('D'), settled('D', true));
    assert_eq!(*facts.get('E'), Fact::new('E'));
}

#[test]
fn solve_with_no_query_gives_nothing() {
    let rules = rules_of(&["A => B"]);
    let mut facts = registry("=A");
    assert_eq!(solve(vec![], rules, &mut facts), Ok(vec![]));
    assert_eq!(*facts.get('B'), Fact::new('B'));
}

#[test]
fn plain_copies_are_taken_from_the_registry() {
    let mut facts = registry("=B");
    assert_eq!(facts.set_queries("?AB"), Ok(()));
    assert_eq!(
        get_plain_solved_queries(vec!['B', 'A', 'B'], &facts),
        vec![
            Fact { state: true, determined: true, queried: true, letter: 'B' },
            Fact { state: false, determined: false, queried: true, letter: 'A' },
            Fact { state: true, determined: true, queried: true, letter: 'B' },
        ]
    );
}

#[test]
fn token_state_is_set_in_the_registry() {
    let mut facts = Facts::new();
    let token = Token::new_fact(&Fact::new('H'));
    assert!(token.set_state(&mut facts, true));
    assert_eq!(
        *facts.get('H'),
        Fact { state: true, determined: false, queried: false, letter: 'H' }
    );
    assert!(token.set_state(&mut facts, false));
    assert_eq!(*facts.get('H'), Fact::new('H'));
    assert!(!Token::new_op(Operand::And).set_state(&mut facts, true));
    assert!(!Token::new_fact(&Fact::new('h')).set_state(&mut facts, true));
    assert!(facts.is_sound());
    assert_eq!(Token::new_fact(&Fact::new('H')).symbol(), Some('H'));
    assert_eq!(Token::new_op(Operand::Xor).symbol(), Some('^'));
    assert_eq!(Token::new(None, None).symbol(), None);
}

#[test]
fn registry_soundness_is_checked() {
    let mut facts = Facts::new();
    assert!(facts.is_sound());
    facts.fact_arr[3] = Fact::new('E');
    assert!(!facts.is_sound());
}

#[test]
fn answers_do_not_depend_on_the_order_of_the_rules() {
    let lines = ["A | B => C", "C ^ D => E", "!E + C => F", "F <=> G", "C => H", "H + !F => I"];
    let turned = ["H + !F => I", "C => H", "F <=> G", "!E + C => F", "C ^ D => E", "A | B => C"];
    let asked = vec!['C', 'E', 'F', 'G', 'H', 'I'];
    let back = vec!['I', 'H', 'G', 'F', 'E', 'C'];
    let forward = solve(asked, rules_of(&lines), &mut registry("=B")).unwrap();
    let backward = solve(back, rules_of(&turned), &mut registry("=B")).unwrap();
    assert_eq!(
        forward,
        vec![
            settled('C', true),
            settled('E', true),
            settled('F', false),
            settled('G', false),
            settled('H', true),
            settled('I', true),
        ]
    );
    assert_eq!(backward.len(), 6);
    for fact in &forward {
        assert!(backward.contains(fact));
    }
}
