use expert_system::error::Error;
use expert_system::expert_system::queries_of_parsed;
use expert_system::facts::{is_fact_letter, Fact, Facts};
use expert_system::text::declared_chars;

#[test]
fn new_fact_is_unknown() {
    let fact = Fact::new('Q');
    assert_eq!(fact, Fact { state: false, determined: false, queried: false, letter: 'Q' });
}

#[test]
fn copy_keeps_every_field() {
    let fact = Fact { state: true, determined: true, queried: true, letter: 'Z' };
    assert_eq!(fact.copy(), fact);
    let other = Fact { state: false, determined: true, queried: false, letter: 'B' };
    assert_eq!(other.copy(), other);
}

#[test]
fn registry_holds_the_alphabet_in_order() {
    let facts = Facts::new();
    assert!(!facts.is_stable);
    let mut letter = 'A';
    for i in 0..26 {
        assert_eq!(facts.fact_arr[i], Fact::new(letter));
        assert_eq!(facts.get_index(letter), i);
        assert_eq!(*facts.get(letter), Fact::new(letter));
        letter = char::from_u32(letter as u32 + 1).unwrap();
    }
}

#[test]
fn fact_letters_are_the_capitals() {
    assert!(is_fact_letter('A'));
    assert!(is_fact_letter('M'));
    assert!(is_fact_letter('Z'));
    assert!(!is_fact_letter('a'));
    assert!(!is_fact_letter('@'));
    assert!(!is_fact_letter('['));
    assert!(!is_fact_letter('É'));
}

#[test]
fn initial_facts_become_true_and_final() {
    let mut facts = Facts::new();
    assert_eq!(facts.set_initial_facts("=AC"), Ok(()));
    assert_eq!(
        *facts.get('A'),
        Fact { state: true, determined: true, queried: false, letter: 'A' }
    );
    assert_eq!(
        *facts.get('C'),
        Fact { state: true, determined: true, queried: false, letter: 'C' }
    );
    assert_eq!(*facts.get('B'), Fact::new('B'));
}

#[test]
fn initial_facts_line_may_be_empty() {
    let mut facts = Facts::new();
    assert_eq!(facts.set_initial_facts("="), Ok(()));
    assert_eq!(facts.set_initial_facts(""), Ok(()));
    for i in 0..26 {
        assert!(!facts.fact_arr[i].determined);
        assert!(!facts.fact_arr[i].state);
    }
}

#[test]
fn initial_facts_skip_white_space_and_stop_at_comment() {
    let mut facts = Facts::new();
    assert_eq!(facts.set_initial_facts("= A \t B # C is not set, nor 1"), Ok(()));
    assert!(facts.get('A').state);
    assert!(facts.get('B').state);
    assert!(!facts.get('C').state);
    assert!(!facts.get('C').determined);
}

#[test]
fn initial_facts_pass_over_unicode_white_space() {
    let mut facts = Facts::new();
    assert_eq!(facts.set_initial_facts("=\u{a0}A\u{2003}B\u{3000}"), Ok(()));
    assert!(facts.get('A').state);
    assert!(facts.get('B').state);
}

#[test]
fn initial_facts_refuse_other_characters() {
    let mut facts = Facts::new();
    assert_eq!(facts.set_initial_facts("=AB1C"), Err(Error::ParseError));
    assert!(facts.get('A').state);
    assert!(facts.get('B').state);
    assert!(!facts.get('C').state);
    let mut facts = Facts::new();
    assert_eq!(facts.set_initial_facts("=a"), Err(Error::ParseError));
    let mut facts = Facts::new();
    assert_eq!(facts.set_initial_facts("==A"), Err(Error::ParseError));
}

#[test]
fn initial_facts_marker_is_the_first_mark_of_the_line() {
    let mut facts = Facts::new();
    assert_eq!(facts.set_initial_facts(" =A"), Ok(()));
    assert!(facts.get('A').state);
    let mut facts = Facts::new();
    assert_eq!(facts.set_initial_facts("\t  = B C"), Ok(()));
    assert!(facts.get('B').state);
    assert!(facts.get('C').state);
    let mut facts = Facts::new();
    assert_eq!(facts.set_initial_facts(" AB"), Ok(()));
    assert!(!facts.get('A').state);
    assert!(facts.get('B').state);
    let mut facts = Facts::new();
    assert_eq!(facts.set_initial_facts(" = =A"), Err(Error::ParseError));
    assert!(!facts.get('A').state);
}

#[test]
fn queries_marker_is_the_first_mark_of_the_line() {
    let mut facts = Facts::new();
    assert_eq!(facts.set_queries("  ?A B"), Ok(()));
    assert!(facts.get('A').queried);
    assert!(facts.get('B').queried);
    let mut facts = Facts::new();
    assert_eq!(facts.set_queries(" ? ?A"), Err(Error::ParseError));
    assert!(!facts.get('A').queried);
}

#[test]
fn letters_that_a_line_makes_true() {
    let mut facts = Facts::new();
    assert_eq!(facts.initial_letters(&vec!['C', 'A', '#', 'B']), vec!['C', 'A']);
    assert_eq!(facts.initial_letters(&vec!['C', 'A', 'C', 'B']), vec!['C', 'A']);
    assert_eq!(facts.initial_letters(&vec!['B', '1', 'A']), vec!['B']);
    assert_eq!(facts.initial_letters(&vec![]), Vec::<char>::new());
    assert_eq!(*facts.get('C'), Fact::new('C'));
    assert_eq!(facts.declare_initial(&vec!['A']), Ok(()));
    assert_eq!(facts.initial_letters(&vec!['Z', 'Y', 'A', 'X']), vec!['Z', 'Y']);
    assert_eq!(facts.initial_letters(&vec!['A', 'Z']), Vec::<char>::new());
}

#[test]
fn initial_fact_declared_twice_is_refused() {
    let mut facts = Facts::new();
    assert_eq!(facts.set_initial_facts("=ABA"), Err(Error::DuplicateDeclaration('A')));
    assert!(facts.get('B').state);
    let mut facts = Facts::new();
    assert_eq!(facts.set_initial_facts("=A"), Ok(()));
    assert_eq!(facts.set_initial_facts("=BA"), Err(Error::DuplicateDeclaration('A')));
    assert!(facts.get('B').state);
}

#[test]
fn queries_are_marked() {
    let mut facts = Facts::new();
    assert_eq!(facts.set_queries("?BCG"), Ok(()));
    assert!(facts.get('B').queried);
    assert!(facts.get('C').queried);
    assert!(facts.get('G').queried);
    assert!(!facts.get('A').queried);
    assert!(!facts.get('B').determined);
    assert!(!facts.get('B').state);
}

#[test]
fn queries_skip_white_space_and_stop_at_comment() {
    let mut facts = Facts::new();
    assert_eq!(facts.set_queries("? X  Y #Z"), Ok(()));
    assert!(facts.get('X').queried);
    assert!(facts.get('Y').queried);
    assert!(!facts.get('Z').queried);
}

#[test]
fn queries_refuse_other_characters() {
    let mut facts = Facts::new();
    assert_eq!(facts.set_queries("?A?"), Err(Error::ParseError));
    assert!(facts.get('A').queried);
    let mut facts = Facts::new();
    assert_eq!(facts.set_queries("?a"), Err(Error::ParseError));
}

#[test]
fn query_declared_twice_is_refused() {
    let mut facts = Facts::new();
    assert_eq!(facts.set_queries("?ABB"), Err(Error::DuplicateDeclaration('B')));
    let mut facts = Facts::new();
    assert_eq!(facts.set_queries("?A"), Ok(()));
    assert_eq!(facts.set_queries("?A"), Err(Error::DuplicateDeclaration('A')));
}

#[test]
fn a_fact_may_be_initial_and_queried() {
    let mut facts = Facts::new();
    assert_eq!(facts.set_initial_facts("=A"), Ok(()));
    assert_eq!(facts.set_queries("?A"), Ok(()));
    assert_eq!(*facts.get('A'), Fact { state: true, determined: true, queried: true, letter: 'A' });
}

#[test]
fn queried_letters_come_in_alphabetical_order() {
    let mut facts = Facts::new();
    assert_eq!(queries_of_parsed(&facts), Vec::<char>::new());
    assert_eq!(facts.set_queries("?ZCA"), Ok(()));
    assert_eq!(queries_of_parsed(&facts), vec!['A', 'C', 'Z']);
}


#[test]
fn declaration_lines_lose_marker_and_white_space() {
    assert_eq!(declared_chars("=A B\t# C"), vec!['A', 'B', '#', 'C']);
    assert_eq!(declared_chars("?"), Vec::<char>::new());
    assert_eq!(declared_chars(""), Vec::<char>::new());
    assert_eq!(declared_chars(" =A"), vec!['A']);
    assert_eq!(declared_chars("\t ? Q # R"), vec!['Q', '#', 'R']);
    assert_eq!(declared_chars("AB"), vec!['B']);
    assert_eq!(declared_chars("  \u{a0}"), Vec::<char>::new());
}

#[test]
fn initial_facts_from_characters() {
    let mut facts = Facts::new();
    assert_eq!(facts.declare_initial(&vec!['A', 'Z', '#', 'A', '1']), Ok(()));
    assert!(facts.get('A').state);
    assert!(facts.get('Z').determined);
    assert_eq!(facts.declare_initial(&vec!['B', ' ']), Err(Error::ParseError));
    assert!(facts.get('B').state);
    assert_eq!(facts.declare_initial(&vec!['Z']), Err(Error::DuplicateDeclaration('Z')));
    assert_eq!(facts.declare_initial(&vec![]), Ok(()));
}

#[test]
fn queries_from_characters() {
    let mut facts = Facts::new();
    assert_eq!(facts.declare_queries(&vec!['Q', 'R', '#', 'Q']), Ok(()));
    assert!(facts.get('Q').queried);
    assert!(facts.get('R').queried);
    assert_eq!(facts.declare_queries(&vec!['S', '?']), Err(Error::ParseError));
    assert!(facts.get('S').queried);
    assert_eq!(facts.declare_queries(&vec!['R']), Err(Error::DuplicateDeclaration('R')));
}
