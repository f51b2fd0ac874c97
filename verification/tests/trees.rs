use expert_system::error::Error;
use expert_system::facts::{Fact, Facts};
use expert_system::graph::{Graph, Node};
use expert_system::rpn::apply_on_vec;
use expert_system::rule::{Rule, Rules};
use expert_system::solver::{compute, tree_solver};
use expert_system::token::{Operand, Token};
use expert_system::tree_builder::{generate_tree, push_fact, push_operand, push_rec};

fn fact(letter: char) -> Token {
    Token::new_fact(&Fact::new(letter))
}

fn op(operand: Operand) -> Token {
    Token::new_op(operand)
}

fn node(content: Token, parent: Option<usize>, lhs: Option<usize>, rhs: Option<usize>) -> Node {
    Node { content, parent, lhs, rhs }
}

fn postfix(antecedent: &str) -> Vec<Token> {
    let line = format!("{} => Z", antecedent);
    let rule = Rule::parse(&line).unwrap();
    apply_on_vec(&rule.lhs).unwrap()
}

fn registry(initial: &str) -> Facts {
    let mut facts = Facts::new();
    assert_eq!(facts.set_initial_facts(initial), Ok(()));
    facts
}

#[test]
fn new_graph_is_empty() {
    let graph = Graph::new();
    assert_eq!(graph.len(), 0);
    assert_eq!(graph.get(0), None);
    assert!(!graph.is_tree(0));
}

#[test]
fn add_and_link_nodes() {
    let mut graph = Graph::new();
    assert_eq!(graph.add(op(Operand::And), None), 0);
    assert_eq!(graph.add(fact('B'), Some(0)), 1);
    assert_eq!(graph.add(fact('A'), Some(0)), 2);
    assert!(!graph.is_tree(0));
    graph.link(0, Some(2), Some(1));
    assert_eq!(graph.len(), 3);
    assert_eq!(graph.get(0), Some(&node(op(Operand::And), None, Some(2), Some(1))));
    assert_eq!(graph.get(1), Some(&node(fact('B'), Some(0), None, None)));
    assert_eq!(graph.get(2), Some(&node(fact('A'), Some(0), None, None)));
    assert_eq!(graph.get(3), None);
    assert!(graph.is_tree(0));
    assert!(graph.is_tree(1));
    assert!(!graph.is_tree(3));
}

#[test]
fn push_operand_and_fact_append() {
    let mut graph = Graph::new();
    assert_eq!(push_operand(&mut graph, op(Operand::Not), None), 0);
    assert_eq!(push_fact(&mut graph, fact('Q'), Some(0)), 1);
    assert_eq!(
        graph.nodes,
        vec![node(op(Operand::Not), None, None, None), node(fact('Q'), Some(0), None, None)]
    );
}

#[test]
fn tree_of_a_single_fact() {
    let graph = generate_tree(&postfix("A")).unwrap();
    assert_eq!(graph.nodes, vec![node(fact('A'), None, None, None)]);
}

#[test]
fn tree_of_a_negation_keeps_its_child_on_the_left() {
    let graph = generate_tree(&postfix("!A")).unwrap();
    assert_eq!(
        graph.nodes,
        vec![node(op(Operand::Not), None, Some(1), None), node(fact('A'), Some(0), None, None)]
    );
}

#[test]
fn tree_has_its_root_first_then_right_then_left() {
    let graph = generate_tree(&postfix("A + (B | C)")).unwrap();
    assert_eq!(
        graph.nodes,
        vec![
            node(op(Operand::And), None, Some(4), Some(1)),
            node(op(Operand::Or), Some(0), Some(3), Some(2)),
            node(fact('C'), Some(1), None, None),
            node(fact('B'), Some(1), None, None),
            node(fact('A'), Some(0), None, None),
        ]
    );
    assert!(graph.is_tree(0));
}

#[test]
fn tree_of_a_longer_expression() {
    let graph = generate_tree(&postfix("!(A ^ B) | C")).unwrap();
    assert_eq!(
        graph.nodes,
        vec![
            node(op(Operand::Or), None, Some(2), Some(1)),
            node(fact('C'), Some(0), None, None),
            node(op(Operand::Not), Some(0), Some(3), None),
            node(op(Operand::Xor), Some(2), Some(5), Some(4)),
            node(fact('B'), Some(3), None, None),
            node(fact('A'), Some(3), None, None),
        ]
    );
}

#[test]
fn push_rec_reads_one_expression_backwards() {
    let tokens = vec![fact('A'), fact('B'), fact('C'), op(Operand::And)];
    let mut graph = Graph::new();
    assert_eq!(push_rec(&mut graph, &tokens, 4, None), Ok(1));
    assert_eq!(graph.len(), 3);
    assert_eq!(push_rec(&mut graph, &tokens, 1, Some(0)), Ok(0));
    assert_eq!(graph.len(), 4);
    assert_eq!(graph.get(3), Some(&node(fact('A'), Some(0), None, None)));
    assert_eq!(push_rec(&mut graph, &tokens, 0, None), Err(Error::MalformedExpression));
}

#[test]
fn malformed_postfix_is_refused() {
    assert_eq!(generate_tree(&vec![]), Err(Error::MalformedExpression));
    assert_eq!(generate_tree(&vec![op(Operand::And)]), Err(Error::MalformedExpression));
    assert_eq!(generate_tree(&vec![op(Operand::Not)]), Err(Error::MalformedExpression));
    assert_eq!(generate_tree(&vec![fact('A'), op(Operand::Or)]), Err(Error::MalformedExpression));
    assert_eq!(generate_tree(&vec![fact('A'), fact('B')]), Err(Error::MalformedExpression));
    assert_eq!(
        generate_tree(&vec![fact('A'), op(Operand::And), fact('B')]),
        Err(Error::MalformedExpression)
    );
    assert_eq!(
        generate_tree(&vec![fact('A'), fact('B'), op(Operand::Opening)]),
        Err(Error::MalformedExpression)
    );
    assert_eq!(
        generate_tree(&vec![fact('A'), op(Operand::Closing)]),
        Err(Error::MalformedExpression)
    );
    assert_eq!(generate_tree(&vec![Token::new(None, None)]), Err(Error::MalformedExpression));
    assert_eq!(
        generate_tree(&vec![Token::new(Some(Operand::Not), Some(&Fact::new('A')))]),
        Err(Error::MalformedExpression)
    );
}

#[test]
fn compute_applies_the_operand() {
    for (a, b) in [(false, false), (false, true), (true, false), (true, true)] {
        assert_eq!(compute(Operand::Not, a, b), !a);
        assert_eq!(compute(Operand::And, a, b), a & b);
        assert_eq!(compute(Operand::Or, a, b), a | b);
        assert_eq!(compute(Operand::Xor, a, b), a ^ b);
    }
}

#[test]
fn tree_solver_evaluates_over_the_registry() {
    let rules = Rules::new();
    let graph = generate_tree(&postfix("A + (B | C)")).unwrap();
    let mut facts = registry("=AC");
    assert_eq!(tree_solver(&graph, 0, &mut facts, &rules), Ok(true));
    assert_eq!(tree_solver(&graph, 1, &mut facts, &rules), Ok(true));
    assert_eq!(tree_solver(&graph, 3, &mut facts, &rules), Ok(false));
    let mut facts = registry("=A");
    assert_eq!(tree_solver(&graph, 0, &mut facts, &rules), Ok(false));
    let mut facts = registry("=BC");
    assert_eq!(tree_solver(&graph, 0, &mut facts, &rules), Ok(false));
}

#[test]
fn tree_solver_settles_the_facts_it_reads() {
    let rules = Rules::new();
    let graph = generate_tree(&postfix("!A ^ B")).unwrap();
    let mut facts = registry("=B");
    assert_eq!(tree_solver(&graph, 0, &mut facts, &rules), Ok(false));
    assert_eq!(
        *facts.get('A'),
        Fact { state: false, determined: true, queried: false, letter: 'A' }
    );
    assert_eq!(*facts.get('C'), Fact::new('C'));
}

#[test]
fn tree_solver_refuses_an_incomplete_tree() {
    let rules = Rules::new();
    let mut graph = Graph::new();
    graph.add(op(Operand::And), None);
    graph.add(fact('A'), Some(0));
    graph.link(0, Some(1), None);
    let mut facts = Facts::new();
    assert_eq!(tree_solver(&graph, 0, &mut facts, &rules), Err(Error::MalformedExpression));
    assert_eq!(*facts.get('A'), Fact::new('A'));
    assert_eq!(tree_solver(&graph, 7, &mut facts, &rules), Err(Error::MalformedExpression));
    let mut looped = Graph::new();
    looped.add(op(Operand::Not), None);
    looped.link(0, Some(0), None);
    assert_eq!(tree_solver(&looped, 0, &mut facts, &rules), Err(Error::MalformedExpression));
    let mut paren = Graph::new();
    paren.add(op(Operand::Opening), None);
    assert_eq!(tree_solver(&paren, 0, &mut facts, &rules), Err(Error::MalformedExpression));
}


#[test]
fn negation_looks_at_its_left_child_only() {
    let rules = Rules::new();
    let mut graph = Graph::new();
    graph.add(op(Operand::Not), None);
    graph.add(fact('A'), Some(0));
    graph.add(fact('B'), Some(0));
    graph.link(0, Some(1), Some(2));
    assert!(graph.is_tree(0));
    let mut facts = registry("=B");
    assert_eq!(tree_solver(&graph, 0, &mut facts, &rules), Ok(true));
    assert_eq!(
        *facts.get('A'),
        Fact { state: false, determined: true, queried: false, letter: 'A' }
    );
    let mut facts = registry("=A");
    assert_eq!(tree_solver(&graph, 0, &mut facts, &rules), Ok(false));
    let mut dangling = Graph::new();
    dangling.add(op(Operand::Not), None);
    dangling.add(fact('A'), Some(0));
    dangling.link(0, Some(1), Some(9));
    let mut facts = registry("=");
    assert_eq!(tree_solver(&dangling, 0, &mut facts, &rules), Ok(true));
    let mut missing = Graph::new();
    missing.add(op(Operand::Not), None);
    missing.add(fact('A'), Some(0));
    missing.link(0, None, Some(1));
    assert!(!missing.is_tree(0));
    assert_eq!(tree_solver(&missing, 0, &mut facts, &rules), Err(Error::MalformedExpression));
}

#[test]
fn tree_built_leaves_first_is_evaluated() {
    let rules = Rules::new();
    let mut graph = Graph::new();
    graph.add(fact('A'), Some(2));
    graph.add(fact('B'), Some(2));
    graph.add(op(Operand::And), Some(3));
    graph.add(op(Operand::Not), None);
    graph.link(2, Some(0), Some(1));
    graph.link(3, Some(2), None);
    assert!(graph.is_tree(3));
    assert!(graph.is_tree(2));
    let mut facts = registry("=AB");
    assert_eq!(tree_solver(&graph, 2, &mut facts, &rules), Ok(true));
    assert_eq!(tree_solver(&graph, 3, &mut facts, &rules), Ok(false));
    let mut facts = registry("=A");
    assert_eq!(tree_solver(&graph, 3, &mut facts, &rules), Ok(true));
    assert_eq!(
        *facts.get('B'),
        Fact { state: false, determined: true, queried: false, letter: 'B' }
    );
}

#[test]
fn negation_of_an_earlier_leaf_is_evaluated() {
    let rules = Rules::new();
    let mut graph = Graph::new();
    graph.add(fact('A'), Some(1));
    graph.add(op(Operand::Not), None);
    graph.link(1, Some(0), None);
    let mut facts = registry("=");
    assert_eq!(tree_solver(&graph, 1, &mut facts, &rules), Ok(true));
    let mut facts = registry("=A");
    assert_eq!(tree_solver(&graph, 1, &mut facts, &rules), Ok(false));
}

#[test]
fn connective_may_use_one_node_twice() {
    let rules = Rules::new();
    let mut graph = Graph::new();
    graph.add(op(Operand::Xor), None);
    graph.add(fact('A'), Some(0));
    graph.link(0, Some(1), Some(1));
    assert!(graph.is_tree(0));
    let mut facts = registry("=A");
    assert_eq!(tree_solver(&graph, 0, &mut facts, &rules), Ok(false));
}

#[test]
fn nodes_that_lead_back_to_themselves_hold_no_tree() {
    let rules = Rules::new();
    let mut graph = Graph::new();
    graph.add(op(Operand::Not), None);
    graph.add(op(Operand::Not), Some(0));
    graph.link(0, Some(1), None);
    graph.link(1, Some(0), None);
    assert!(!graph.is_tree(0));
    assert!(!graph.is_tree(1));
    let mut facts = Facts::new();
    assert_eq!(tree_solver(&graph, 0, &mut facts, &rules), Err(Error::MalformedExpression));
    let mut wide = Graph::new();
    wide.add(op(Operand::Or), None);
    wide.add(fact('A'), Some(0));
    wide.link(0, Some(1), Some(0));
    assert!(!wide.is_tree(0));
    assert_eq!(tree_solver(&wide, 0, &mut facts, &rules), Err(Error::MalformedExpression));
    assert_eq!(*facts.get('A'), Fact::new('A'));
    assert!(wide.is_tree_within(1, 1));
    assert!(!wide.is_tree_within(1, 0));
    let deep = generate_tree(&postfix("!!A")).unwrap();
    assert!(deep.is_tree_within(0, 3));
    assert!(!deep.is_tree_within(0, 2));
}

#[test]
fn refused_postfix_leaves_no_tree_where_it_would_begin() {
    let mut graph = Graph::new();
    let tokens = vec![fact('A'), op(Operand::And)];
    assert_eq!(push_rec(&mut graph, &tokens, 2, None), Err(Error::MalformedExpression));
    assert!(!graph.is_tree(0));
    assert!(graph.is_tree(1));
    let mut graph = Graph::new();
    assert_eq!(
        push_rec(&mut graph, &vec![op(Operand::Not)], 1, None),
        Err(Error::MalformedExpression)
    );
    assert!(!graph.is_tree(0));
}
