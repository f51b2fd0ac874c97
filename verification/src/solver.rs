//! The backward-chaining resolver and the tree evaluator.

use vstd::prelude::*;

use crate::checker::{infinite_rule_loop, lemma_spare_push, spare};
use crate::error::Error;
use crate::expr::{connective_of, parse_postfix, Expr};
use crate::facts::{is_fact_letter, is_letter, letter_index, Fact, Facts};
use crate::graph::{lemma_laid_out_tree, lemma_tree_children, tree_at, Graph};
use crate::meaning::{
    holds, lemma_eval_value, lemma_faithful_self, lemma_resolve_is_value, lemma_solve_outcome,
    solve_outcome, value,
};
use crate::resolution::{
    grows, lemma_eval_grows, lemma_grows_self, lemma_resolve_grows, lemma_resolve_names_circle,
    on_circle,
};
use crate::rule::{RuleView, Rules};
use crate::token::Operand;
use crate::tree_builder::generate_tree;

verus! {

/// What resolving a fact does to the registry, and what it gives back.
///
/// A fact whose value is final has that value. A fact that is on the path
/// of the facts being resolved is refused: it would justify itself.
/// Otherwise every rule whose consequent names the fact is evaluated, in
/// the order of the rules. A rule whose antecedent holds says that the fact
/// is true; an equivalence whose antecedent does not hold says that it is
/// false; where the rules say both, they contradict each other. A fact of
/// which no rule says that it is true is false.
pub open spec fn resolve_spec(
    rules: Seq<RuleView>,
    facts: Seq<Fact>,
    path: Seq<char>,
    letter: char,
) -> (Seq<Fact>, Result<bool, Error>)
    decreases spare(path), 0int, 0int,
{
    let at = letter_index(letter);
    if !is_letter(letter) {
        (facts, Err(Error::MalformedExpression))
    } else if facts[at].determined {
        (facts, Ok(facts[at].state))
    } else if path.contains(letter) {
        (facts, Err(Error::CircularDependency(letter)))
    } else {
        proof {
            lemma_spare_push(path, letter);
        }
        let (after, said) = justify_spec(rules, facts, path.push(letter), letter, 0, false, false);
        match said {
            Err(e) => (after, Err(e)),
            Ok((yes, no)) => if yes && no {
                (after, Err(Error::Contradiction(letter)))
            } else {
                (after.update(at, after[at].settled(yes)), Ok(yes))
            },
        }
    }
}

/// What the rules from the `i`-th on say of a fact: whether one of them
/// says that it is true, and whether one says that it is false, beside
/// what `yes` and `no` hold of the rules before them. The first failure
/// ends the evaluation.
pub open spec fn justify_spec(
    rules: Seq<RuleView>,
    facts: Seq<Fact>,
    path: Seq<char>,
    letter: char,
    i: int,
    yes: bool,
    no: bool,
) -> (Seq<Fact>, Result<(bool, bool), Error>)
    decreases spare(path), 2 + rules.len() - i, 0int,
{
    if i < 0 || i >= rules.len() {
        (facts, Ok((yes, no)))
    } else if !rules[i].implies(letter) {
        justify_spec(rules, facts, path, letter, i + 1, yes, no)
    } else {
        match parse_postfix(rules[i].lhs) {
            None => (facts, Err(Error::MalformedExpression)),
            Some(e) => {
                let (after, value) = eval_spec(rules, facts, path, e);
                match value {
                    Err(e) => (after, Err(e)),
                    Ok(v) => justify_spec(
                        rules,
                        after,
                        path,
                        letter,
                        i + 1,
                        yes || v,
                        no || (rules[i].is_equivalent && !v),
                    ),
                }
            },
        }
    }
}

/// What evaluating an expression does to the registry, and its value: a
/// fact is resolved, a negation negates, a connective takes the value of
/// its left side first and then that of its right side.
pub open spec fn eval_spec(rules: Seq<RuleView>, facts: Seq<Fact>, path: Seq<char>, e: Expr) -> (
    Seq<Fact>,
    Result<bool, Error>,
)
    decreases spare(path), 1int, e.size(),
{
    match e {
        Expr::Fact(c) => resolve_spec(rules, facts, path, c),
        Expr::Not(a) => {
            let (after, value) = eval_spec(rules, facts, path, *a);
            match value {
                Err(e) => (after, Err(e)),
                Ok(v) => (after, Ok(!v)),
            }
        },
        Expr::Binary(k, l, r) => {
            let (between, left) = eval_spec(rules, facts, path, *l);
            match left {
                Err(e) => (between, Err(e)),
                Ok(a) => {
                    let (after, right) = eval_spec(rules, between, path, *r);
                    match right {
                        Err(e) => (after, Err(e)),
                        Ok(b) => (after, Ok(k.apply(a, b))),
                    }
                },
            }
        },
    }
}

/// What resolving the queries from the `i`-th on, one after the other,
/// does to the registry. The first failure ends the run.
pub open spec fn solve_spec(rules: Seq<RuleView>, facts: Seq<Fact>, queries: Seq<char>, i: int) -> (
    Seq<Fact>,
    Result<(), Error>,
)
    decreases queries.len() - i,
{
    if i < 0 || i >= queries.len() {
        (facts, Ok(()))
    } else {
        let (after, r) = resolve_spec(rules, facts, Seq::empty(), queries[i]);
        match r {
            Err(e) => (after, Err(e)),
            Ok(_) => solve_spec(rules, after, queries, i + 1),
        }
    }
}

/// The value of a connective, or of a negation, which looks at `lhs` only.
pub fn compute(operand: Operand, lhs: bool, rhs: bool) -> (b: bool)
    requires
        operand == Operand::Not || connective_of(operand) is Some,
    ensures
        b == match connective_of(operand) {
            Some(k) => k.apply(lhs, rhs),
            None => !lhs,
        },
{
    match operand {
        Operand::Not => !lhs,
        Operand::And => lhs && rhs,
        Operand::Or => lhs || rhs,
        _ => lhs != rhs,
    }
}

/// Evaluates the complete tree under `cur`.
fn eval_node(
    graph: &Graph,
    cur: usize,
    facts: &mut Facts,
    rules: &Rules,
    path: &mut Vec<char>,
) -> (r: Result<bool, Error>)
    requires
        old(facts).wf(),
        tree_at(graph@, cur as int) is Some,
    ensures
        final(facts).wf(),
        final(facts).is_stable == old(facts).is_stable,
        final(path)@ == old(path)@,
        (final(facts)@, r) == eval_spec(
            rules@,
            old(facts)@,
            old(path)@,
            tree_at(graph@, cur as int).unwrap(),
        ),
    decreases spare(old(path)@), 1int, tree_at(graph@, cur as int).unwrap().size(),
{
    proof {
        lemma_tree_children(graph@, cur as int);
    }
    let node = graph.nodes[cur];
    let token = node.content;
    match (token.fact, token.operand) {
        (Some(c), _) => resolve_in(facts, rules, path, c),
        (None, Some(Operand::Not)) => {
            let value = match eval_node(graph, node.lhs.unwrap(), facts, rules, path) {
                Ok(value) => value,
                Err(e) => {
                    return Err(e);
                },
            };
            Ok(compute(Operand::Not, value, false))
        },
        (None, Some(op)) => {
            let left = match eval_node(graph, node.lhs.unwrap(), facts, rules, path) {
                Ok(value) => value,
                Err(e) => {
                    return Err(e);
                },
            };
            let right = match eval_node(graph, node.rhs.unwrap(), facts, rules, path) {
                Ok(value) => value,
                Err(e) => {
                    return Err(e);
                },
            };
            Ok(compute(op, left, right))
        },
        (None, None) => Err(Error::MalformedExpression),
    }
}

/// Resolves a fact while the facts on `path` are being resolved.
fn resolve_in(facts: &mut Facts, rules: &Rules, path: &mut Vec<char>, letter: char) -> (r: Result<
    bool,
    Error,
>)
    requires
        old(facts).wf(),
    ensures
        final(facts).wf(),
        final(facts).is_stable == old(facts).is_stable,
        final(path)@ == old(path)@,
        (final(facts)@, r) == resolve_spec(rules@, old(facts)@, old(path)@, letter),
    decreases spare(old(path)@), 0int, 0int,
{
    if !is_fact_letter(letter) {
        return Err(Error::MalformedExpression);
    }
    let known = *facts.get(letter);
    if known.determined {
        return Ok(known.state);
    }
    match infinite_rule_loop(path, letter) {
        Ok(()) => {},
        Err(e) => {
            return Err(e);
        },
    }
    path.push(letter);
    proof {
        lemma_spare_push(old(path)@, letter);
    }
    let n = rules.len();
    let mut yes = false;
    let mut no = false;
    let mut i: usize = 0;
    while i < n
        invariant
            n == rules@.len(),
            i <= n,
            facts.wf(),
            facts.is_stable == old(facts).is_stable,
            is_letter(letter),
            !old(facts)@[letter_index(letter)].determined,
            !old(path)@.contains(letter),
            path@ == old(path)@.push(letter),
            spare(path@) < spare(old(path)@),
            justify_spec(rules@, old(facts)@, path@, letter, 0, false, false) == justify_spec(
                rules@,
                facts@,
                path@,
                letter,
                i as int,
                yes,
                no,
            ),
        decreases n - i,
    {
        let rule = rules.get(i);
        if rule.implies_fact(letter) {
            let graph = match generate_tree(&rule.lhs) {
                Ok(graph) => graph,
                Err(e) => {
                    path.pop();
                    assert(path@ == old(path)@);
                    return Err(e);
                },
            };
            proof {
                lemma_laid_out_tree(graph@, 0, None, parse_postfix(rule@.lhs).unwrap());
            }
            match eval_node(&graph, 0, facts, rules, path) {
                Ok(value) => {
                    if value {
                        yes = true;
                    } else if rule.is_equivalent {
                        no = true;
                    }
                },
                Err(e) => {
                    path.pop();
                    assert(path@ == old(path)@);
                    return Err(e);
                },
            }
        }
        i += 1;
    }
    path.pop();
    assert(path@ == old(path)@);
    if yes && no {
        return Err(Error::Contradiction(letter));
    }
    let at = facts.get_index(letter);
    let fact = facts.fact_arr[at];
    facts.fact_arr[at] = Fact {
        state: yes,
        determined: true,
        queried: fact.queried,
        letter: fact.letter,
    };
    Ok(yes)
}

/// Resolves a fact by backward chaining and gives the value that the
/// fact has by the rules. The value of every fact that the resolution
/// settles is kept in the registry.
pub fn resolve(facts: &mut Facts, rules: &Rules, letter: char) -> (r: Result<bool, Error>)
    requires
        old(facts).wf(),
    ensures
        final(facts).wf(),
        final(facts).is_stable == old(facts).is_stable,
        (final(facts)@, r) == resolve_spec(rules@, old(facts)@, Seq::empty(), letter),
        r == value(rules@, old(facts)@, Seq::empty(), letter),
        grows(old(facts)@, final(facts)@),
        r matches Ok(v) ==> final(facts).fact(letter) == old(facts).fact(letter).settled(v),
        r matches Err(Error::CircularDependency(x)) ==> on_circle(rules@, old(facts)@, x),
{
    proof {
        lemma_resolve_names_circle(rules@, facts@, Seq::empty(), letter);
        lemma_resolve_is_value(rules@, facts@, letter);
        lemma_resolve_grows(rules@, facts@, Seq::empty(), letter);
        let after = resolve_spec(rules@, facts@, Seq::empty(), letter).0;
        let at = letter_index(letter);
        assert(after[at] == facts@[at] || !facts@[at].determined);
    }
    let mut path: Vec<char> = Vec::new();
    assert(path@ == Seq::<char>::empty());
    resolve_in(facts, rules, &mut path, letter)
}

/// Evaluates the tree under `cur`, resolving the facts at its leaves.
/// A tree with an incomplete node is refused before anything is resolved.
pub fn tree_solver(graph: &Graph, cur: usize, facts: &mut Facts, rules: &Rules) -> (r: Result<
    bool,
    Error,
>)
    requires
        old(facts).wf(),
    ensures
        final(facts).wf(),
        final(facts).is_stable == old(facts).is_stable,
        match tree_at(graph@, cur as int) {
            Some(e) => {
                &&& (final(facts)@, r) == eval_spec(rules@, old(facts)@, Seq::empty(), e)
                &&& r == holds(rules@, old(facts)@, Seq::empty(), e)
            },
            None => r == Err::<bool, Error>(Error::MalformedExpression) && final(facts)@ == old(
                facts,
            )@,
        },
        grows(old(facts)@, final(facts)@),
{
    proof {
        lemma_grows_self(facts@);
    }
    if !graph.is_tree(cur) {
        return Err(Error::MalformedExpression);
    }
    proof {
        let e = tree_at(graph@, cur as int).unwrap();
        lemma_faithful_self(rules@, facts@);
        lemma_eval_value(rules@, facts@, facts@, Seq::empty(), e);
        lemma_eval_grows(rules@, facts@, Seq::empty(), e);
    }
    let mut path: Vec<char> = Vec::new();
    assert(path@ == Seq::<char>::empty());
    eval_node(graph, cur, facts, rules, &mut path)
}

/// The facts of the given letters as the registry holds them.
pub fn get_plain_solved_queries(queries: Vec<char>, facts: &Facts) -> (solved: Vec<Fact>)
    requires
        forall|i: int| 0 <= i < queries@.len() ==> is_letter(#[trigger] queries@[i]),
    ensures
        solved@ == queries@.map_values(|c: char| facts.fact(c)),
{
    let n = queries.len();
    let mut solved: Vec<Fact> = Vec::new();
    let mut i: usize = 0;
    while i < n
        invariant
            n == queries@.len(),
            i <= n,
            forall|j: int| 0 <= j < queries@.len() ==> is_letter(#[trigger] queries@[j]),
            solved@ == queries@.take(i as int).map_values(|c: char| facts.fact(c)),
        decreases n - i,
    {
        solved.push(facts.get(queries[i]).copy());
        assert(solved@ =~= queries@.take(i + 1).map_values(|c: char| facts.fact(c)));
        i += 1;
    }
    assert(queries@.take(n as int) == queries@);
    solved
}

/// Resolves the queried facts one after the other and gives each of them
/// with the value that it has by the rules from the registry as it stood.
/// The first query without a value ends the run with its failure.
pub fn solve(queries: Vec<char>, rules: Rules, facts: &mut Facts) -> (r: Result<Vec<Fact>, Error>)
    requires
        old(facts).wf(),
    ensures
        final(facts).wf(),
        final(facts).is_stable == old(facts).is_stable,
        final(facts)@ == solve_spec(rules@, old(facts)@, queries@, 0).0,
        match solve_spec(rules@, old(facts)@, queries@, 0).1 {
            Ok(_) => r is Ok && r->Ok_0@ == queries@.map_values(|c: char| final(facts).fact(c)),
            Err(e) => r == Err::<Vec<Fact>, Error>(e),
        },
        grows(old(facts)@, final(facts)@),
        match r {
            Ok(solved) => forall|i: int|
                0 <= i < solved@.len() ==> {
                    &&& (#[trigger] solved@[i]).determined
                    &&& solved@[i].letter == queries@[i]
                    &&& value(rules@, old(facts)@, Seq::empty(), queries@[i]) == Ok::<bool, Error>(
                        solved@[i].state,
                    )
                },
            Err(e) => exists|k: int|
                0 <= k < queries@.len() && value(
                    rules@,
                    old(facts)@,
                    Seq::empty(),
                    #[trigger] queries@[k],
                ) == Err::<bool, Error>(e) && forall|j: int|
                    0 <= j < k ==> value(rules@, old(facts)@, Seq::empty(), #[trigger] queries@[j])
                        is Ok,
        },
        r matches Err(Error::CircularDependency(x)) ==> on_circle(rules@, old(facts)@, x),
{
    proof {
        lemma_solve_outcome(rules@, old(facts)@, queries@);
    }
    let n = queries.len();
    let mut i: usize = 0;
    while i < n
        invariant
            n == queries@.len(),
            i <= n,
            facts.wf(),
            facts.is_stable == old(facts).is_stable,
            solve_outcome(rules@, old(facts)@, queries@),
            forall|j: int| 0 <= j < i ==> is_letter(#[trigger] queries@[j]),
            solve_spec(rules@, old(facts)@, queries@, 0) == solve_spec(
                rules@,
                facts@,
                queries@,
                i as int,
            ),
        decreases n - i,
    {
        match resolve(facts, &rules, queries[i]) {
            Ok(_) => {},
            Err(e) => {
                return Err(e);
            },
        }
        i += 1;
    }
    Ok(get_plain_solved_queries(queries, facts))
}

} // verus!
