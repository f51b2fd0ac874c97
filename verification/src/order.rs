//! The order of the rules changes no answer: a fact that has a value by
//! the rules has the same value by the same rules in any other order.

use vstd::prelude::*;

use crate::checker::{lemma_spare_push, spare};
use crate::error::Error;
use crate::expr::{parse_postfix, Expr};
use crate::facts::{is_letter, is_registry, letter_index, Fact};
use crate::meaning::{holds, lemma_resolve_is_value, lemma_solve_outcome, said, value};
use crate::rule::RuleView;
use crate::solver::{resolve_spec, solve_spec};

verus! {

/// What a rule says of a fact: nothing where its consequent does not name
/// the fact, else the value of its antecedent, or why it has none.
pub open spec fn verdict(
    rules: Seq<RuleView>,
    facts: Seq<Fact>,
    path: Seq<char>,
    letter: char,
    rule: RuleView,
) -> Option<Result<bool, Error>> {
    if !rule.implies(letter) {
        None
    } else {
        match parse_postfix(rule.lhs) {
            None => Some(Err(Error::MalformedExpression)),
            Some(e) => Some(holds(rules, facts, path, e)),
        }
    }
}

/// Whether every rule from the `i`-th on that speaks of the fact has a
/// value to give.
pub open spec fn all_told(
    rules: Seq<RuleView>,
    facts: Seq<Fact>,
    path: Seq<char>,
    letter: char,
    i: int,
) -> bool {
    forall|k: int|
        i <= k < rules.len() ==> !(verdict(rules, facts, path, letter, #[trigger] rules[k])
            matches Some(Err(_)))
}

/// Whether some rule from the `i`-th on says that the fact is true.
pub open spec fn some_yes(
    rules: Seq<RuleView>,
    facts: Seq<Fact>,
    path: Seq<char>,
    letter: char,
    i: int,
) -> bool {
    exists|k: int|
        i <= k < rules.len() && verdict(rules, facts, path, letter, #[trigger] rules[k]) == Some(
            Ok::<bool, Error>(true),
        )
}

/// Whether some rule from the `i`-th on says that the fact is false: an
/// equivalence whose antecedent does not hold.
pub open spec fn some_no(
    rules: Seq<RuleView>,
    facts: Seq<Fact>,
    path: Seq<char>,
    letter: char,
    i: int,
) -> bool {
    exists|k: int|
        i <= k < rules.len() && (#[trigger] rules[k]).is_equivalent && verdict(
            rules,
            facts,
            path,
            letter,
            rules[k],
        ) == Some(Ok::<bool, Error>(false))
}

/// What the rules say of a fact, told without their order: where every
/// rule that speaks of the fact has a value to give, whether one says
/// that the fact is true and whether one says that it is false; else a
/// failure.
pub proof fn lemma_said_told(
    rules: Seq<RuleView>,
    facts: Seq<Fact>,
    path: Seq<char>,
    letter: char,
    i: int,
    yes: bool,
    no: bool,
)
    requires
        0 <= i,
    ensures
        all_told(rules, facts, path, letter, i) ==> said(rules, facts, path, letter, i, yes, no)
            == Ok::<(bool, bool), Error>(
            (
                yes || some_yes(rules, facts, path, letter, i),
                no || some_no(rules, facts, path, letter, i),
            ),
        ),
        !all_told(rules, facts, path, letter, i) ==> said(rules, facts, path, letter, i, yes, no)
            is Err,
    decreases rules.len() - i,
{
    if i < rules.len() {
        let told = verdict(rules, facts, path, letter, rules[i]);
        let (yes2, no2) = match told {
            Some(Ok(v)) => (yes || v, no || (rules[i].is_equivalent && !v)),
            _ => (yes, no),
        };
        lemma_said_told(rules, facts, path, letter, i + 1, yes2, no2);
        if all_told(rules, facts, path, letter, i + 1) && !(told matches Some(Err(_))) {
            assert(all_told(rules, facts, path, letter, i));
        }
        if !all_told(rules, facts, path, letter, i + 1) {
            let k = choose|k: int|
                i + 1 <= k < rules.len() && (verdict(
                    rules,
                    facts,
                    path,
                    letter,
                    #[trigger] rules[k],
                ) matches Some(Err(_)));
            assert(!all_told(rules, facts, path, letter, i));
        }
        if some_yes(rules, facts, path, letter, i + 1) {
            let k = choose|k: int|
                i + 1 <= k < rules.len() && verdict(rules, facts, path, letter, #[trigger] rules[k])
                    == Some(Ok::<bool, Error>(true));
            assert(some_yes(rules, facts, path, letter, i));
        }
        if some_no(rules, facts, path, letter, i + 1) {
            let k = choose|k: int|
                i + 1 <= k < rules.len() && (#[trigger] rules[k]).is_equivalent && verdict(
                    rules,
                    facts,
                    path,
                    letter,
                    rules[k],
                ) == Some(Ok::<bool, Error>(false));
            assert(some_no(rules, facts, path, letter, i));
        }
        if some_yes(rules, facts, path, letter, i) {
            let k = choose|k: int|
                i <= k < rules.len() && verdict(rules, facts, path, letter, #[trigger] rules[k])
                    == Some(Ok::<bool, Error>(true));
            if k != i {
                assert(some_yes(rules, facts, path, letter, i + 1));
            }
        }
        if some_no(rules, facts, path, letter, i) {
            let k = choose|k: int|
                i <= k < rules.len() && (#[trigger] rules[k]).is_equivalent && verdict(
                    rules,
                    facts,
                    path,
                    letter,
                    rules[k],
                ) == Some(Ok::<bool, Error>(false));
            if k != i {
                assert(some_no(rules, facts, path, letter, i + 1));
            }
        }
        if told == Some(Ok::<bool, Error>(true)) {
            assert(some_yes(rules, facts, path, letter, i));
        }
        if rules[i].is_equivalent && told == Some(Ok::<bool, Error>(false)) {
            assert(some_no(rules, facts, path, letter, i));
        }
    }
}

/// Whether two rule sets hold the same rules, in whatever order and
/// number.
pub open spec fn same_rules(first: Seq<RuleView>, second: Seq<RuleView>) -> bool {
    &&& forall|i: int|
        0 <= i < first.len() ==> exists|j: int|
            0 <= j < second.len() && #[trigger] second[j] == #[trigger] first[i]
    &&& forall|j: int|
        0 <= j < second.len() ==> exists|i: int|
            0 <= i < first.len() && #[trigger] first[i] == #[trigger] second[j]
}

/// A fact that has a value by the rules has the same value by the same
/// rules in another order.
pub proof fn lemma_value_same_rules(
    first: Seq<RuleView>,
    second: Seq<RuleView>,
    facts: Seq<Fact>,
    path: Seq<char>,
    letter: char,
)
    requires
        same_rules(first, second),
        value(first, facts, path, letter) is Ok,
    ensures
        value(second, facts, path, letter) == value(first, facts, path, letter),
    decreases spare(path), 0int, 0int,
{
    if is_letter(letter) && !facts[letter_index(letter)].determined && !path.contains(letter) {
        let longer = path.push(letter);
        lemma_spare_push(path, letter);
        lemma_said_told(first, facts, longer, letter, 0, false, false);
        lemma_said_told(second, facts, longer, letter, 0, false, false);
        assert forall|rule: RuleView, i: int|
            0 <= i < first.len() && rule == #[trigger] first[i] implies #[trigger] verdict(
            second,
            facts,
            longer,
            letter,
            rule,
        ) == verdict(first, facts, longer, letter, rule) by {
            if rule.implies(letter) {
                if let Some(e) = parse_postfix(rule.lhs) {
                    lemma_holds_same_rules(first, second, facts, longer, e);
                }
            }
        }
        assert forall|j: int| 0 <= j < second.len() implies #[trigger] verdict(
            second,
            facts,
            longer,
            letter,
            second[j],
        ) == verdict(first, facts, longer, letter, second[j]) by {
            let i = choose|i: int| 0 <= i < first.len() && #[trigger] first[i] == second[j];
            assert(verdict(second, facts, longer, letter, first[i]) == verdict(
                first,
                facts,
                longer,
                letter,
                first[i],
            ));
        }
        assert(all_told(second, facts, longer, letter, 0)) by {
            assert forall|j: int| 0 <= j < second.len() implies !(verdict(
                second,
                facts,
                longer,
                letter,
                #[trigger] second[j],
            ) matches Some(Err(_))) by {
                let i = choose|i: int| 0 <= i < first.len() && #[trigger] first[i] == second[j];
            }
        }
        if some_yes(first, facts, longer, letter, 0) {
            let i = choose|i: int|
                0 <= i < first.len() && verdict(first, facts, longer, letter, #[trigger] first[i])
                    == Some(Ok::<bool, Error>(true));
            let j = choose|j: int| 0 <= j < second.len() && #[trigger] second[j] == first[i];
            assert(some_yes(second, facts, longer, letter, 0));
        }
        if some_yes(second, facts, longer, letter, 0) {
            let j = choose|j: int|
                0 <= j < second.len() && verdict(
                    second,
                    facts,
                    longer,
                    letter,
                    #[trigger] second[j],
                ) == Some(Ok::<bool, Error>(true));
            let i = choose|i: int| 0 <= i < first.len() && #[trigger] first[i] == second[j];
            assert(some_yes(first, facts, longer, letter, 0));
        }
        if some_no(first, facts, longer, letter, 0) {
            let i = choose|i: int|
                0 <= i < first.len() && (#[trigger] first[i]).is_equivalent && verdict(
                    first,
                    facts,
                    longer,
                    letter,
                    first[i],
                ) == Some(Ok::<bool, Error>(false));
            let j = choose|j: int| 0 <= j < second.len() && #[trigger] second[j] == first[i];
            assert(some_no(second, facts, longer, letter, 0));
        }
        if some_no(second, facts, longer, letter, 0) {
            let j = choose|j: int|
                0 <= j < second.len() && (#[trigger] second[j]).is_equivalent && verdict(
                    second,
                    facts,
                    longer,
                    letter,
                    second[j],
                ) == Some(Ok::<bool, Error>(false));
            let i = choose|i: int| 0 <= i < first.len() && #[trigger] first[i] == second[j];
            assert(some_no(first, facts, longer, letter, 0));
        }
    }
}

/// An expression that has a value by the rules has the same value by the
/// same rules in another order.
pub proof fn lemma_holds_same_rules(
    first: Seq<RuleView>,
    second: Seq<RuleView>,
    facts: Seq<Fact>,
    path: Seq<char>,
    e: Expr,
)
    requires
        same_rules(first, second),
    ensures
        holds(first, facts, path, e) is Ok ==> holds(second, facts, path, e) == holds(
            first,
            facts,
            path,
            e,
        ),
    decreases spare(path), 1int, e.size(),
{
    if holds(first, facts, path, e) is Ok {
        match e {
            Expr::Fact(c) => {
                lemma_value_same_rules(first, second, facts, path, c);
            },
            Expr::Not(a) => {
                lemma_holds_same_rules(first, second, facts, path, *a);
            },
            Expr::Binary(_, l, r) => {
                lemma_holds_same_rules(first, second, facts, path, *l);
                lemma_holds_same_rules(first, second, facts, path, *r);
            },
        }
    }
}

/// A fact that is resolved to a value by the rules is resolved to the
/// same value by the same rules in another order.
pub proof fn lemma_rule_order_free(
    first: Seq<RuleView>,
    second: Seq<RuleView>,
    facts: Seq<Fact>,
    letter: char,
)
    requires
        is_registry(facts),
        same_rules(first, second),
        resolve_spec(first, facts, Seq::empty(), letter).1 is Ok,
    ensures
        resolve_spec(second, facts, Seq::empty(), letter).1 == resolve_spec(
            first,
            facts,
            Seq::empty(),
            letter,
        ).1,
{
    lemma_resolve_is_value(first, facts, letter);
    lemma_resolve_is_value(second, facts, letter);
    lemma_value_same_rules(first, second, facts, Seq::empty(), letter);
}

/// The answers to queries do not depend on the order of the rules nor on
/// the order of the queries: where resolving some queries by some rules
/// succeeds, resolving any of them, in any order, by the same rules in any
/// order succeeds too and settles each with the same value.
pub proof fn lemma_answers_order_free(
    first: Seq<RuleView>,
    second: Seq<RuleView>,
    facts: Seq<Fact>,
    queries: Seq<char>,
    others: Seq<char>,
)
    requires
        is_registry(facts),
        same_rules(first, second),
        forall|j: int| 0 <= j < others.len() ==> queries.contains(#[trigger] others[j]),
        solve_spec(first, facts, queries, 0).1 is Ok,
    ensures
        solve_spec(second, facts, others, 0).1 is Ok,
        forall|j: int|
            0 <= j < others.len() ==> solve_spec(second, facts, others, 0).0[letter_index(
                #[trigger] others[j],
            )].state == solve_spec(first, facts, queries, 0).0[letter_index(others[j])].state,
{
    let empty = Seq::<char>::empty();
    lemma_solve_outcome(first, facts, queries);
    lemma_solve_outcome(second, facts, others);
    assert forall|j: int| 0 <= j < others.len() implies value(
        second,
        facts,
        empty,
        #[trigger] others[j],
    ) == value(first, facts, empty, others[j]) && value(first, facts, empty, others[j]) == Ok::<
        bool,
        Error,
    >(solve_spec(first, facts, queries, 0).0[letter_index(others[j])].state) by {
        let k = choose|k: int| 0 <= k < queries.len() && queries[k] == others[j];
        assert(value(first, facts, empty, queries[k]) is Ok);
        lemma_value_same_rules(first, second, facts, empty, others[j]);
    }
}

} // verus!
