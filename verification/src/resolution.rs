//! What holds of every resolution: the registry only grows, a fact
//! resolved twice has one value, a fact without a rule is false, rules
//! without a cycle meet no circular dependency, and a circle of open
//! facts is always detected.

use vstd::prelude::*;

use crate::checker::{lemma_push_contains, lemma_spare_push, spare};
use crate::error::Error;
use crate::expr::{parse_postfix, Expr};
use crate::facts::{is_letter, is_registry, letter_index, Fact};
use crate::rule::RuleView;
use crate::solver::{eval_spec, justify_spec, resolve_spec, solve_spec};

verus! {

/// Whether `after` is `before` with some of its open facts settled: no
/// fact is lost, no settled fact changes, and no fact changes in anything
/// but its value.
pub open spec fn grows(before: Seq<Fact>, after: Seq<Fact>) -> bool {
    &&& after.len() == before.len()
    &&& forall|i: int|
        0 <= i < before.len() ==> {
            ||| #[trigger] after[i] == before[i]
            ||| (!before[i].determined && after[i] == before[i].settled(after[i].state))
        }
}

/// Settling goes one way: what grew out of a registry that grew out of
/// another grew out of that one.
pub proof fn lemma_grows_chain(first: Seq<Fact>, second: Seq<Fact>, third: Seq<Fact>)
    requires
        grows(first, second),
        grows(second, third),
    ensures
        grows(first, third),
{
    assert forall|i: int| 0 <= i < first.len() implies {
        ||| #[trigger] third[i] == first[i]
        ||| (!first[i].determined && third[i] == first[i].settled(third[i].state))
    } by {
        assert(second[i] == first[i] || (!first[i].determined && second[i] == first[i].settled(
            second[i].state,
        )));
    }
}

/// A registry that grew is still a registry.
pub proof fn lemma_grows_registry(before: Seq<Fact>, after: Seq<Fact>)
    requires
        is_registry(before),
        grows(before, after),
    ensures
        is_registry(after),
{
    assert forall|i: int| 0 <= i < 26 implies (#[trigger] after[i]).letter as int == 'A' as int
        + i by {
        assert(before[i].letter as int == 'A' as int + i);
    }
}

/// Resolving a fact only settles open facts, and a fact that it gives a
/// value for is settled with that value afterwards.
pub proof fn lemma_resolve_grows(
    rules: Seq<RuleView>,
    facts: Seq<Fact>,
    path: Seq<char>,
    letter: char,
)
    requires
        is_registry(facts),
    ensures
        ({
            let (after, r) = resolve_spec(rules, facts, path, letter);
            &&& grows(facts, after)
            &&& is_registry(after)
            &&& r matches Ok(v) ==> {
                &&& is_letter(letter)
                &&& after[letter_index(letter)].determined
                &&& after[letter_index(letter)].state == v
            }
        }),
    decreases spare(path), 0int, 0int,
{
    let (after, r) = resolve_spec(rules, facts, path, letter);
    if is_letter(letter) && !facts[letter_index(letter)].determined && !path.contains(letter) {
        lemma_spare_push(path, letter);
        lemma_justify_grows(rules, facts, path.push(letter), letter, 0, false, false);
    }
    lemma_grows_registry(facts, after);
}

/// Evaluating the rules for a fact only settles open facts.
pub proof fn lemma_justify_grows(
    rules: Seq<RuleView>,
    facts: Seq<Fact>,
    path: Seq<char>,
    letter: char,
    i: int,
    yes: bool,
    no: bool,
)
    requires
        is_registry(facts),
    ensures
        grows(facts, justify_spec(rules, facts, path, letter, i, yes, no).0),
        is_registry(justify_spec(rules, facts, path, letter, i, yes, no).0),
    decreases spare(path), 2 + rules.len() - i, 0int,
{
    let after = justify_spec(rules, facts, path, letter, i, yes, no).0;
    if 0 <= i < rules.len() {
        if !rules[i].implies(letter) {
            lemma_justify_grows(rules, facts, path, letter, i + 1, yes, no);
        } else if let Some(e) = parse_postfix(rules[i].lhs) {
            lemma_eval_grows(rules, facts, path, e);
            let (between, value) = eval_spec(rules, facts, path, e);
            if let Ok(v) = value {
                lemma_justify_grows(
                    rules,
                    between,
                    path,
                    letter,
                    i + 1,
                    yes || v,
                    no || (rules[i].is_equivalent && !v),
                );
                lemma_grows_chain(facts, between, after);
            }
        }
    }
    lemma_grows_registry(facts, after);
}

/// Evaluating an expression only settles open facts.
pub proof fn lemma_eval_grows(rules: Seq<RuleView>, facts: Seq<Fact>, path: Seq<char>, e: Expr)
    requires
        is_registry(facts),
    ensures
        grows(facts, eval_spec(rules, facts, path, e).0),
        is_registry(eval_spec(rules, facts, path, e).0),
    decreases spare(path), 1int, e.size(),
{
    let after = eval_spec(rules, facts, path, e).0;
    match e {
        Expr::Fact(c) => {
            lemma_resolve_grows(rules, facts, path, c);
        },
        Expr::Not(a) => {
            lemma_eval_grows(rules, facts, path, *a);
        },
        Expr::Binary(_, l, r) => {
            lemma_eval_grows(rules, facts, path, *l);
            let (between, left) = eval_spec(rules, facts, path, *l);
            if left is Ok {
                lemma_eval_grows(rules, between, path, *r);
                lemma_grows_chain(facts, between, after);
            }
        },
    }
    lemma_grows_registry(facts, after);
}

/// Resolving the queries only settles open facts, and where it succeeds
/// every query is a settled fact.
pub proof fn lemma_solve_grows(
    rules: Seq<RuleView>,
    facts: Seq<Fact>,
    queries: Seq<char>,
    i: int,
)
    requires
        is_registry(facts),
        0 <= i,
    ensures
        ({
            let (after, r) = solve_spec(rules, facts, queries, i);
            &&& grows(facts, after)
            &&& is_registry(after)
            &&& r is Ok ==> forall|j: int|
                i <= j < queries.len() ==> is_letter(#[trigger] queries[j]) && after[letter_index(
                    queries[j],
                )].determined
        }),
    decreases queries.len() - i,
{
    let (after, r) = solve_spec(rules, facts, queries, i);
    if i < queries.len() {
        lemma_resolve_grows(rules, facts, Seq::empty(), queries[i]);
        let (between, first) = resolve_spec(rules, facts, Seq::empty(), queries[i]);
        if first is Ok {
            lemma_solve_grows(rules, between, queries, i + 1);
            lemma_grows_chain(facts, between, after);
            assert forall|j: int| i <= j < queries.len() && r is Ok implies is_letter(
                #[trigger] queries[j],
            ) && after[letter_index(queries[j])].determined by {
                if j == i {
                    let at = letter_index(queries[i]);
                    assert(after[at] == between[at] || !between[at].determined);
                }
            }
        }
    }
    lemma_grows_registry(facts, after);
}

/// A fact that was resolved has the same value whenever it is resolved
/// again in the same run, whatever was resolved in between, and resolving
/// it again changes nothing.
pub proof fn lemma_resolve_again(
    rules: Seq<RuleView>,
    facts: Seq<Fact>,
    path: Seq<char>,
    letter: char,
    later: Seq<Fact>,
    later_path: Seq<char>,
)
    requires
        is_registry(facts),
        resolve_spec(rules, facts, path, letter).1 is Ok,
        grows(resolve_spec(rules, facts, path, letter).0, later),
    ensures
        resolve_spec(rules, later, later_path, letter) == (
            later,
            resolve_spec(rules, facts, path, letter).1,
        ),
{
    lemma_resolve_grows(rules, facts, path, letter);
    let after = resolve_spec(rules, facts, path, letter).0;
    let at = letter_index(letter);
    assert(later[at] == after[at] || !after[at].determined);
}

/// A registry grew out of itself.
pub proof fn lemma_grows_self(facts: Seq<Fact>)
    ensures
        grows(facts, facts),
{
}

/// With no rule that can justify it, an open fact is false.
pub proof fn lemma_closed_world(rules: Seq<RuleView>, facts: Seq<Fact>, letter: char)
    requires
        is_registry(facts),
        is_letter(letter),
        !facts[letter_index(letter)].determined,
        forall|i: int| 0 <= i < rules.len() ==> !(#[trigger] rules[i]).implies(letter),
    ensures
        resolve_spec(rules, facts, Seq::empty(), letter) == (
            facts.update(letter_index(letter), facts[letter_index(letter)].settled(false)),
            Ok::<bool, Error>(false),
        ),
{
    let path = Seq::<char>::empty().push(letter);
    lemma_no_rule(rules, facts, path, letter, 0, false, false);
}

/// Rules that do not name a fact say nothing of it.
pub proof fn lemma_no_rule(
    rules: Seq<RuleView>,
    facts: Seq<Fact>,
    path: Seq<char>,
    letter: char,
    i: int,
    yes: bool,
    no: bool,
)
    requires
        0 <= i,
        forall|j: int| i <= j < rules.len() ==> !(#[trigger] rules[j]).implies(letter),
    ensures
        justify_spec(rules, facts, path, letter, i, yes, no) == (
            facts,
            Ok::<(bool, bool), Error>((yes, no)),
        ),
    decreases rules.len() - i,
{
    if i < rules.len() {
        lemma_no_rule(rules, facts, path, letter, i + 1, yes, no);
    }
}

/// Whether a rule reads the fact of the given letter: its antecedent
/// mentions it.
pub open spec fn reads(rule: RuleView, letter: char) -> bool {
    parse_postfix(rule.lhs) matches Some(e) && e.mentions(letter)
}

/// Whether `rank` orders the facts so that every rule reads only facts of
/// a lower rank than the facts that it can justify. Rules that can be
/// ordered so have no cycle.
pub open spec fn stratified(rules: Seq<RuleView>, rank: spec_fn(char) -> nat) -> bool {
    forall|i: int, from: char, to: char|
        #![trigger rules[i].implies(to), reads(rules[i], from)]
        0 <= i < rules.len() && rules[i].implies(to) && reads(rules[i], from) ==> rank(from)
            < rank(to)
}

/// Whether every antecedent is in postfix form and mentions only facts.
pub open spec fn well_formed(rules: Seq<RuleView>) -> bool {
    forall|i: int|
        0 <= i < rules.len() ==> (parse_postfix((#[trigger] rules[i]).lhs) matches Some(e)
            && forall|c: char| e.mentions(c) ==> is_letter(c))
}

/// Whether no rule is an equivalence.
pub open spec fn plain(rules: Seq<RuleView>) -> bool {
    forall|i: int| 0 <= i < rules.len() ==> !(#[trigger] rules[i]).is_equivalent
}

/// Whether a failure is one that resolving can end in: a contradiction
/// only where some rule is an equivalence; a circular dependency unless
/// the rules are known to be without a cycle; a malformed expression only
/// where the rules are not well formed; and nothing else.
pub open spec fn fails_as_allowed<T>(
    rules: Seq<RuleView>,
    acyclic: bool,
    r: Result<T, Error>,
) -> bool {
    match r {
        Ok(_) => true,
        Err(Error::Contradiction(_)) => !plain(rules),
        Err(Error::CircularDependency(_)) => !acyclic,
        Err(Error::MalformedExpression) => !well_formed(rules),
        Err(_) => false,
    }
}

/// Resolving a fact fails only by a contradiction, a circular dependency
/// or, in rules that are not well formed, a malformed expression. In
/// rules without a cycle, under facts of a higher rank, it meets no
/// circular dependency; in rules without an equivalence it meets no
/// contradiction.
pub proof fn lemma_resolve_failures(
    rules: Seq<RuleView>,
    facts: Seq<Fact>,
    path: Seq<char>,
    letter: char,
    rank: spec_fn(char) -> nat,
    acyclic: bool,
)
    requires
        is_letter(letter),
        acyclic ==> stratified(rules, rank),
        acyclic ==> forall|p: char| path.contains(p) ==> rank(letter) < rank(p),
    ensures
        fails_as_allowed(rules, acyclic, resolve_spec(rules, facts, path, letter).1),
    decreases spare(path), 0int, 0int,
{
    if !facts[letter_index(letter)].determined && !path.contains(letter) {
        lemma_spare_push(path, letter);
        assert forall|p: char| acyclic && path.push(letter).contains(p) implies rank(letter)
            <= rank(p) by {
            lemma_push_contains(path, letter, p);
        }
        lemma_justify_failures(
            rules,
            facts,
            path.push(letter),
            letter,
            0,
            false,
            false,
            rank,
            acyclic,
        );
    }
}

/// Evaluating the rules for a fact fails only as resolving does.
pub proof fn lemma_justify_failures(
    rules: Seq<RuleView>,
    facts: Seq<Fact>,
    path: Seq<char>,
    letter: char,
    i: int,
    yes: bool,
    no: bool,
    rank: spec_fn(char) -> nat,
    acyclic: bool,
)
    requires
        acyclic ==> stratified(rules, rank),
        acyclic ==> forall|p: char| path.contains(p) ==> rank(letter) <= rank(p),
        plain(rules) ==> !no,
    ensures
        fails_as_allowed(rules, acyclic, justify_spec(rules, facts, path, letter, i, yes, no).1),
        plain(rules) ==> (justify_spec(rules, facts, path, letter, i, yes, no).1 matches Ok(said)
            ==> !said.1),
    decreases spare(path), 2 + rules.len() - i, 0int,
{
    if 0 <= i < rules.len() {
        if !rules[i].implies(letter) {
            lemma_justify_failures(rules, facts, path, letter, i + 1, yes, no, rank, acyclic);
        } else if let Some(e) = parse_postfix(rules[i].lhs) {
            assert forall|c: char, p: char|
                acyclic && e.mentions(c) && path.contains(p) implies rank(c) < rank(p) by {
                assert(reads(rules[i], c));
            }
            lemma_eval_failures(rules, facts, path, e, e, rank, acyclic);
            let (between, value) = eval_spec(rules, facts, path, e);
            if let Ok(v) = value {
                lemma_justify_failures(
                    rules,
                    between,
                    path,
                    letter,
                    i + 1,
                    yes || v,
                    no || (rules[i].is_equivalent && !v),
                    rank,
                    acyclic,
                );
            }
        }
    }
}

/// Evaluating a part `e` of an antecedent `whole` fails only as resolving
/// does.
pub proof fn lemma_eval_failures(
    rules: Seq<RuleView>,
    facts: Seq<Fact>,
    path: Seq<char>,
    whole: Expr,
    e: Expr,
    rank: spec_fn(char) -> nat,
    acyclic: bool,
)
    requires
        acyclic ==> stratified(rules, rank),
        acyclic ==> forall|c: char, p: char|
            e.mentions(c) && path.contains(p) ==> rank(c) < rank(p),
        forall|c: char| e.mentions(c) ==> whole.mentions(c),
        well_formed(rules) ==> forall|c: char| whole.mentions(c) ==> is_letter(c),
    ensures
        fails_as_allowed(rules, acyclic, eval_spec(rules, facts, path, e).1),
    decreases spare(path), 1int, e.size(),
{
    match e {
        Expr::Fact(c) => {
            assert(e.mentions(c));
            if is_letter(c) {
                lemma_resolve_failures(rules, facts, path, c, rank, acyclic);
            }
        },
        Expr::Not(a) => {
            assert forall|c: char| a.mentions(c) implies e.mentions(c) by {}
            lemma_eval_failures(rules, facts, path, whole, *a, rank, acyclic);
        },
        Expr::Binary(_, l, r) => {
            assert forall|c: char| l.mentions(c) || r.mentions(c) implies e.mentions(c) by {}
            lemma_eval_failures(rules, facts, path, whole, *l, rank, acyclic);
            let (between, left) = eval_spec(rules, facts, path, *l);
            if left is Ok {
                lemma_eval_failures(rules, between, path, whole, *r, rank, acyclic);
            }
        },
    }
}

/// Resolving the queries fails only as resolving a fact does.
pub proof fn lemma_solve_failures(
    rules: Seq<RuleView>,
    facts: Seq<Fact>,
    queries: Seq<char>,
    i: int,
    rank: spec_fn(char) -> nat,
    acyclic: bool,
)
    requires
        0 <= i,
        forall|j: int| i <= j < queries.len() ==> is_letter(#[trigger] queries[j]),
        acyclic ==> stratified(rules, rank),
    ensures
        fails_as_allowed(rules, acyclic, solve_spec(rules, facts, queries, i).1),
    decreases queries.len() - i,
{
    if i < queries.len() {
        lemma_resolve_failures(rules, facts, Seq::empty(), queries[i], rank, acyclic);
        let (between, first) = resolve_spec(rules, facts, Seq::empty(), queries[i]);
        if first is Ok {
            lemma_solve_failures(rules, between, queries, i + 1, rank, acyclic);
        }
    }
}

/// In well-formed rules without a cycle, a fact is settled by resolving it
/// unless rules contradict each other.
pub proof fn lemma_resolve_stratified(
    rules: Seq<RuleView>,
    facts: Seq<Fact>,
    letter: char,
    rank: spec_fn(char) -> nat,
)
    requires
        is_registry(facts),
        is_letter(letter),
        well_formed(rules),
        stratified(rules, rank),
    ensures
        ({
            let (after, r) = resolve_spec(rules, facts, Seq::empty(), letter);
            match r {
                Ok(v) => after[letter_index(letter)].determined && after[letter_index(
                    letter,
                )].state == v,
                Err(e) => e is Contradiction,
            }
        }),
{
    lemma_resolve_failures(rules, facts, Seq::empty(), letter, rank, true);
    lemma_resolve_grows(rules, facts, Seq::empty(), letter);
}

/// Whether some rule that can justify `letter` reads `other`.
pub open spec fn needs(rules: Seq<RuleView>, letter: char, other: char) -> bool {
    exists|i: int|
        0 <= i < rules.len() && (#[trigger] rules[i]).implies(letter) && reads(rules[i], other)
}

/// Whether the fact of a letter is settled.
pub open spec fn known(facts: Seq<Fact>, letter: char) -> bool {
    is_letter(letter) && facts[letter_index(letter)].determined
}

/// Whether every fact that was settled since `base` has all that its
/// rules read settled too.
pub open spec fn grounded(rules: Seq<RuleView>, base: Seq<Fact>, facts: Seq<Fact>) -> bool {
    forall|letter: char, other: char|
        #![trigger known(facts, letter), needs(rules, letter, other)]
        known(facts, letter) && !known(base, letter) && needs(rules, letter, other) ==> known(
            facts,
            other,
        )
}

/// Whether the open facts on the path are still open afterwards.
pub open spec fn kept_open(path: Seq<char>, before: Seq<Fact>, after: Seq<Fact>) -> bool {
    forall|p: char| #[trigger] path.contains(p) && !known(before, p) ==> !known(after, p)
}

/// Whether no fact on the path is settled.
pub open spec fn open_path(path: Seq<char>, facts: Seq<Fact>) -> bool {
    forall|p: char| #[trigger] path.contains(p) ==> !known(facts, p)
}

/// A path that was open stays open where its open facts were kept open.
pub proof fn lemma_open_path_kept(path: Seq<char>, before: Seq<Fact>, after: Seq<Fact>)
    requires
        open_path(path, before),
        kept_open(path, before, after),
    ensures
        open_path(path, after),
{
}

/// A fact that is settled stays settled as the registry grows.
pub proof fn lemma_known_grows(before: Seq<Fact>, after: Seq<Fact>, letter: char)
    requires
        is_registry(before),
        grows(before, after),
        known(before, letter),
    ensures
        known(after, letter),
{
    let at = letter_index(letter);
    assert(after[at] == before[at] || !before[at].determined);
}

/// Resolving a fact settles no fact before all that its rules read, and
/// settles no open fact of the path.
pub proof fn lemma_resolve_grounded(
    rules: Seq<RuleView>,
    base: Seq<Fact>,
    facts: Seq<Fact>,
    path: Seq<char>,
    letter: char,
)
    requires
        is_registry(base),
        grows(base, facts),
        grounded(rules, base, facts),
    ensures
        grounded(rules, base, resolve_spec(rules, facts, path, letter).0),
        kept_open(path, facts, resolve_spec(rules, facts, path, letter).0),
        grows(base, resolve_spec(rules, facts, path, letter).0),
    decreases spare(path), 0int, 0int,
{
    lemma_grows_registry(base, facts);
    lemma_resolve_grows(rules, facts, path, letter);
    let (after, r) = resolve_spec(rules, facts, path, letter);
    lemma_grows_chain(base, facts, after);
    if is_letter(letter) && !facts[letter_index(letter)].determined && !path.contains(letter) {
        let at = letter_index(letter);
        let longer = path.push(letter);
        lemma_spare_push(path, letter);
        lemma_justify_grounded(rules, base, facts, longer, letter, 0, false, false);
        lemma_justify_grows(rules, facts, longer, letter, 0, false, false);
        let (mid, said) = justify_spec(rules, facts, longer, letter, 0, false, false);
        assert forall|p: char| #[trigger] path.contains(p) && !known(facts, p) implies !known(
            after,
            p,
        ) by {
            lemma_push_contains(path, letter, p);
            assert(longer.contains(p));
        }
        assert forall|y: char, w: char|
            #![trigger known(after, y), needs(rules, y, w)]
            known(after, y) && !known(base, y) && needs(rules, y, w) implies known(after, w) by {
            if y == letter {
                let i = choose|i: int|
                    0 <= i < rules.len() && (#[trigger] rules[i]).implies(y) && reads(rules[i], w);
                lemma_push_contains(path, letter, letter);
                assert(longer.contains(letter));
                assert(!known(mid, letter));
                assert(r is Ok);
                assert(known(mid, w));
            } else {
                assert(known(mid, y));
                assert(needs(rules, y, w));
                assert(known(mid, w));
            }
        }
    }
}

/// Evaluating the rules for a fact settles no fact before all that its
/// rules read, and settles no open fact of the path; where it succeeds,
/// all that the rules for the fact read is settled.
pub proof fn lemma_justify_grounded(
    rules: Seq<RuleView>,
    base: Seq<Fact>,
    facts: Seq<Fact>,
    path: Seq<char>,
    letter: char,
    i: int,
    yes: bool,
    no: bool,
)
    requires
        is_registry(base),
        grows(base, facts),
        grounded(rules, base, facts),
        0 <= i,
    ensures
        ({
            let (after, r) = justify_spec(rules, facts, path, letter, i, yes, no);
            &&& grounded(rules, base, after)
            &&& kept_open(path, facts, after)
            &&& grows(base, after)
            &&& r is Ok ==> forall|j: int, w: char|
                #![trigger rules[j].implies(letter), reads(rules[j], w)]
                i <= j < rules.len() && rules[j].implies(letter) && reads(rules[j], w) ==> known(
                    after,
                    w,
                )
        }),
    decreases spare(path), 2 + rules.len() - i, 0int,
{
    lemma_grows_registry(base, facts);
    lemma_justify_grows(rules, facts, path, letter, i, yes, no);
    let (after, r) = justify_spec(rules, facts, path, letter, i, yes, no);
    lemma_grows_chain(base, facts, after);
    if i < rules.len() {
        if !rules[i].implies(letter) {
            lemma_justify_grounded(rules, base, facts, path, letter, i + 1, yes, no);
        } else if let Some(e) = parse_postfix(rules[i].lhs) {
            lemma_eval_grounded(rules, base, facts, path, e);
            lemma_eval_grows(rules, facts, path, e);
            let (between, value) = eval_spec(rules, facts, path, e);
            if let Ok(v) = value {
                let yes2 = yes || v;
                let no2 = no || (rules[i].is_equivalent && !v);
                lemma_justify_grounded(rules, base, between, path, letter, i + 1, yes2, no2);
                lemma_justify_grows(rules, between, path, letter, i + 1, yes2, no2);
                lemma_grows_chain(base, facts, between);
                lemma_grows_registry(base, between);
                assert forall|j: int, w: char|
                    #![trigger rules[j].implies(letter), reads(rules[j], w)]
                    r is Ok && i <= j < rules.len() && rules[j].implies(letter) && reads(
                        rules[j],
                        w,
                    ) implies known(after, w) by {
                    if j == i {
                        assert(e.mentions(w));
                        assert(known(between, w));
                        lemma_known_grows(between, after, w);
                    }
                }
            }
        }
    }
}

/// Evaluating an expression settles no fact before all that its rules
/// read, and settles no open fact of the path; where it succeeds, every
/// fact of the expression is settled.
pub proof fn lemma_eval_grounded(
    rules: Seq<RuleView>,
    base: Seq<Fact>,
    facts: Seq<Fact>,
    path: Seq<char>,
    e: Expr,
)
    requires
        is_registry(base),
        grows(base, facts),
        grounded(rules, base, facts),
    ensures
        ({
            let (after, r) = eval_spec(rules, facts, path, e);
            &&& grounded(rules, base, after)
            &&& kept_open(path, facts, after)
            &&& grows(base, after)
            &&& r is Ok ==> forall|w: char| #[trigger] e.mentions(w) ==> known(after, w)
        }),
    decreases spare(path), 1int, e.size(),
{
    lemma_grows_registry(base, facts);
    lemma_eval_grows(rules, facts, path, e);
    let (after, r) = eval_spec(rules, facts, path, e);
    lemma_grows_chain(base, facts, after);
    match e {
        Expr::Fact(c) => {
            lemma_resolve_grounded(rules, base, facts, path, c);
            lemma_resolve_grows(rules, facts, path, c);
        },
        Expr::Not(a) => {
            lemma_eval_grounded(rules, base, facts, path, *a);
            assert forall|w: char| r is Ok && #[trigger] e.mentions(w) implies known(after, w) by {
                assert(a.mentions(w));
            }
        },
        Expr::Binary(_, l, right) => {
            lemma_eval_grounded(rules, base, facts, path, *l);
            lemma_eval_grows(rules, facts, path, *l);
            let (between, left) = eval_spec(rules, facts, path, *l);
            if left is Ok {
                lemma_grows_chain(base, facts, between);
                lemma_grows_registry(base, between);
                lemma_eval_grounded(rules, base, between, path, *right);
                lemma_eval_grows(rules, between, path, *right);
                assert forall|w: char| r is Ok && #[trigger] e.mentions(w) implies known(
                    after,
                    w,
                ) by {
                    if l.mentions(w) {
                        assert(known(between, w));
                        lemma_known_grows(between, after, w);
                    } else {
                        assert(right.mentions(w));
                    }
                }
            }
        },
    }
}

/// Whether `chain` is a circle of open facts: each needs the next, and
/// the last needs the first.
pub open spec fn is_circle(rules: Seq<RuleView>, facts: Seq<Fact>, chain: Seq<char>) -> bool {
    &&& chain.len() >= 1
    &&& forall|j: int| 0 <= j < chain.len() ==> !known(facts, #[trigger] chain[j])
    &&& forall|j: int| 0 <= j < chain.len() - 1 ==> needs(rules, #[trigger] chain[j], chain[j + 1])
    &&& needs(rules, chain.last(), chain[0])
}

/// Along a circle whose first fact stays open, no fact gets settled.
proof fn lemma_circle_stays_open(
    rules: Seq<RuleView>,
    base: Seq<Fact>,
    facts: Seq<Fact>,
    chain: Seq<char>,
    j: int,
)
    requires
        is_circle(rules, base, chain),
        grounded(rules, base, facts),
        !known(facts, chain[0]),
        0 <= j < chain.len(),
    ensures
        !known(facts, chain[j]),
    decreases chain.len() - j,
{
    if j == chain.len() - 1 {
        if known(facts, chain[j]) {
            assert(needs(rules, chain[j], chain[0]));
            assert(known(facts, chain[0]));
        }
    } else {
        lemma_circle_stays_open(rules, base, facts, chain, j + 1);
        if known(facts, chain[j]) {
            assert(needs(rules, chain[j], chain[j + 1]));
            assert(known(facts, chain[j + 1]));
        }
    }
}

/// A fact on a circle of open facts cannot be resolved: resolving it
/// fails. In well-formed rules without an equivalence, it fails by a
/// circular dependency.
pub proof fn lemma_circle_detected(
    rules: Seq<RuleView>,
    facts: Seq<Fact>,
    path: Seq<char>,
    chain: Seq<char>,
)
    requires
        is_registry(facts),
        is_circle(rules, facts, chain),
        is_letter(chain[0]),
    ensures
        resolve_spec(rules, facts, path, chain[0]).1 is Err,
        well_formed(rules) && plain(rules) ==> resolve_spec(
            rules,
            facts,
            path,
            chain[0],
        ).1 matches Err(Error::CircularDependency(_)),
{
    let letter = chain[0];
    let (after, r) = resolve_spec(rules, facts, path, letter);
    lemma_resolve_failures(rules, facts, path, letter, |c: char| 0nat, false);
    if !path.contains(letter) {
        let longer = path.push(letter);
        lemma_grows_self(facts);
        lemma_justify_grounded(rules, facts, facts, longer, letter, 0, false, false);
        let (mid, said) = justify_spec(rules, facts, longer, letter, 0, false, false);
        if said is Ok {
            lemma_push_contains(path, letter, letter);
            assert(longer.contains(letter));
            assert(!known(mid, letter));
            if chain.len() == 1 {
                assert(needs(rules, letter, letter));
            } else {
                assert(needs(rules, chain[0], chain[1]));
                lemma_circle_stays_open(rules, facts, mid, chain, 1);
            }
            let w = if chain.len() == 1 {
                letter
            } else {
                chain[1]
            };
            let i = choose|i: int|
                0 <= i < rules.len() && (#[trigger] rules[i]).implies(letter) && reads(rules[i], w);
            assert(known(mid, w));
        }
    }
}

/// Whether each fact on the path needs the one after it.
pub open spec fn linked(rules: Seq<RuleView>, path: Seq<char>) -> bool {
    forall|j: int| 0 <= j < path.len() - 1 ==> needs(rules, #[trigger] path[j], path[j + 1])
}

/// Whether the fact of a letter lies on a circle of open facts.
pub open spec fn on_circle(rules: Seq<RuleView>, facts: Seq<Fact>, letter: char) -> bool {
    exists|chain: Seq<char>| #[trigger] is_circle(rules, facts, chain) && chain[0] == letter
}

/// A circle of open facts was one before the registry grew.
pub proof fn lemma_on_circle_before(
    rules: Seq<RuleView>,
    before: Seq<Fact>,
    after: Seq<Fact>,
    letter: char,
)
    requires
        is_registry(before),
        grows(before, after),
        on_circle(rules, after, letter),
    ensures
        on_circle(rules, before, letter),
{
    let chain = choose|chain: Seq<char>| #[trigger]
        is_circle(rules, after, chain) && chain[0] == letter;
    assert forall|j: int| 0 <= j < chain.len() implies !known(before, #[trigger] chain[j]) by {
        if known(before, chain[j]) {
            lemma_known_grows(before, after, chain[j]);
        }
    }
    assert(is_circle(rules, before, chain));
}

/// The fact that a circular dependency names lies on a circle of open
/// facts: resolving a fact under a path of open facts, each of which
/// needs the next and the last of which needs the fact, fails so only for
/// a fact on such a circle.
pub proof fn lemma_resolve_names_circle(
    rules: Seq<RuleView>,
    facts: Seq<Fact>,
    path: Seq<char>,
    letter: char,
)
    requires
        is_registry(facts),
        linked(rules, path),
        open_path(path, facts),
        path.len() > 0 ==> needs(rules, path.last(), letter),
    ensures
        resolve_spec(rules, facts, path, letter).1 matches Err(Error::CircularDependency(x))
            ==> on_circle(rules, facts, x),
    decreases spare(path), 0int, 0int,
{
    if is_letter(letter) && !facts[letter_index(letter)].determined {
        if path.contains(letter) {
            let k = choose|k: int| 0 <= k < path.len() && path[k] == letter;
            let chain = path.skip(k);
            assert forall|j: int| 0 <= j < chain.len() implies !known(
                facts,
                #[trigger] chain[j],
            ) by {
                assert(path[k + j] == chain[j]);
                assert(path.contains(chain[j]));
            }
            assert forall|j: int| 0 <= j < chain.len() - 1 implies needs(
                rules,
                #[trigger] chain[j],
                chain[j + 1],
            ) by {
                assert(needs(rules, path[k + j], path[k + j + 1]));
            }
            assert(chain.last() == path.last());
            assert(is_circle(rules, facts, chain));
        } else {
            let longer = path.push(letter);
            lemma_spare_push(path, letter);
            assert forall|p: char| #[trigger] longer.contains(p) implies !known(facts, p) by {
                lemma_push_contains(path, letter, p);
            }
            assert forall|j: int| 0 <= j < longer.len() - 1 implies needs(
                rules,
                #[trigger] longer[j],
                longer[j + 1],
            ) by {
                if j < path.len() - 1 {
                    assert(needs(rules, path[j], path[j + 1]));
                }
            }
            lemma_justify_names_circle(rules, facts, longer, letter, 0, false, false);
        }
    }
}

/// Evaluating the rules for the last fact of a path fails by a circular
/// dependency only for a fact on a circle of open facts.
pub proof fn lemma_justify_names_circle(
    rules: Seq<RuleView>,
    facts: Seq<Fact>,
    path: Seq<char>,
    letter: char,
    i: int,
    yes: bool,
    no: bool,
)
    requires
        is_registry(facts),
        linked(rules, path),
        open_path(path, facts),
        path.len() > 0,
        path.last() == letter,
        0 <= i,
    ensures
        justify_spec(rules, facts, path, letter, i, yes, no).1 matches Err(
            Error::CircularDependency(x),
        ) ==> on_circle(rules, facts, x),
    decreases spare(path), 2 + rules.len() - i, 0int,
{
    if i < rules.len() {
        if !rules[i].implies(letter) {
            lemma_justify_names_circle(rules, facts, path, letter, i + 1, yes, no);
        } else if let Some(e) = parse_postfix(rules[i].lhs) {
            assert forall|c: char| e.mentions(c) implies needs(rules, path.last(), c) by {
                assert(reads(rules[i], c));
            }
            lemma_eval_names_circle(rules, facts, path, e);
            let (between, value) = eval_spec(rules, facts, path, e);
            if let Ok(v) = value {
                lemma_grows_self(facts);
                lemma_eval_grounded(rules, facts, facts, path, e);
                lemma_eval_grows(rules, facts, path, e);
                lemma_open_path_kept(path, facts, between);
                let yes2 = yes || v;
                let no2 = no || (rules[i].is_equivalent && !v);
                lemma_justify_names_circle(rules, between, path, letter, i + 1, yes2, no2);
                if let Err(Error::CircularDependency(x)) = justify_spec(
                    rules,
                    between,
                    path,
                    letter,
                    i + 1,
                    yes2,
                    no2,
                ).1 {
                    lemma_on_circle_before(rules, facts, between, x);
                }
            }
        }
    }
}

/// Evaluating a part of an antecedent of a rule for the last fact of a
/// path fails by a circular dependency only for a fact on a circle of
/// open facts.
pub proof fn lemma_eval_names_circle(
    rules: Seq<RuleView>,
    facts: Seq<Fact>,
    path: Seq<char>,
    e: Expr,
)
    requires
        is_registry(facts),
        linked(rules, path),
        open_path(path, facts),
        path.len() > 0 ==> forall|c: char| e.mentions(c) ==> needs(rules, path.last(), c),
    ensures
        eval_spec(rules, facts, path, e).1 matches Err(Error::CircularDependency(x)) ==> on_circle(
            rules,
            facts,
            x,
        ),
    decreases spare(path), 1int, e.size(),
{
    match e {
        Expr::Fact(c) => {
            assert(e.mentions(c));
            lemma_resolve_names_circle(rules, facts, path, c);
        },
        Expr::Not(a) => {
            assert forall|c: char| a.mentions(c) implies e.mentions(c) by {}
            lemma_eval_names_circle(rules, facts, path, *a);
        },
        Expr::Binary(_, l, r) => {
            assert forall|c: char| l.mentions(c) || r.mentions(c) implies e.mentions(c) by {}
            lemma_eval_names_circle(rules, facts, path, *l);
            let (between, left) = eval_spec(rules, facts, path, *l);
            if left is Ok {
                lemma_grows_self(facts);
                lemma_eval_grounded(rules, facts, facts, path, *l);
                lemma_eval_grows(rules, facts, path, *l);
                lemma_open_path_kept(path, facts, between);
                lemma_eval_names_circle(rules, between, path, *r);
                if let Err(Error::CircularDependency(x)) = eval_spec(rules, between, path, *r).1 {
                    lemma_on_circle_before(rules, facts, between, x);
                }
            }
        },
    }
}

/// Resolving the queries fails by a circular dependency only for a fact
/// on a circle of facts that were open at the start.
pub proof fn lemma_solve_names_circle(
    rules: Seq<RuleView>,
    facts: Seq<Fact>,
    queries: Seq<char>,
    i: int,
)
    requires
        is_registry(facts),
        0 <= i,
    ensures
        solve_spec(rules, facts, queries, i).1 matches Err(Error::CircularDependency(x))
            ==> on_circle(rules, facts, x),
    decreases queries.len() - i,
{
    if i < queries.len() {
        let empty = Seq::<char>::empty();
        lemma_resolve_names_circle(rules, facts, empty, queries[i]);
        lemma_resolve_grows(rules, facts, empty, queries[i]);
        let (between, first) = resolve_spec(rules, facts, empty, queries[i]);
        if first is Ok {
            lemma_solve_names_circle(rules, between, queries, i + 1);
            let rest = solve_spec(rules, between, queries, i + 1).1;
            if let Err(Error::CircularDependency(x)) = rest {
                lemma_on_circle_before(rules, facts, between, x);
            }
        }
    }
}

} // verus!
