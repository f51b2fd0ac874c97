//! The value that a fact has by the rules, and the proof that
//! resolving, which keeps values on the way, gives that value.

use vstd::prelude::*;

use crate::checker::{lemma_push_contains, lemma_spare_push, spare};
use crate::error::Error;
use crate::expr::{parse_postfix, Expr};
use crate::facts::{is_letter, is_registry, letter_index, Fact};
use crate::resolution::{
    grounded, grows, known, lemma_eval_grounded, lemma_grows_registry, lemma_open_path_kept,
    lemma_resolve_grounded, lemma_resolve_grows, lemma_solve_grows, lemma_solve_names_circle,
    needs, on_circle, open_path, reads,
};
use crate::rule::RuleView;
use crate::solver::{eval_spec, justify_spec, resolve_spec, solve_spec};

verus! {

/// The value of a fact by the rules, from what the registry knows and
/// nothing else: no value is kept on the way. A fact that the registry
/// has settled has its value there. A fact on the path would justify
/// itself. Any other fact is true where some rule for it says so, false
/// where none does, and contradicted where an equivalence says that it is
/// false while a rule says that it is true.
pub open spec fn value(
    rules: Seq<RuleView>,
    facts: Seq<Fact>,
    path: Seq<char>,
    letter: char,
) -> Result<bool, Error>
    decreases spare(path), 0int, 0int,
{
    let at = letter_index(letter);
    if !is_letter(letter) {
        Err(Error::MalformedExpression)
    } else if facts[at].determined {
        Ok(facts[at].state)
    } else if path.contains(letter) {
        Err(Error::CircularDependency(letter))
    } else {
        proof {
            lemma_spare_push(path, letter);
        }
        match said(rules, facts, path.push(letter), letter, 0, false, false) {
            Err(e) => Err(e),
            Ok((yes, no)) => if yes && no {
                Err(Error::Contradiction(letter))
            } else {
                Ok(yes)
            },
        }
    }
}

/// What the rules from the `i`-th on say of a fact, beside what `yes` and
/// `no` hold of the rules before them: whether one says that the fact is
/// true, and whether one says that it is false.
pub open spec fn said(
    rules: Seq<RuleView>,
    facts: Seq<Fact>,
    path: Seq<char>,
    letter: char,
    i: int,
    yes: bool,
    no: bool,
) -> Result<(bool, bool), Error>
    decreases spare(path), 2 + rules.len() - i, 0int,
{
    if i < 0 || i >= rules.len() {
        Ok((yes, no))
    } else if !rules[i].implies(letter) {
        said(rules, facts, path, letter, i + 1, yes, no)
    } else {
        match parse_postfix(rules[i].lhs) {
            None => Err(Error::MalformedExpression),
            Some(e) => match holds(rules, facts, path, e) {
                Err(e) => Err(e),
                Ok(v) => said(
                    rules,
                    facts,
                    path,
                    letter,
                    i + 1,
                    yes || v,
                    no || (rules[i].is_equivalent && !v),
                ),
            },
        }
    }
}

/// The value of an expression whose facts have their values by the rules.
pub open spec fn holds(rules: Seq<RuleView>, facts: Seq<Fact>, path: Seq<char>, e: Expr) -> Result<
    bool,
    Error,
>
    decreases spare(path), 1int, e.size(),
{
    match e {
        Expr::Fact(c) => value(rules, facts, path, c),
        Expr::Not(a) => match holds(rules, facts, path, *a) {
            Err(e) => Err(e),
            Ok(v) => Ok(!v),
        },
        Expr::Binary(k, l, r) => match holds(rules, facts, path, *l) {
            Err(e) => Err(e),
            Ok(a) => match holds(rules, facts, path, *r) {
                Err(e) => Err(e),
                Ok(b) => Ok(k.apply(a, b)),
            },
        },
    }
}

/// Whether two paths hold the same settled facts.
pub open spec fn agree(first: Seq<char>, second: Seq<char>, facts: Seq<Fact>) -> bool {
    forall|c: char| #[trigger] known(facts, c) ==> first.contains(c) == second.contains(c)
}

/// Whether every fact that was settled since `base` was settled with the
/// value that it has by the rules from `base`.
pub open spec fn faithful(rules: Seq<RuleView>, base: Seq<Fact>, facts: Seq<Fact>) -> bool {
    forall|y: char|
        #[trigger] known(facts, y) && !known(base, y) ==> value(rules, base, Seq::empty(), y)
            == Ok::<bool, Error>(facts[letter_index(y)].state)
}

/// The value of a settled fact does not depend on the path, as far as
/// the paths hold the same settled facts.
pub proof fn lemma_value_any_path(
    rules: Seq<RuleView>,
    base: Seq<Fact>,
    facts: Seq<Fact>,
    first: Seq<char>,
    second: Seq<char>,
    letter: char,
)
    requires
        is_registry(base),
        grows(base, facts),
        grounded(rules, base, facts),
        known(facts, letter),
        agree(first, second, facts),
    ensures
        value(rules, base, first, letter) == value(rules, base, second, letter),
    decreases spare(first), 0int, 0int,
{
    let at = letter_index(letter);
    if !base[at].determined && !first.contains(letter) {
        lemma_spare_push(first, letter);
        assert forall|c: char| #[trigger] known(facts, c) implies first.push(letter).contains(c)
            == second.push(letter).contains(c) by {
            lemma_push_contains(first, letter, c);
            lemma_push_contains(second, letter, c);
        }
        lemma_said_any_path(
            rules,
            base,
            facts,
            first.push(letter),
            second.push(letter),
            letter,
            0,
            false,
            false,
        );
    }
}

/// What the rules say of a settled fact does not depend on the path.
pub proof fn lemma_said_any_path(
    rules: Seq<RuleView>,
    base: Seq<Fact>,
    facts: Seq<Fact>,
    first: Seq<char>,
    second: Seq<char>,
    letter: char,
    i: int,
    yes: bool,
    no: bool,
)
    requires
        is_registry(base),
        grows(base, facts),
        grounded(rules, base, facts),
        known(facts, letter),
        !known(base, letter),
        agree(first, second, facts),
    ensures
        said(rules, base, first, letter, i, yes, no) == said(
            rules,
            base,
            second,
            letter,
            i,
            yes,
            no,
        ),
    decreases spare(first), 2 + rules.len() - i, 0int,
{
    if 0 <= i < rules.len() {
        if !rules[i].implies(letter) {
            lemma_said_any_path(rules, base, facts, first, second, letter, i + 1, yes, no);
        } else if let Some(e) = parse_postfix(rules[i].lhs) {
            assert forall|w: char| e.mentions(w) implies known(facts, w) by {
                assert(reads(rules[i], w));
                assert(needs(rules, letter, w));
            }
            lemma_holds_any_path(rules, base, facts, first, second, e);
            if let Ok(v) = holds(rules, base, first, e) {
                lemma_said_any_path(
                    rules,
                    base,
                    facts,
                    first,
                    second,
                    letter,
                    i + 1,
                    yes || v,
                    no || (rules[i].is_equivalent && !v),
                );
            }
        }
    }
}

/// The value of an expression over settled facts does not depend on the
/// path.
pub proof fn lemma_holds_any_path(
    rules: Seq<RuleView>,
    base: Seq<Fact>,
    facts: Seq<Fact>,
    first: Seq<char>,
    second: Seq<char>,
    e: Expr,
)
    requires
        is_registry(base),
        grows(base, facts),
        grounded(rules, base, facts),
        agree(first, second, facts),
        forall|w: char| e.mentions(w) ==> known(facts, w),
    ensures
        holds(rules, base, first, e) == holds(rules, base, second, e),
    decreases spare(first), 1int, e.size(),
{
    match e {
        Expr::Fact(c) => {
            assert(e.mentions(c));
            lemma_value_any_path(rules, base, facts, first, second, c);
        },
        Expr::Not(a) => {
            assert forall|w: char| a.mentions(w) implies e.mentions(w) by {}
            lemma_holds_any_path(rules, base, facts, first, second, *a);
        },
        Expr::Binary(_, l, r) => {
            assert forall|w: char| l.mentions(w) || r.mentions(w) implies e.mentions(w) by {}
            lemma_holds_any_path(rules, base, facts, first, second, *l);
            lemma_holds_any_path(rules, base, facts, first, second, *r);
        },
    }
}

/// The value of a fact is the same from a registry as from one that it
/// faithfully grew out of: what was kept changes no value.
pub proof fn lemma_value_memo(
    rules: Seq<RuleView>,
    base: Seq<Fact>,
    facts: Seq<Fact>,
    path: Seq<char>,
    letter: char,
)
    requires
        is_registry(base),
        grows(base, facts),
        grounded(rules, base, facts),
        faithful(rules, base, facts),
        open_path(path, facts),
    ensures
        value(rules, facts, path, letter) == value(rules, base, path, letter),
    decreases spare(path), 0int, 0int,
{
    let at = letter_index(letter);
    if is_letter(letter) {
        assert(facts[at] == base[at] || !base[at].determined);
        if known(facts, letter) {
            if !known(base, letter) {
                assert forall|c: char| #[trigger] known(facts, c) implies path.contains(c)
                    == Seq::<char>::empty().contains(c) by {}
                lemma_value_any_path(rules, base, facts, path, Seq::empty(), letter);
            }
        } else if !path.contains(letter) {
            lemma_spare_push(path, letter);
            assert forall|p: char| #[trigger] path.push(letter).contains(p) implies !known(
                facts,
                p,
            ) by {
                lemma_push_contains(path, letter, p);
            }
            lemma_said_memo(rules, base, facts, path.push(letter), letter, 0, false, false);
        }
    }
}

/// What the rules say of a fact is the same from a registry as from one
/// that it faithfully grew out of.
pub proof fn lemma_said_memo(
    rules: Seq<RuleView>,
    base: Seq<Fact>,
    facts: Seq<Fact>,
    path: Seq<char>,
    letter: char,
    i: int,
    yes: bool,
    no: bool,
)
    requires
        is_registry(base),
        grows(base, facts),
        grounded(rules, base, facts),
        faithful(rules, base, facts),
        open_path(path, facts),
    ensures
        said(rules, facts, path, letter, i, yes, no) == said(rules, base, path, letter, i, yes, no),
    decreases spare(path), 2 + rules.len() - i, 0int,
{
    if 0 <= i < rules.len() {
        if !rules[i].implies(letter) {
            lemma_said_memo(rules, base, facts, path, letter, i + 1, yes, no);
        } else if let Some(e) = parse_postfix(rules[i].lhs) {
            lemma_holds_memo(rules, base, facts, path, e);
            if let Ok(v) = holds(rules, base, path, e) {
                lemma_said_memo(
                    rules,
                    base,
                    facts,
                    path,
                    letter,
                    i + 1,
                    yes || v,
                    no || (rules[i].is_equivalent && !v),
                );
            }
        }
    }
}

/// The value of an expression is the same from a registry as from one
/// that it faithfully grew out of.
pub proof fn lemma_holds_memo(
    rules: Seq<RuleView>,
    base: Seq<Fact>,
    facts: Seq<Fact>,
    path: Seq<char>,
    e: Expr,
)
    requires
        is_registry(base),
        grows(base, facts),
        grounded(rules, base, facts),
        faithful(rules, base, facts),
        open_path(path, facts),
    ensures
        holds(rules, facts, path, e) == holds(rules, base, path, e),
    decreases spare(path), 1int, e.size(),
{
    match e {
        Expr::Fact(c) => {
            lemma_value_memo(rules, base, facts, path, c);
        },
        Expr::Not(a) => {
            lemma_holds_memo(rules, base, facts, path, *a);
        },
        Expr::Binary(_, l, r) => {
            lemma_holds_memo(rules, base, facts, path, *l);
            lemma_holds_memo(rules, base, facts, path, *r);
        },
    }
}

/// Resolving a fact gives the value that the fact has by the rules, and
/// keeps in the registry only values that facts have by the rules.
pub proof fn lemma_resolve_value(
    rules: Seq<RuleView>,
    base: Seq<Fact>,
    facts: Seq<Fact>,
    path: Seq<char>,
    letter: char,
)
    requires
        is_registry(base),
        grows(base, facts),
        grounded(rules, base, facts),
        faithful(rules, base, facts),
        open_path(path, facts),
    ensures
        resolve_spec(rules, facts, path, letter).1 == value(rules, facts, path, letter),
        faithful(rules, base, resolve_spec(rules, facts, path, letter).0),
    decreases spare(path), 0int, 0int,
{
    let at = letter_index(letter);
    let (after, r) = resolve_spec(rules, facts, path, letter);
    lemma_grows_registry(base, facts);
    lemma_resolve_grounded(rules, base, facts, path, letter);
    lemma_resolve_grows(rules, facts, path, letter);
    lemma_open_path_kept(path, facts, after);
    if is_letter(letter) && !facts[at].determined && !path.contains(letter) {
        let longer = path.push(letter);
        lemma_spare_push(path, letter);
        assert forall|p: char| #[trigger] longer.contains(p) implies !known(facts, p) by {
            lemma_push_contains(path, letter, p);
        }
        lemma_justify_value(rules, base, facts, longer, letter, 0, false, false);
        crate::resolution::lemma_justify_grows(rules, facts, longer, letter, 0, false, false);
        let (mid, told) = justify_spec(rules, facts, longer, letter, 0, false, false);
        assert(r == value(rules, facts, path, letter));
        if r is Ok {
            assert(after == mid.update(at, mid[at].settled(r->Ok_0)));
            assert forall|y: char| #[trigger] known(after, y) && !known(base, y) implies value(
                rules,
                base,
                Seq::empty(),
                y,
            ) == Ok::<bool, Error>(after[letter_index(y)].state) by {
                if y == letter {
                    lemma_value_memo(rules, base, facts, path, letter);
                    assert forall|c: char| #[trigger] known(after, c) implies path.contains(c)
                        == Seq::<char>::empty().contains(c) by {}
                    lemma_value_any_path(rules, base, after, path, Seq::empty(), letter);
                    assert(after[at].state == r->Ok_0);
                } else {
                    assert(letter_index(y) != at);
                    assert(after[letter_index(y)] == mid[letter_index(y)]);
                    assert(known(mid, y));
                }
            }
        }
    }
}

/// Evaluating the rules for a fact gives what the rules say of it, and
/// keeps in the registry only values that facts have by the rules.
pub proof fn lemma_justify_value(
    rules: Seq<RuleView>,
    base: Seq<Fact>,
    facts: Seq<Fact>,
    path: Seq<char>,
    letter: char,
    i: int,
    yes: bool,
    no: bool,
)
    requires
        is_registry(base),
        grows(base, facts),
        grounded(rules, base, facts),
        faithful(rules, base, facts),
        open_path(path, facts),
        0 <= i,
    ensures
        justify_spec(rules, facts, path, letter, i, yes, no).1 == said(
            rules,
            facts,
            path,
            letter,
            i,
            yes,
            no,
        ),
        faithful(rules, base, justify_spec(rules, facts, path, letter, i, yes, no).0),
    decreases spare(path), 2 + rules.len() - i, 0int,
{
    if i < rules.len() {
        if !rules[i].implies(letter) {
            lemma_justify_value(rules, base, facts, path, letter, i + 1, yes, no);
        } else if let Some(e) = parse_postfix(rules[i].lhs) {
            lemma_eval_value(rules, base, facts, path, e);
            lemma_eval_grounded(rules, base, facts, path, e);
            let (between, v) = eval_spec(rules, facts, path, e);
            if let Ok(v) = v {
                let yes2 = yes || v;
                let no2 = no || (rules[i].is_equivalent && !v);
                lemma_open_path_kept(path, facts, between);
                lemma_justify_value(rules, base, between, path, letter, i + 1, yes2, no2);
                lemma_said_memo(rules, base, between, path, letter, i + 1, yes2, no2);
                lemma_said_memo(rules, base, facts, path, letter, i + 1, yes2, no2);
            }
        }
    }
}

/// Evaluating an expression gives the value that it has by the rules,
/// and keeps in the registry only values that facts have by the rules.
pub proof fn lemma_eval_value(
    rules: Seq<RuleView>,
    base: Seq<Fact>,
    facts: Seq<Fact>,
    path: Seq<char>,
    e: Expr,
)
    requires
        is_registry(base),
        grows(base, facts),
        grounded(rules, base, facts),
        faithful(rules, base, facts),
        open_path(path, facts),
    ensures
        eval_spec(rules, facts, path, e).1 == holds(rules, facts, path, e),
        faithful(rules, base, eval_spec(rules, facts, path, e).0),
    decreases spare(path), 1int, e.size(),
{
    match e {
        Expr::Fact(c) => {
            lemma_resolve_value(rules, base, facts, path, c);
        },
        Expr::Not(a) => {
            lemma_eval_value(rules, base, facts, path, *a);
        },
        Expr::Binary(_, l, r) => {
            lemma_eval_value(rules, base, facts, path, *l);
            lemma_eval_grounded(rules, base, facts, path, *l);
            let (between, left) = eval_spec(rules, facts, path, *l);
            if left is Ok {
                lemma_open_path_kept(path, facts, between);
                lemma_eval_value(rules, base, between, path, *r);
                lemma_holds_memo(rules, base, between, path, *r);
                lemma_holds_memo(rules, base, facts, path, *r);
            }
        },
    }
}

/// A registry grew faithfully out of itself.
pub proof fn lemma_faithful_self(rules: Seq<RuleView>, facts: Seq<Fact>)
    ensures
        grows(facts, facts),
        grounded(rules, facts, facts),
        faithful(rules, facts, facts),
{
}

/// Resolving a fact gives the value that the fact has by the rules: what
/// is kept on the way changes no answer, nor a failure.
pub proof fn lemma_resolve_is_value(rules: Seq<RuleView>, facts: Seq<Fact>, letter: char)
    requires
        is_registry(facts),
    ensures
        resolve_spec(rules, facts, Seq::empty(), letter).1 == value(
            rules,
            facts,
            Seq::empty(),
            letter,
        ),
{
    lemma_faithful_self(rules, facts);
    lemma_resolve_value(rules, facts, facts, Seq::empty(), letter);
}

/// What resolving one fact leaves in the registry changes the outcome of
/// resolving no other: the order of the queries does not matter to the
/// answer that each gets.
pub proof fn lemma_order_free(rules: Seq<RuleView>, facts: Seq<Fact>, first: char, then: char)
    requires
        is_registry(facts),
    ensures
        resolve_spec(rules, resolve_spec(rules, facts, Seq::empty(), first).0, Seq::empty(), then).1
            == resolve_spec(rules, facts, Seq::empty(), then).1,
{
    let empty = Seq::<char>::empty();
    let after = resolve_spec(rules, facts, empty, first).0;
    lemma_faithful_self(rules, facts);
    lemma_resolve_value(rules, facts, facts, empty, first);
    lemma_resolve_grounded(rules, facts, facts, empty, first);
    lemma_resolve_grows(rules, facts, empty, first);
    lemma_faithful_self(rules, after);
    lemma_resolve_value(rules, after, after, empty, then);
    lemma_value_memo(rules, facts, after, empty, then);
    lemma_resolve_value(rules, facts, facts, empty, then);
}

/// The outcome of resolving the queries in turn, told by the values that
/// the facts have by the rules from the registry at the start: where it
/// succeeds, every query is settled with its value; where it fails, it
/// fails as the value of the first query that has none.
pub proof fn lemma_solve_values(
    rules: Seq<RuleView>,
    base: Seq<Fact>,
    facts: Seq<Fact>,
    queries: Seq<char>,
    i: int,
)
    requires
        is_registry(base),
        grows(base, facts),
        grounded(rules, base, facts),
        faithful(rules, base, facts),
        0 <= i,
    ensures
        ({
            let empty = Seq::<char>::empty();
            let (after, r) = solve_spec(rules, facts, queries, i);
            &&& grows(base, after)
            &&& grounded(rules, base, after)
            &&& faithful(rules, base, after)
            &&& match r {
                Ok(_) => forall|j: int|
                    i <= j < queries.len() ==> value(rules, base, empty, #[trigger] queries[j])
                        == Ok::<bool, Error>(after[letter_index(queries[j])].state),
                Err(e) => exists|k: int|
                    i <= k < queries.len() && value(rules, base, empty, #[trigger] queries[k])
                        == Err::<bool, Error>(e) && forall|j: int|
                        i <= j < k ==> value(rules, base, empty, #[trigger] queries[j]) is Ok,
            }
        }),
    decreases queries.len() - i,
{
    let empty = Seq::<char>::empty();
    let (after, r) = solve_spec(rules, facts, queries, i);
    if i < queries.len() {
        let q = queries[i];
        lemma_grows_registry(base, facts);
        lemma_resolve_value(rules, base, facts, empty, q);
        lemma_resolve_grounded(rules, base, facts, empty, q);
        lemma_resolve_grows(rules, facts, empty, q);
        lemma_value_memo(rules, base, facts, empty, q);
        let (between, first) = resolve_spec(rules, facts, empty, q);
        match first {
            Ok(v) => {
                lemma_solve_values(rules, base, between, queries, i + 1);
                lemma_grows_registry(base, between);
                lemma_solve_grows(rules, between, queries, i + 1);
                let at = letter_index(q);
                assert(after[at] == between[at] || !between[at].determined);
                match r {
                    Ok(_) => {
                        assert forall|j: int| i <= j < queries.len() implies value(
                            rules,
                            base,
                            empty,
                            #[trigger] queries[j],
                        ) == Ok::<bool, Error>(after[letter_index(queries[j])].state) by {}
                    },
                    Err(e) => {
                        let k = choose|k: int|
                            i + 1 <= k < queries.len() && value(
                                rules,
                                base,
                                empty,
                                #[trigger] queries[k],
                            ) == Err::<bool, Error>(e) && forall|j: int|
                                i + 1 <= j < k ==> value(rules, base, empty, #[trigger] queries[j])
                                    is Ok;
                        assert(value(rules, base, empty, queries[k]) == Err::<bool, Error>(e));
                        assert forall|j: int| i <= j < k implies value(
                            rules,
                            base,
                            empty,
                            #[trigger] queries[j],
                        ) is Ok by {}
                    },
                }
            },
            Err(e) => {
                assert(value(rules, base, empty, queries[i]) == Err::<bool, Error>(e));
            },
        }
    }
}

/// What is owed of resolving the queries in turn from a registry. The
/// registry only grows. Where the run succeeds, every query is a fact,
/// settled with the value that it has by the rules from the registry at
/// the start. Where it fails, it fails as the value of the first query
/// that has none, and a circular dependency names a fact on a circle of
/// facts that were open at the start.
pub open spec fn solve_outcome(rules: Seq<RuleView>, facts: Seq<Fact>, queries: Seq<char>) -> bool {
    let empty = Seq::<char>::empty();
    let (after, r) = solve_spec(rules, facts, queries, 0);
    &&& grows(facts, after)
    &&& match r {
        Ok(_) => forall|j: int|
            0 <= j < queries.len() ==> {
                &&& is_letter(#[trigger] queries[j])
                &&& after[letter_index(queries[j])].determined
                &&& value(rules, facts, empty, queries[j]) == Ok::<bool, Error>(
                    after[letter_index(queries[j])].state,
                )
            },
        Err(e) => {
            &&& exists|k: int|
                0 <= k < queries.len() && value(rules, facts, empty, #[trigger] queries[k])
                    == Err::<bool, Error>(e) && forall|j: int|
                    0 <= j < k ==> value(rules, facts, empty, #[trigger] queries[j]) is Ok
            &&& e matches Error::CircularDependency(x) ==> on_circle(rules, facts, x)
        },
    }
}

/// Resolving the queries in turn from a registry gives what is owed.
pub proof fn lemma_solve_outcome(rules: Seq<RuleView>, facts: Seq<Fact>, queries: Seq<char>)
    requires
        is_registry(facts),
    ensures
        solve_outcome(rules, facts, queries),
{
    lemma_solve_names_circle(rules, facts, queries, 0);
    lemma_solve_grows(rules, facts, queries, 0);
    lemma_faithful_self(rules, facts);
    lemma_solve_values(rules, facts, facts, queries, 0);
}

} // verus!
