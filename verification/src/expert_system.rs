//! A rule file from its lines to its answers: reading the lines, and
//! what reading and answering can end in.

use vstd::prelude::*;

use crate::error::Error;
use crate::expr::parse_postfix;
use crate::facts::{
    asked_letters, declare_asked, declare_true, is_letter, is_registry, letter_index, Fact, Facts,
};
use crate::meaning::{lemma_faithful_self, lemma_solve_values, value};
use crate::resolution::{
    lemma_solve_failures, lemma_solve_grows, lemma_solve_names_circle, on_circle, stratified,
    well_formed,
};
use crate::rule::{all_rpn, is_written, lemma_written_rule, parse_rule, RuleView, Rules};
use crate::solver::{solve, solve_spec};
use crate::text::{declared, first_mark, significant};

verus! {

/// What a line of a rule file is, by its first character that is not
/// white space.
#[derive(Copy, Clone, Debug, PartialEq, Eq, Structural)]
pub enum LineKind {
    /// Begins with a letter, `(` or `!`.
    Rule,
    /// Begins with `=`.
    InitialFacts,
    /// Begins with `?`.
    Queries,
    /// Begins with `#`.
    Comment,
    /// Holds nothing but white space.
    Blank,
    /// Begins with anything else.
    Unknown,
}

/// A failure with the line of the file on which it was met, counted from
/// zero; a failure of the file as a whole has no line.
#[derive(Copy, Clone, Debug, PartialEq, Eq, Structural)]
pub struct Failure {
    pub error: Error,
    pub line: Option<usize>,
}

/// What has been read of a file: the registry, the rules, and whether a
/// line of initial facts was among the lines.
pub struct Reading {
    pub facts: Seq<Fact>,
    pub rules: Seq<RuleView>,
    pub has_initial_facts: bool,
}

/// What a line is, by its first character that is not white space.
pub open spec fn kind_of(line: Seq<char>) -> LineKind {
    kind_of_mark(first_mark(line))
}

/// What a line is whose first character that is not white space is
/// `mark`.
pub open spec fn kind_of_mark(mark: Option<char>) -> LineKind {
    match mark {
        None => LineKind::Blank,
        Some(c) => if is_letter(c) || c == '(' || c == '!' {
            LineKind::Rule
        } else if c == '=' {
            LineKind::InitialFacts
        } else if c == '?' {
            LineKind::Queries
        } else if c == '#' {
            LineKind::Comment
        } else {
            LineKind::Unknown
        },
    }
}

/// What one line adds to what has been read, or why it is refused.
pub open spec fn read_line(state: Reading, line: Seq<char>) -> (Reading, Result<(), Error>) {
    read_as(state, kind_of(line), line)
}

/// What a line adds to what has been read when it is taken as a line of
/// the given kind, or why it is refused. A rule line adds its rule; a line
/// of initial facts or of queries declares them in the registry; comments
/// and blank lines add nothing; a line of no known kind is refused.
pub open spec fn read_as(state: Reading, kind: LineKind, line: Seq<char>) -> (
    Reading,
    Result<(), Error>,
) {
    match kind {
        LineKind::Rule => match parse_rule(line) {
            Some(rule) => (Reading { rules: state.rules.push(rule), ..state }, Ok(())),
            None => (state, Err(Error::ParseError)),
        },
        LineKind::InitialFacts => {
            let (facts, r) = declare_true(state.facts, declared(line));
            (
                Reading {
                    facts,
                    has_initial_facts: state.has_initial_facts || r is Ok,
                    ..state
                },
                r,
            )
        },
        LineKind::Queries => {
            let (facts, r) = declare_asked(state.facts, declared(line));
            (Reading { facts, ..state }, r)
        },
        LineKind::Comment => (state, Ok(())),
        LineKind::Blank => (state, Ok(())),
        LineKind::Unknown => (state, Err(Error::ParseError)),
    }
}

/// How the reading of a file ends: a file without a line of initial facts
/// is refused.
pub open spec fn read_to_end(has_initial_facts: bool) -> Result<(), Failure> {
    if has_initial_facts {
        Ok(())
    } else {
        Err(Failure { error: Error::MissingInitialFacts, line: None })
    }
}

/// What the lines from the `i`-th on add to what has been read. The first
/// line that is refused ends the reading; a file without a line of initial
/// facts is refused at its end.
pub open spec fn read_lines(state: Reading, lines: Seq<Seq<char>>, i: int) -> (
    Reading,
    Result<(), Failure>,
)
    decreases lines.len() - i,
{
    if i < 0 || i >= lines.len() {
        (state, read_to_end(state.has_initial_facts))
    } else {
        let (next, r) = read_line(state, lines[i]);
        match r {
            Err(error) => (next, Err(Failure { error, line: Some(i as usize) })),
            Ok(_) => read_lines(next, lines, i + 1),
        }
    }
}

/// The state in which the reading of a file begins.
pub open spec fn reading_from(facts: Seq<Fact>) -> Reading {
    Reading { facts, rules: Seq::empty(), has_initial_facts: false }
}

/// The answers to a rule file: the queried facts with their values, in
/// the order of the alphabet. The file is read, its rules are put in
/// postfix form, and its queries are resolved; a file that asks for
/// nothing is refused before anything is resolved.
pub open spec fn answers(lines: Seq<Seq<char>>, start: Seq<Fact>) -> Result<Seq<Fact>, Failure> {
    let (read, status) = read_lines(reading_from(start), lines, 0);
    match status {
        Err(failure) => Err(failure),
        Ok(_) => match inferred(read.rules, read.facts).1 {
            Ok(solved) => Ok(solved),
            Err(error) => Err(Failure { error, line: None }),
        },
    }
}

/// What answering the queries of a file that was read does to the
/// registry, and the answers: the queried facts with their values, in the
/// order of the alphabet. Rules that cannot be put in postfix form are
/// refused, and so is a registry in which nothing is asked for, both
/// before anything is resolved.
pub open spec fn inferred(rules: Seq<RuleView>, facts: Seq<Fact>) -> (
    Seq<Fact>,
    Result<Seq<Fact>, Error>,
) {
    match all_rpn(rules) {
        None => (facts, Err(Error::ParseError)),
        Some(postfix) => {
            let queries = asked_letters(facts);
            if queries.len() == 0 {
                (facts, Err(Error::MissingQueries))
            } else {
                let (solved, r) = solve_spec(postfix, facts, queries, 0);
                match r {
                    Err(error) => (solved, Err(error)),
                    Ok(_) => (solved, Ok(queries.map_values(|c: char| solved[letter_index(c)]))),
                }
            }
        },
    }
}

/// What a line is, by its first character that is not white space.
pub fn line_kind(line: &str) -> (kind: LineKind)
    ensures
        kind == kind_of(line@),
{
    let chars = significant(line);
    if chars.len() == 0 {
        mark_kind(None)
    } else {
        mark_kind(Some(chars[0]))
    }
}

/// What a line is whose first character that is not white space is
/// `mark`.
pub fn mark_kind(mark: Option<char>) -> (kind: LineKind)
    ensures
        kind == kind_of_mark(mark),
{
    match mark {
        None => LineKind::Blank,
        Some(c) => {
            if ('A' <= c && c <= 'Z') || c == '(' || c == '!' {
                LineKind::Rule
            } else if c == '=' {
                LineKind::InitialFacts
            } else if c == '?' {
                LineKind::Queries
            } else if c == '#' {
                LineKind::Comment
            } else {
                LineKind::Unknown
            }
        },
    }
}

/// Reads one line as a line of the given kind: adds its rule to the
/// rules, or declares its initial facts or its queries in the registry.
/// Says whether the line was one of initial facts.
pub fn read_one(kind: LineKind, line: &str, facts: &mut Facts, rules: &mut Rules) -> (r: Result<
    bool,
    Error,
>)
    requires
        old(facts).wf(),
    ensures
        final(facts).wf(),
        final(facts).is_stable == old(facts).is_stable,
        ({
            let before = Reading {
                facts: old(facts)@,
                rules: old(rules)@,
                has_initial_facts: false,
            };
            let (after, status) = read_as(before, kind, line@);
            &&& final(facts)@ == after.facts
            &&& final(rules)@ == after.rules
            &&& match status {
                Ok(_) => r == Ok::<bool, Error>(after.has_initial_facts),
                Err(error) => r == Err::<bool, Error>(error),
            }
        }),
{
    match kind {
        LineKind::Rule => match rules.set_rule(line) {
            Ok(()) => Ok(false),
            Err(error) => Err(error),
        },
        LineKind::InitialFacts => match facts.set_initial_facts(line) {
            Ok(()) => Ok(true),
            Err(error) => Err(error),
        },
        LineKind::Queries => match facts.set_queries(line) {
            Ok(()) => Ok(false),
            Err(error) => Err(error),
        },
        LineKind::Comment => Ok(false),
        LineKind::Blank => Ok(false),
        LineKind::Unknown => Err(Error::ParseError),
    }
}

/// Ends the reading of a file: a file without a line of initial facts is
/// refused.
pub fn read_end(has_initial_facts: bool) -> (r: Result<(), Failure>)
    ensures
        r == read_to_end(has_initial_facts),
{
    if has_initial_facts {
        Ok(())
    } else {
        Err(Failure { error: Error::MissingInitialFacts, line: None })
    }
}

/// Reads the lines of a rule file: declares its initial facts and its
/// queries in the registry, and gives its rules.
pub fn parser(lines: &Vec<String>, facts: &mut Facts) -> (r: Result<Rules, Failure>)
    requires
        old(facts).wf(),
    ensures
        final(facts).wf(),
        final(facts).is_stable == old(facts).is_stable,
        ({
            let (read, status) = read_lines(reading_from(old(facts)@), lines.deep_view(), 0);
            &&& final(facts)@ == read.facts
            &&& match status {
                Ok(_) => r is Ok && r->Ok_0@ == read.rules,
                Err(failure) => r == Err::<Rules, Failure>(failure),
            }
        }),
{
    let mut rules = Rules::new();
    let mut has_initial_facts = false;
    let n = lines.len();
    let mut i: usize = 0;
    while i < n
        invariant
            n == lines.len(),
            i <= n,
            facts.wf(),
            facts.is_stable == old(facts).is_stable,
            read_lines(reading_from(old(facts)@), lines.deep_view(), 0) == read_lines(
                Reading { facts: facts@, rules: rules@, has_initial_facts },
                lines.deep_view(),
                i as int,
            ),
        decreases n - i,
    {
        let line = lines[i].as_str();
        assert(lines.deep_view()[i as int] == line@);
        match read_one(line_kind(line), line, facts, &mut rules) {
            Ok(initial) => {
                has_initial_facts = has_initial_facts || initial;
            },
            Err(error) => {
                return Err(Failure { error, line: Some(i) });
            },
        }
        i += 1;
    }
    match read_end(has_initial_facts) {
        Ok(()) => Ok(rules),
        Err(failure) => Err(failure),
    }
}

/// The letters of the facts that were asked for, in the order of the
/// alphabet.
pub fn queries_of_parsed(facts: &Facts) -> (queries: Vec<char>)
    requires
        facts.wf(),
    ensures
        queries@ == asked_letters(facts@),
        forall|i: int| 0 <= i < queries@.len() ==> is_letter(#[trigger] queries@[i]),
{
    let mut queries: Vec<char> = Vec::new();
    let mut i: usize = 0;
    while i < 26
        invariant
            i <= 26,
            facts.wf(),
            queries@ == asked_letters(facts@.take(i as int)),
            forall|j: int| 0 <= j < queries@.len() ==> is_letter(#[trigger] queries@[j]),
        decreases 26 - i,
    {
        let fact = facts.fact_arr[i];
        proof {
            reveal(Seq::filter);
            assert(facts@.take(i + 1).drop_last() == facts@.take(i as int));
            assert(facts@.take(i + 1).last() == fact);
        }
        if fact.queried {
            queries.push(fact.letter);
            assert(queries@ =~= asked_letters(facts@.take(i + 1)));
        }
        i += 1;
    }
    proof {
        assert(facts@.take(26) == facts@);
    }
    queries
}

/// Answers a rule file, given as its lines: the queried facts with their
/// values, in the order of the alphabet.
pub fn expert_system(lines: &Vec<String>) -> (r: Result<Vec<Fact>, Failure>)
    ensures
        match answers(lines.deep_view(), Facts::blank()) {
            Ok(solved) => r is Ok && r->Ok_0@ == solved,
            Err(failure) => r == Err::<Vec<Fact>, Failure>(failure),
        },
        ends_as_allowed(lines.deep_view(), Facts::blank(), false),
{
    let mut facts = Facts::new();
    proof {
        lemma_answers(lines.deep_view(), Facts::blank(), |c: char| 0nat, false);
    }
    let rules = match parser(lines, &mut facts) {
        Ok(rules) => rules,
        Err(failure) => {
            return Err(failure);
        },
    };
    match solve_parsed(rules, &mut facts) {
        Ok(solved) => Ok(solved),
        Err(error) => Err(Failure { error, line: None }),
    }
}

/// Answers the queries that the registry holds by the given rules, which
/// are still in infix form.
pub fn solve_parsed(rules: Rules, facts: &mut Facts) -> (r: Result<Vec<Fact>, Error>)
    requires
        old(facts).wf(),
    ensures
        final(facts).wf(),
        final(facts).is_stable == old(facts).is_stable,
        final(facts)@ == inferred(rules@, old(facts)@).0,
        match inferred(rules@, old(facts)@).1 {
            Ok(solved) => r is Ok && r->Ok_0@ == solved,
            Err(error) => r == Err::<Vec<Fact>, Error>(error),
        },
{
    let mut rules = rules;
    match rules.as_reverse_polish_notation() {
        Ok(()) => {},
        Err(error) => {
            return Err(error);
        },
    }
    let queries = queries_of_parsed(facts);
    if queries.len() == 0 {
        return Err(Error::MissingQueries);
    }
    solve(queries, rules, facts)
}

/// A line of initial facts leaves the registry a registry, changes no
/// fact but to make it true and final, and is refused only for a
/// character that it may not hold or a fact declared twice.
pub proof fn lemma_declare_true(facts: Seq<Fact>, chars: Seq<char>)
    requires
        is_registry(facts),
    ensures
        is_registry(declare_true(facts, chars).0),
        declare_true(facts, chars).1 matches Err(e) ==> e is ParseError
            || e is DuplicateDeclaration,
        forall|k: int|
            0 <= k < 26 ==> {
                let after = #[trigger] declare_true(facts, chars).0[k];
                after == facts[k] || (!facts[k].state && after == facts[k].settled(true))
            },
    decreases chars.len(),
{
    if chars.len() > 0 {
        let c = chars[0];
        if c != '#' && is_letter(c) && !facts[letter_index(c)].state {
            let i = letter_index(c);
            let next = facts.update(i, facts[i].settled(true));
            assert(is_registry(next));
            lemma_declare_true(next, chars.drop_first());
        }
    }
}

/// A line of queries leaves the registry a registry, changes no fact but
/// to mark it as asked for, and is refused only for a character that it
/// may not hold or a fact asked for twice.
pub proof fn lemma_declare_asked(facts: Seq<Fact>, chars: Seq<char>)
    requires
        is_registry(facts),
    ensures
        is_registry(declare_asked(facts, chars).0),
        declare_asked(facts, chars).1 matches Err(e) ==> e is ParseError
            || e is DuplicateDeclaration,
        forall|k: int|
            0 <= k < 26 ==> {
                let after = #[trigger] declare_asked(facts, chars).0[k];
                after == facts[k] || (!facts[k].queried && after == facts[k].asked())
            },
    decreases chars.len(),
{
    if chars.len() > 0 {
        let c = chars[0];
        if c != '#' && is_letter(c) && !facts[letter_index(c)].queried {
            let i = letter_index(c);
            let next = facts.update(i, facts[i].asked());
            assert(is_registry(next));
            lemma_declare_asked(next, chars.drop_first());
        }
    }
}

/// Whether every rule is one that some line writes.
pub open spec fn all_written(rules: Seq<RuleView>) -> bool {
    forall|j: int| 0 <= j < rules.len() ==> is_written(#[trigger] rules[j])
}

/// Reading lines keeps the registry a registry and gathers only rules
/// that lines write. It is refused on a line only for what the line
/// holds or declares twice, and at the end only for want of initial facts.
pub proof fn lemma_read_lines(state: Reading, lines: Seq<Seq<char>>, i: int)
    requires
        is_registry(state.facts),
        all_written(state.rules),
        0 <= i,
    ensures
        ({
            let (read, r) = read_lines(state, lines, i);
            &&& is_registry(read.facts)
            &&& all_written(read.rules)
            &&& r matches Err(failure) ==> match failure.line {
                Some(_) => failure.error is ParseError || failure.error is DuplicateDeclaration,
                None => failure.error is MissingInitialFacts,
            }
        }),
    decreases lines.len() - i,
{
    if i < lines.len() {
        let line = lines[i];
        let (next, r) = read_line(state, line);
        lemma_declare_true(state.facts, declared(line));
        lemma_declare_asked(state.facts, declared(line));
        if kind_of(line) == LineKind::Rule && parse_rule(line) is Some {
            let rule = parse_rule(line).unwrap();
            assert(is_written(rule));
            assert forall|j: int| 0 <= j < next.rules.len() implies is_written(
                #[trigger] next.rules[j],
            ) by {
                if j < state.rules.len() {
                    assert(next.rules[j] == state.rules[j]);
                }
            }
        }
        if r is Ok {
            lemma_read_lines(next, lines, i + 1);
        }
    }
}

/// Rules that lines write can all be put in postfix form, and are then
/// well formed.
pub proof fn lemma_written_rules(rules: Seq<RuleView>)
    requires
        all_written(rules),
    ensures
        all_rpn(rules) matches Some(postfix) && well_formed(postfix),
{
    assert forall|j: int| 0 <= j < rules.len() implies (#[trigger] rules[j]).rpn() is Some by {
        lemma_written_rule(rules[j]);
    }
    let postfix = all_rpn(rules).unwrap();
    assert forall|j: int| 0 <= j < postfix.len() implies (parse_postfix(
        (#[trigger] postfix[j]).lhs,
    ) matches Some(e) && forall|c: char| e.mentions(c) ==> is_letter(c)) by {
        lemma_written_rule(rules[j]);
    }
}

/// The letters that are asked for are letters of facts that the registry
/// marks as asked for.
pub proof fn lemma_asked_letters(facts: Seq<Fact>, j: int)
    requires
        facts.len() <= 26,
        forall|k: int|
            0 <= k < facts.len() ==> (#[trigger] facts[k]).letter as int == 'A' as int + k,
        0 <= j < asked_letters(facts).len(),
    ensures
        is_letter(asked_letters(facts)[j]),
        letter_index(asked_letters(facts)[j]) < facts.len(),
        facts[letter_index(asked_letters(facts)[j])].queried,
    decreases facts.len(),
{
    reveal(Seq::filter);
    let shorter = facts.drop_last();
    let last = facts.last();
    if last.queried {
        assert(asked_letters(facts) =~= asked_letters(shorter).push(last.letter));
    } else {
        assert(asked_letters(facts) =~= asked_letters(shorter));
    }
    if j < asked_letters(shorter).len() {
        lemma_asked_letters(shorter, j);
    }
}

/// Whether answering a rule file ends as it may. Where it gives
/// answers, each is a fact that was asked for, settled with the value
/// that it has by the rules from the initial facts. Where it fails on a
/// line, the line holds what it may not hold or declares twice. Where it
/// fails on the file as a whole, the file has no initial facts or no
/// queries, or its rules contradict each other or, unless they are known
/// to be without a cycle, are circular: the fact that is named lies on a
/// circle of facts that the file leaves open. A rule that was read is
/// never found malformed later.
pub open spec fn ends_as_allowed(lines: Seq<Seq<char>>, start: Seq<Fact>, acyclic: bool) -> bool {
    let read = read_lines(reading_from(start), lines, 0).0;
    match answers(lines, start) {
        Ok(solved) => forall|j: int|
            0 <= j < solved.len() ==> {
                &&& (#[trigger] solved[j]).determined
                &&& solved[j].queried
                &&& value(all_rpn(read.rules).unwrap(), read.facts, Seq::empty(), solved[j].letter)
                    == Ok::<bool, Error>(solved[j].state)
            },
        Err(failure) => match failure.error {
            Error::ParseError => failure.line is Some,
            Error::DuplicateDeclaration(_) => failure.line is Some,
            Error::MissingInitialFacts => failure.line is None,
            Error::MissingQueries => failure.line is None,
            Error::Contradiction(_) => failure.line is None,
            Error::CircularDependency(x) => {
                &&& failure.line is None
                &&& !acyclic
                &&& on_circle(all_rpn(read.rules).unwrap(), read.facts, x)
            },
            Error::MalformedExpression => false,
        },
    }
}

/// Answering a rule file ends as it may; where the rules of the file are
/// ranked so that each reads only facts of a lower rank than those it
/// can justify, it does not end in a circular dependency.
pub proof fn lemma_answers(
    lines: Seq<Seq<char>>,
    start: Seq<Fact>,
    rank: spec_fn(char) -> nat,
    acyclic: bool,
)
    requires
        is_registry(start),
        acyclic ==> (all_rpn(read_lines(reading_from(start), lines, 0).0.rules) matches Some(rules)
            ==> stratified(rules, rank)),
    ensures
        ends_as_allowed(lines, start, acyclic),
{
    let (read, status) = read_lines(reading_from(start), lines, 0);
    lemma_read_lines(reading_from(start), lines, 0);
    if status is Ok {
        lemma_written_rules(read.rules);
        let rules = all_rpn(read.rules).unwrap();
        let queries = asked_letters(read.facts);
        assert forall|j: int| 0 <= j < queries.len() implies is_letter(#[trigger] queries[j])
            && read.facts[letter_index(queries[j])].queried by {
            lemma_asked_letters(read.facts, j);
        }
        lemma_solve_failures(rules, read.facts, queries, 0, rank, acyclic);
        lemma_solve_names_circle(rules, read.facts, queries, 0);
        lemma_solve_grows(rules, read.facts, queries, 0);
        lemma_faithful_self(rules, read.facts);
        lemma_solve_values(rules, read.facts, read.facts, queries, 0);
        let (after, r) = solve_spec(rules, read.facts, queries, 0);
        if r is Ok && queries.len() > 0 {
            let solved = queries.map_values(|c: char| after[letter_index(c)]);
            assert forall|j: int| 0 <= j < solved.len() implies {
                &&& (#[trigger] solved[j]).determined
                &&& solved[j].queried
                &&& value(rules, read.facts, Seq::empty(), solved[j].letter) == Ok::<bool, Error>(
                    solved[j].state,
                )
            } by {
                let at = letter_index(queries[j]);
                assert(after[at] == read.facts[at] || after[at] == read.facts[at].settled(
                    after[at].state,
                ));
                assert(after[at].letter == queries[j]);
            }
        }
    }
}

} // verus!
