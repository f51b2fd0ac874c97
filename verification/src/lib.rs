//! A propositional-logic inference engine.
//!
//! Facts are the twenty-six boolean variables `A` to `Z`. Rules are
//! implications (`=>`) or equivalences (`<=>`) from an expression over
//! `!`, `+`, `^`, `|` and parentheses to a conjunction of facts. A query is
//! answered by backward chaining under a closed-world assumption.
//!
//! The way of a rule file through the library: [`expert_system`] reads its
//! lines, [`rule`] reads each rule into tokens, [`rpn`] puts both sides of
//! each rule in postfix form, [`tree_builder`] lays the antecedents out as
//! trees in a [`graph`], and [`solver`] resolves the queries over the
//! registry of [`facts`], with [`checker`] watching for circles.
//!
//! What the resolver computes is stated twice. [`solver::resolve_spec`]
//! follows the resolver step by step, with the values that it keeps in
//! the registry. [`meaning::value`] gives the value of a fact by the rules
//! alone; [`meaning`] proves that the two agree, [`resolution`] what else
//! holds of every run, and [`order`] that the order of the rules changes
//! no answer. [`kept`] proves what the conversion to postfix form keeps
//! of the tokens.

pub mod checker;
pub mod error;
pub mod expert_system;
pub mod expr;
pub mod facts;
pub mod graph;
pub mod kept;
pub mod meaning;
pub mod options;
pub mod order;
pub mod resolution;
pub mod rpn;
pub mod rule;
pub mod solver;
pub mod text;
pub mod token;
pub mod tree_builder;
