//! Building an expression tree from a postfix token sequence.

use vstd::prelude::*;

use crate::error::Error;
use crate::expr::{expr_ending_at, lemma_read_back_sound, parse_postfix, Expr};
use crate::graph::{
    keeps, laid_out, lemma_laid_out_extent, lemma_laid_out_frame, lemma_laid_out_leaf, tree_at,
    Graph, Node,
};
use crate::token::{Operand, Token};

verus! {

/// Adds an operand node, still without children, under the given parent.
pub fn push_operand(graph: &mut Graph, token: Token, parent: Option<usize>) -> (index: usize)
    ensures
        index == old(graph)@.len(),
        final(graph)@ == old(graph)@.push(Node { content: token, parent, lhs: None, rhs: None }),
{
    graph.add(token, parent)
}

/// Adds a leaf under the given parent. Where the token is a fact, the
/// leaf is the tree of that fact.
pub fn push_fact(graph: &mut Graph, token: Token, parent: Option<usize>) -> (index: usize)
    ensures
        index == old(graph)@.len(),
        final(graph)@ == old(graph)@.push(Node { content: token, parent, lhs: None, rhs: None }),
        token.as_fact() matches Some(c) ==> laid_out(
            final(graph)@,
            index as int,
            parent,
            Expr::Fact(c),
        ),
{
    let index = graph.add(token, parent);
    proof {
        if let Some(c) = token.as_fact() {
            assert(token == Token::of_fact(c));
            lemma_laid_out_leaf(graph@, index as int, parent, c);
        }
    }
    index
}

/// Adds, under the given parent, the tree of the expression whose postfix
/// form ends just before `end`, and gives the position at which that form
/// begins. The tree's root comes first, then its right subtree, then its
/// left subtree. The nodes that the arena held stay as they were. Where no
/// expression ends there, the place at which the tree would begin holds
/// none: nothing was added there, or an operand that lacks a child.
pub fn push_rec(graph: &mut Graph, tokens: &Vec<Token>, end: usize, parent: Option<usize>) -> (r:
    Result<usize, Error>)
    requires
        end <= tokens.len(),
    ensures
        keeps(old(graph)@, final(graph)@),
        match expr_ending_at(tokens@, end as int) {
            Some((e, start)) => {
                &&& r == Ok::<usize, Error>(start as usize)
                &&& 0 <= start < end
                &&& final(graph)@.len() == old(graph)@.len() + e.size()
                &&& laid_out(final(graph)@, old(graph)@.len() as int, parent, e)
            },
            None => {
                &&& r == Err::<usize, Error>(Error::MalformedExpression)
                &&& tree_at(final(graph)@, old(graph)@.len() as int) is None
            },
        },
    decreases end,
{
    if end == 0 {
        return Err(Error::MalformedExpression);
    }
    proof {
        if expr_ending_at(tokens@, end as int) is Some {
            lemma_read_back_sound(tokens@, end as int);
        }
    }
    let token = tokens[end - 1];
    let at = graph.len();
    let op = match (token.operand, token.fact) {
        (None, Some(_)) => {
            push_fact(graph, token, parent);
            return Ok(end - 1);
        },
        (Some(op), None) => op,
        _ => {
            return Err(Error::MalformedExpression);
        },
    };
    match op {
        Operand::Not => {
            push_operand(graph, token, parent);
            let ghost pushed = graph@;
            let child = graph.len();
            let start = match push_rec(graph, tokens, end - 1, Some(at)) {
                Ok(start) => start,
                Err(e) => {
                    return Err(e);
                },
            };
            let ghost built = graph@;
            graph.link(at, Some(child), None);
            proof {
                let (a, _) = expr_ending_at(tokens@, end - 1)->0;
                assert(built[at as int] == pushed[at as int]);
                lemma_laid_out_extent(built, child as int, Some(at), a);
                lemma_laid_out_frame(built, graph@, child as int, Some(at), a);
            }
            Ok(start)
        },
        Operand::And | Operand::Xor | Operand::Or => {
            push_operand(graph, token, parent);
            let ghost pushed = graph@;
            let right = graph.len();
            let mid = match push_rec(graph, tokens, end - 1, Some(at)) {
                Ok(mid) => mid,
                Err(e) => {
                    return Err(e);
                },
            };
            let ghost half = graph@;
            let left = graph.len();
            let start = match push_rec(graph, tokens, mid, Some(at)) {
                Ok(start) => start,
                Err(e) => {
                    return Err(e);
                },
            };
            let ghost built = graph@;
            graph.link(at, Some(left), Some(right));
            proof {
                let (r, _) = expr_ending_at(tokens@, end - 1)->0;
                let (l, _) = expr_ending_at(tokens@, mid as int)->0;
                assert(half[at as int] == pushed[at as int]);
                assert(built[at as int] == half[at as int]);
                lemma_laid_out_extent(half, right as int, Some(at), r);
                lemma_laid_out_extent(built, left as int, Some(at), l);
                lemma_laid_out_frame(half, graph@, right as int, Some(at), r);
                lemma_laid_out_frame(built, graph@, left as int, Some(at), l);
            }
            Ok(start)
        },
        _ => Err(Error::MalformedExpression),
    }
}

/// Builds the tree of a postfix token sequence, its root at index 0.
/// A sequence that is not the postfix form of an expression is refused.
pub fn generate_tree(tokens: &Vec<Token>) -> (r: Result<Graph, Error>)
    ensures
        match parse_postfix(tokens@) {
            Some(e) => {
                &&& r is Ok
                &&& r->Ok_0@.len() == tokens.len()
                &&& laid_out(r->Ok_0@, 0, None, e)
            },
            None => r == Err::<Graph, Error>(Error::MalformedExpression),
        },
{
    let mut graph = Graph::new();
    match push_rec(&mut graph, tokens, tokens.len(), None) {
        Ok(start) => {
            if start == 0 {
                proof {
                    lemma_read_back_sound(tokens@, tokens.len() as int);
                }
                Ok(graph)
            } else {
                Err(Error::MalformedExpression)
            }
        },
        Err(e) => Err(e),
    }
}

} // verus!
