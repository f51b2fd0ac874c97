//! The arena that holds expression trees.

use vstd::prelude::*;

use crate::expr::{connective_of, Expr};
use crate::token::{Operand, Token};

verus! {

/// One entry of the arena: a token with the places of its parent and of
/// its children in the same arena.
#[derive(Copy, Clone, Debug, PartialEq, Eq)]
pub struct Node {
    pub content: Token,
    pub parent: Option<usize>,
    pub lhs: Option<usize>,
    pub rhs: Option<usize>,
}

/// An arena of nodes that holds expression trees. Nodes are only ever
/// added; a node is known by its index.
#[derive(Clone, Debug, PartialEq, Eq)]
pub struct Graph {
    pub nodes: Vec<Node>,
}

impl View for Graph {
    type V = Seq<Node>;

    open spec fn view(&self) -> Seq<Node> {
        self.nodes@
    }
}

/// Whether the nodes from `at` on hold the expression `e` under the given
/// parent, laid out root first: a node, then its right subtree, then its
/// left subtree; a negation keeps its only child on the left.
pub open spec fn laid_out(nodes: Seq<Node>, at: int, parent: Option<usize>, e: Expr) -> bool
    decreases e,
{
    &&& 0 <= at < nodes.len()
    &&& nodes[at].parent == parent
    &&& match e {
        Expr::Fact(c) => {
            &&& nodes[at].content == Token::of_fact(c)
            &&& nodes[at].lhs is None
            &&& nodes[at].rhs is None
        },
        Expr::Not(a) => {
            &&& nodes[at].content == Token::of_op(Operand::Not)
            &&& nodes[at].lhs matches Some(l) && l == at + 1
            &&& nodes[at].rhs is None
            &&& laid_out(nodes, at + 1, Some(at as usize), *a)
        },
        Expr::Binary(k, l, r) => {
            &&& nodes[at].content == Token::of_op(k.operand())
            &&& nodes[at].rhs matches Some(r_at) && r_at == at + 1
            &&& nodes[at].lhs matches Some(l_at) && l_at == at + 1 + r.size()
            &&& laid_out(nodes, at + 1, Some(at as usize), *r)
            &&& laid_out(nodes, at + 1 + r.size(), Some(at as usize), *l)
        },
    }
}

/// Whether the arena `after` is the arena `before` with nodes added behind
/// it: no node of `before` has changed.
pub open spec fn keeps(before: Seq<Node>, after: Seq<Node>) -> bool {
    &&& before.len() <= after.len()
    &&& forall|j: int| 0 <= j < before.len() ==> #[trigger] after[j] == before[j]
}

/// The expression that the arena holds under the node `at`, as far as
/// it is found within `depth` nodes from `at` downwards: a fact without
/// children, a negation with a left child, a connective with both, each
/// child a place of the arena. A negation applies to its left child; what
/// its right slot holds counts for nothing.
pub open spec fn tree_within(nodes: Seq<Node>, at: int, depth: nat) -> Option<Expr>
    decreases depth,
{
    if depth == 0 || at < 0 || at >= nodes.len() {
        None
    } else {
        let node = nodes[at];
        let below = (depth - 1) as nat;
        match (node.content.as_fact(), node.content.as_op()) {
            (Some(c), _) => if node.lhs is None && node.rhs is None {
                Some(Expr::Fact(c))
            } else {
                None
            },
            (None, Some(Operand::Not)) => match node.lhs {
                Some(l) => match tree_within(nodes, l as int, below) {
                    Some(a) => Some(Expr::Not(Box::new(a))),
                    None => None,
                },
                None => None,
            },
            (None, Some(op)) => match (connective_of(op), node.lhs, node.rhs) {
                (Some(k), Some(l), Some(r)) => match (
                    tree_within(nodes, l as int, below),
                    tree_within(nodes, r as int, below),
                ) {
                    (Some(a), Some(b)) => Some(Expr::Binary(k, Box::new(a), Box::new(b))),
                    _ => None,
                },
                _ => None,
            },
            (None, None) => None,
        }
    }
}

/// The expression that the arena holds under the node `at`, if the nodes
/// under it are complete. The children of a node may stand anywhere in
/// the arena. Nodes that lead back to themselves hold no expression: a
/// tree in an arena is no deeper than the arena is long.
pub open spec fn tree_at(nodes: Seq<Node>, at: int) -> Option<Expr> {
    tree_within(nodes, at, nodes.len())
}

/// An expression that is found within a depth is found within every
/// greater depth.
pub proof fn lemma_tree_deeper(nodes: Seq<Node>, at: int, depth: nat, deeper: nat)
    requires
        tree_within(nodes, at, depth) is Some,
        depth <= deeper,
    ensures
        tree_within(nodes, at, deeper) == tree_within(nodes, at, depth),
    decreases depth,
{
    let node = nodes[at];
    let below = (depth - 1) as nat;
    let further = (deeper - 1) as nat;
    match (node.content.as_fact(), node.content.as_op()) {
        (Some(_), _) => {},
        (None, Some(Operand::Not)) => {
            lemma_tree_deeper(nodes, node.lhs.unwrap() as int, below, further);
        },
        (None, Some(_)) => {
            lemma_tree_deeper(nodes, node.lhs.unwrap() as int, below, further);
            lemma_tree_deeper(nodes, node.rhs.unwrap() as int, below, further);
        },
        (None, None) => {},
    }
}

/// An expression that is found within a depth is no higher than that
/// depth, and is found within its own height.
pub proof fn lemma_tree_height(nodes: Seq<Node>, at: int, depth: nat)
    requires
        tree_within(nodes, at, depth) is Some,
    ensures
        tree_within(nodes, at, depth).unwrap().height() <= depth,
        tree_within(nodes, at, tree_within(nodes, at, depth).unwrap().height()) == tree_within(
            nodes,
            at,
            depth,
        ),
    decreases depth,
{
    let node = nodes[at];
    let below = (depth - 1) as nat;
    let e = tree_within(nodes, at, depth).unwrap();
    match (node.content.as_fact(), node.content.as_op()) {
        (Some(_), _) => {},
        (None, Some(Operand::Not)) => {
            let l = node.lhs.unwrap() as int;
            lemma_tree_height(nodes, l, below);
        },
        (None, Some(_)) => {
            let l = node.lhs.unwrap() as int;
            let r = node.rhs.unwrap() as int;
            lemma_tree_height(nodes, l, below);
            lemma_tree_height(nodes, r, below);
            let a = tree_within(nodes, l, below).unwrap();
            let b = tree_within(nodes, r, below).unwrap();
            let top = (e.height() - 1) as nat;
            lemma_tree_deeper(nodes, l, a.height(), top);
            lemma_tree_deeper(nodes, r, b.height(), top);
        },
        (None, None) => {},
    }
}

/// A place of the arena holds the same expression at whatever depths it
/// holds one.
pub proof fn lemma_tree_one(nodes: Seq<Node>, at: int, first: nat, second: nat)
    requires
        tree_within(nodes, at, first) is Some,
        tree_within(nodes, at, second) is Some,
    ensures
        tree_within(nodes, at, first) == tree_within(nodes, at, second),
{
    if first <= second {
        lemma_tree_deeper(nodes, at, first, second);
    } else {
        lemma_tree_deeper(nodes, at, second, first);
    }
}

/// Whether the place `at` holds, at some depth, an expression of more
/// than the given size.
pub open spec fn holds_more(nodes: Seq<Node>, at: int, size: nat) -> bool {
    exists|depth: nat| #[trigger]
        tree_within(nodes, at, depth) matches Some(e) && e.size() > size
}

/// An expression that is found under a place, below places that hold
/// larger expressions, leaves room for those places: its height and their
/// number together do not exceed the length of the arena.
pub proof fn lemma_tree_fits(nodes: Seq<Node>, at: int, depth: nat, above: Set<int>)
    requires
        tree_within(nodes, at, depth) is Some,
        above.finite(),
        forall|s: int| above.contains(s) ==> 0 <= s < nodes.len(),
        forall|s: int|
            above.contains(s) ==> holds_more(
                nodes,
                s,
                tree_within(nodes, at, depth).unwrap().size(),
            ),
    ensures
        tree_within(nodes, at, depth).unwrap().height() + above.len() <= nodes.len(),
    decreases depth,
{
    let e = tree_within(nodes, at, depth).unwrap();
    let node = nodes[at];
    let below = (depth - 1) as nat;
    let n = nodes.len() as int;
    if above.contains(at) {
        let d = choose|d: nat| #[trigger]
            tree_within(nodes, at, d) matches Some(x) && x.size() > e.size();
        lemma_tree_one(nodes, at, d, depth);
    }
    let wider = above.insert(at);
    assert(wider.len() == above.len() + 1);
    assert(wider.len() <= n) by {
        vstd::set_lib::lemma_int_range(0, n);
        assert(wider.subset_of(vstd::set_lib::set_int_range(0, n)));
        vstd::set_lib::lemma_len_subset(wider, vstd::set_lib::set_int_range(0, n));
    }
    match (node.content.as_fact(), node.content.as_op()) {
        (Some(_), _) => {},
        (None, Some(Operand::Not)) => {
            let l = node.lhs.unwrap() as int;
            let a = tree_within(nodes, l, below).unwrap();
            assert forall|s: int| wider.contains(s) implies holds_more(nodes, s, a.size()) by {
                if s == at {
                    assert(tree_within(nodes, at, depth) matches Some(x) && x.size() > a.size());
                } else {
                    let d = choose|d: nat| #[trigger]
                        tree_within(nodes, s, d) matches Some(x) && x.size() > e.size();
                    assert(tree_within(nodes, s, d) matches Some(x) && x.size() > a.size());
                }
            }
            lemma_tree_fits(nodes, l, below, wider);
        },
        (None, Some(_)) => {
            let l = node.lhs.unwrap() as int;
            let r = node.rhs.unwrap() as int;
            let a = tree_within(nodes, l, below).unwrap();
            let b = tree_within(nodes, r, below).unwrap();
            assert forall|s: int| wider.contains(s) implies holds_more(nodes, s, a.size())
                && holds_more(nodes, s, b.size()) by {
                if s == at {
                    assert(tree_within(nodes, at, depth) matches Some(x) && x.size() > a.size());
                    assert(tree_within(nodes, at, depth) matches Some(x) && x.size() > b.size());
                } else {
                    let d = choose|d: nat| #[trigger]
                        tree_within(nodes, s, d) matches Some(x) && x.size() > e.size();
                    assert(tree_within(nodes, s, d) matches Some(x) && x.size() > a.size());
                    assert(tree_within(nodes, s, d) matches Some(x) && x.size() > b.size());
                }
            }
            lemma_tree_fits(nodes, l, below, wider);
            lemma_tree_fits(nodes, r, below, wider);
        },
        (None, None) => {},
    }
}

/// Every complete tree is held: an expression that is found under a place
/// within any depth is the expression that the arena holds there.
pub proof fn lemma_tree_complete(nodes: Seq<Node>, at: int, depth: nat)
    requires
        tree_within(nodes, at, depth) is Some,
    ensures
        tree_at(nodes, at) == tree_within(nodes, at, depth),
{
    let e = tree_within(nodes, at, depth).unwrap();
    lemma_tree_fits(nodes, at, depth, Set::empty());
    lemma_tree_height(nodes, at, depth);
    lemma_tree_deeper(nodes, at, e.height(), nodes.len());
}

/// The parts of the expression that a node holds are the expressions
/// that its children hold.
pub proof fn lemma_tree_children(nodes: Seq<Node>, at: int)
    requires
        tree_at(nodes, at) is Some,
    ensures
        0 <= at < nodes.len(),
        match tree_at(nodes, at).unwrap() {
            Expr::Fact(c) => nodes[at].content.as_fact() == Some(c),
            Expr::Not(a) => {
                &&& nodes[at].content == Token::of_op(Operand::Not)
                &&& nodes[at].lhs matches Some(l) && tree_at(nodes, l as int) == Some(*a)
            },
            Expr::Binary(k, a, b) => {
                &&& nodes[at].content == Token::of_op(k.operand())
                &&& nodes[at].lhs matches Some(l) && tree_at(nodes, l as int) == Some(*a)
                &&& nodes[at].rhs matches Some(r) && tree_at(nodes, r as int) == Some(*b)
            },
        },
{
    let node = nodes[at];
    let depth = nodes.len();
    let below = (depth - 1) as nat;
    match (node.content.as_fact(), node.content.as_op()) {
        (Some(_), _) => {},
        (None, Some(Operand::Not)) => {
            lemma_tree_deeper(nodes, node.lhs.unwrap() as int, below, depth);
        },
        (None, Some(_)) => {
            lemma_tree_deeper(nodes, node.lhs.unwrap() as int, below, depth);
            lemma_tree_deeper(nodes, node.rhs.unwrap() as int, below, depth);
        },
        (None, None) => {},
    }
}

/// A node that holds a fact and has no children is that fact, laid out.
pub proof fn lemma_laid_out_leaf(nodes: Seq<Node>, at: int, parent: Option<usize>, c: char)
    requires
        0 <= at < nodes.len(),
        nodes[at] == (Node { content: Token::of_fact(c), parent, lhs: None, rhs: None }),
    ensures
        laid_out(nodes, at, parent, Expr::Fact(c)),
{
}

/// An expression that is laid out in the arena lies within it.
pub proof fn lemma_laid_out_extent(nodes: Seq<Node>, at: int, parent: Option<usize>, e: Expr)
    requires
        laid_out(nodes, at, parent, e),
    ensures
        at + e.size() <= nodes.len(),
    decreases e,
{
    match e {
        Expr::Fact(_) => {},
        Expr::Not(a) => {
            lemma_laid_out_extent(nodes, at + 1, Some(at as usize), *a);
        },
        Expr::Binary(_, l, r) => {
            lemma_laid_out_extent(nodes, at + 1, Some(at as usize), *r);
            lemma_laid_out_extent(nodes, at + 1 + r.size(), Some(at as usize), *l);
        },
    }
}

/// An expression that is laid out in one arena is laid out in every arena
/// that holds the same nodes at its places.
pub proof fn lemma_laid_out_frame(
    nodes: Seq<Node>,
    other: Seq<Node>,
    at: int,
    parent: Option<usize>,
    e: Expr,
)
    requires
        laid_out(nodes, at, parent, e),
        at + e.size() <= other.len(),
        forall|j: int| at <= j < at + e.size() ==> nodes[j] == other[j],
    ensures
        laid_out(other, at, parent, e),
    decreases e,
{
    e.lemma_size();
    match e {
        Expr::Fact(_) => {},
        Expr::Not(a) => {
            lemma_laid_out_frame(nodes, other, at + 1, Some(at as usize), *a);
        },
        Expr::Binary(_, l, r) => {
            l.lemma_size();
            r.lemma_size();
            lemma_laid_out_frame(nodes, other, at + 1, Some(at as usize), *r);
            lemma_laid_out_frame(nodes, other, at + 1 + r.size(), Some(at as usize), *l);
        },
    }
}

/// An expression that is laid out in the arena is found within every
/// depth that is not less than its size.
pub proof fn lemma_laid_out_within(
    nodes: Seq<Node>,
    at: int,
    parent: Option<usize>,
    e: Expr,
    depth: nat,
)
    requires
        laid_out(nodes, at, parent, e),
        e.size() <= depth,
    ensures
        tree_within(nodes, at, depth) == Some(e),
    decreases e,
{
    e.lemma_size();
    let below = (depth - 1) as nat;
    match e {
        Expr::Fact(_) => {},
        Expr::Not(a) => {
            lemma_laid_out_within(nodes, at + 1, Some(at as usize), *a, below);
        },
        Expr::Binary(k, l, r) => {
            l.lemma_size();
            r.lemma_size();
            lemma_laid_out_within(nodes, at + 1, Some(at as usize), *r, below);
            lemma_laid_out_within(nodes, at + 1 + r.size(), Some(at as usize), *l, below);
        },
    }
}

/// An expression that is laid out in the arena is the one that the arena
/// holds at that place.
pub proof fn lemma_laid_out_tree(nodes: Seq<Node>, at: int, parent: Option<usize>, e: Expr)
    requires
        laid_out(nodes, at, parent, e),
    ensures
        tree_at(nodes, at) == Some(e),
{
    lemma_laid_out_extent(nodes, at, parent, e);
    lemma_laid_out_within(nodes, at, parent, e, nodes.len());
}

impl Graph {
    /// The arena without nodes.
    pub fn new() -> (graph: Graph)
        ensures
            graph@.len() == 0,
    {
        Graph { nodes: Vec::new() }
    }

    pub fn len(&self) -> (n: usize)
        ensures
            n == self@.len(),
    {
        self.nodes.len()
    }

    /// The node at an index, if the arena has one there.
    pub fn get(&self, index: usize) -> (node: Option<&Node>)
        ensures
            node == if index < self@.len() {
                Some(&self@[index as int])
            } else {
                None
            },
    {
        if index < self.nodes.len() {
            Some(&self.nodes[index])
        } else {
            None
        }
    }

    /// Adds a node without children and gives its index.
    pub fn add(&mut self, content: Token, parent: Option<usize>) -> (index: usize)
        ensures
            index == old(self)@.len(),
            final(self)@ == old(self)@.push(Node { content, parent, lhs: None, rhs: None }),
    {
        let index = self.nodes.len();
        self.nodes.push(Node { content, parent, lhs: None, rhs: None });
        index
    }

    /// Sets the children of the node at `index`.
    pub fn link(&mut self, index: usize, lhs: Option<usize>, rhs: Option<usize>)
        requires
            index < old(self)@.len(),
        ensures
            final(self)@ == old(self)@.update(
                index as int,
                Node { lhs, rhs, ..old(self)@[index as int] },
            ),
    {
        let node = self.nodes[index];
        self.nodes[index] = Node { content: node.content, parent: node.parent, lhs, rhs };
    }

    /// Whether the nodes under `at` are complete, so that they hold an
    /// expression.
    pub fn is_tree(&self, at: usize) -> (b: bool)
        ensures
            b == tree_at(self@, at as int) is Some,
    {
        self.is_tree_within(at, self.nodes.len())
    }

    /// Whether the nodes under `at` hold an expression that is found
    /// within `depth` nodes downwards.
    pub fn is_tree_within(&self, at: usize, depth: usize) -> (b: bool)
        ensures
            b == tree_within(self@, at as int, depth as nat) is Some,
        decreases depth,
    {
        if depth == 0 || at >= self.nodes.len() {
            return false;
        }
        let node = self.nodes[at];
        let token = node.content;
        if token.operand.is_none() {
            token.fact.is_some() && node.lhs.is_none() && node.rhs.is_none()
        } else if token.fact.is_some() {
            false
        } else {
            match (token.operand, node.lhs, node.rhs) {
                (Some(Operand::Not), Some(l), _) => self.is_tree_within(l, depth - 1),
                (Some(Operand::And), Some(l), Some(r))
                | (Some(Operand::Xor), Some(l), Some(r))
                | (Some(Operand::Or), Some(l), Some(r)) => self.is_tree_within(l, depth - 1)
                    && self.is_tree_within(r, depth - 1),
                _ => false,
            }
        }
    }
}

} // verus!
