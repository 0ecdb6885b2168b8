//! Persistent expression graphs with hash-consing. Scene roots form one
//! shared immutable arena; each image tile owns a fork whose new nodes
//! extend that arena. Interning a node that either arena holds returns its
//! existing id, so every node occurs once and ids are stable.
use std::collections::HashMap;
use std::sync::Arc;
use vstd::prelude::*;

verus! {

broadcast use {
    vstd::std_specs::hash::group_hash_axioms,
    vstd::std_specs::hash::axiom_u128_obeys_hash_table_key_model,
    vstd::std_specs::hash::axiom_random_state_builds_valid_hashers,
};

/// The id of a node: its position across the base arena and the fork.
pub type Id = u32;

/// One-argument operations.
#[derive(Clone, Copy, Debug, PartialEq, Eq, Structural)]
pub enum UnaryOpcode {
    Neg,
    Abs,
    Recip,
    Sqrt,
    Square,
    Floor,
    Ceil,
    Round,
    Sin,
    Cos,
    Tan,
    Asin,
    Acos,
    Atan,
    Exp,
    Ln,
    Not,
    Rand,
}

/// Two-argument operations.
#[derive(Clone, Copy, Debug, PartialEq, Eq, Structural)]
pub enum BinaryOpcode {
    Add,
    Sub,
    Mul,
    Div,
    Min,
    Max,
    Compare,
    Mod,
    And,
    Or,
    Atan,
    Mix,
}

/// An expression node; children are ids of earlier nodes.
#[derive(Clone, Copy, Debug, PartialEq, Eq, Structural)]
pub enum Node {
    Input(u64),
    Constant(u32),
    Unary(UnaryOpcode, Id),
    Binary(BinaryOpcode, Id, Id),
}

pub open spec fn unary_code(op: UnaryOpcode) -> u8 {
    match op {
        UnaryOpcode::Neg => 0,
        UnaryOpcode::Abs => 1,
        UnaryOpcode::Recip => 2,
        UnaryOpcode::Sqrt => 3,
        UnaryOpcode::Square => 4,
        UnaryOpcode::Floor => 5,
        UnaryOpcode::Ceil => 6,
        UnaryOpcode::Round => 7,
        UnaryOpcode::Sin => 8,
        UnaryOpcode::Cos => 9,
        UnaryOpcode::Tan => 10,
        UnaryOpcode::Asin => 11,
        UnaryOpcode::Acos => 12,
        UnaryOpcode::Atan => 13,
        UnaryOpcode::Exp => 14,
        UnaryOpcode::Ln => 15,
        UnaryOpcode::Not => 16,
        UnaryOpcode::Rand => 17,
    }
}

pub open spec fn binary_code(op: BinaryOpcode) -> u8 {
    match op {
        BinaryOpcode::Add => 0,
        BinaryOpcode::Sub => 1,
        BinaryOpcode::Mul => 2,
        BinaryOpcode::Div => 3,
        BinaryOpcode::Min => 4,
        BinaryOpcode::Max => 5,
        BinaryOpcode::Compare => 6,
        BinaryOpcode::Mod => 7,
        BinaryOpcode::And => 8,
        BinaryOpcode::Or => 9,
        BinaryOpcode::Atan => 10,
        BinaryOpcode::Mix => 11,
    }
}

/// The table key of a node: its kind in the low two bits, then its fields.
pub open spec fn spec_key(node: Node) -> u128 {
    match node {
        Node::Input(var) => (var as u128) << 2u128,
        Node::Constant(bits) => 1u128 | ((bits as u128) << 2u128),
        Node::Unary(op, a) => 2u128 | ((unary_code(op) as u128) << 2u128) | ((a as u128) << 10u128),
        Node::Binary(op, a, b) => 3u128 | ((binary_code(op) as u128) << 2u128) | ((a as u128)
            << 10u128) | ((b as u128) << 42u128),
    }
}

fn unary_code_of(op: UnaryOpcode) -> (r: u8)
    ensures
        r == unary_code(op),
{
    match op {
        UnaryOpcode::Neg => 0,
        UnaryOpcode::Abs => 1,
        UnaryOpcode::Recip => 2,
        UnaryOpcode::Sqrt => 3,
        UnaryOpcode::Square => 4,
        UnaryOpcode::Floor => 5,
        UnaryOpcode::Ceil => 6,
        UnaryOpcode::Round => 7,
        UnaryOpcode::Sin => 8,
        UnaryOpcode::Cos => 9,
        UnaryOpcode::Tan => 10,
        UnaryOpcode::Asin => 11,
        UnaryOpcode::Acos => 12,
        UnaryOpcode::Atan => 13,
        UnaryOpcode::Exp => 14,
        UnaryOpcode::Ln => 15,
        UnaryOpcode::Not => 16,
        UnaryOpcode::Rand => 17,
    }
}

fn binary_code_of(op: BinaryOpcode) -> (r: u8)
    ensures
        r == binary_code(op),
{
    match op {
        BinaryOpcode::Add => 0,
        BinaryOpcode::Sub => 1,
        BinaryOpcode::Mul => 2,
        BinaryOpcode::Div => 3,
        BinaryOpcode::Min => 4,
        BinaryOpcode::Max => 5,
        BinaryOpcode::Compare => 6,
        BinaryOpcode::Mod => 7,
        BinaryOpcode::And => 8,
        BinaryOpcode::Or => 9,
        BinaryOpcode::Atan => 10,
        BinaryOpcode::Mix => 11,
    }
}

fn key(node: Node) -> (r: u128)
    ensures
        r == spec_key(node),
{
    match node {
        Node::Input(var) => (var as u128) << 2u128,
        Node::Constant(bits) => 1u128 | ((bits as u128) << 2u128),
        Node::Unary(op, a) => 2u128 | ((unary_code_of(op) as u128) << 2u128) | ((a as u128)
            << 10u128),
        Node::Binary(op, a, b) => 3u128 | ((binary_code_of(op) as u128) << 2u128) | ((a as u128)
            << 10u128) | ((b as u128) << 42u128),
    }
}

proof fn lemma_unary_code_injective(x: UnaryOpcode, y: UnaryOpcode)
    ensures
        unary_code(x) == unary_code(y) ==> x == y,
{
}

proof fn lemma_binary_code_injective(x: BinaryOpcode, y: BinaryOpcode)
    ensures
        binary_code(x) == binary_code(y) ==> x == y,
{
}

/// Distinct nodes have distinct keys.
pub proof fn lemma_key_injective(x: Node, y: Node)
    ensures
        spec_key(x) == spec_key(y) ==> x == y,
{
    if spec_key(x) == spec_key(y) {
        let kx = spec_key(x);
        match x {
            Node::Input(v) => {
                assert(((v as u128) << 2u128) & 3u128 == 0u128) by (bit_vector);
            },
            Node::Constant(c) => {
                assert((1u128 | ((c as u128) << 2u128)) & 3u128 == 1u128) by (bit_vector);
            },
            Node::Unary(op, a) => {
                let o = unary_code(op);
                assert((2u128 | ((o as u128) << 2u128) | ((a as u128) << 10u128)) & 3u128
                    == 2u128) by (bit_vector);
            },
            Node::Binary(op, a, b) => {
                let o = binary_code(op);
                assert((3u128 | ((o as u128) << 2u128) | ((a as u128) << 10u128) | ((b as u128)
                    << 42u128)) & 3u128 == 3u128) by (bit_vector);
            },
        }
        match y {
            Node::Input(v) => {
                assert(((v as u128) << 2u128) & 3u128 == 0u128) by (bit_vector);
            },
            Node::Constant(c) => {
                assert((1u128 | ((c as u128) << 2u128)) & 3u128 == 1u128) by (bit_vector);
            },
            Node::Unary(op, a) => {
                let o = unary_code(op);
                assert((2u128 | ((o as u128) << 2u128) | ((a as u128) << 10u128)) & 3u128
                    == 2u128) by (bit_vector);
            },
            Node::Binary(op, a, b) => {
                let o = binary_code(op);
                assert((3u128 | ((o as u128) << 2u128) | ((a as u128) << 10u128) | ((b as u128)
                    << 42u128)) & 3u128 == 3u128) by (bit_vector);
            },
        }
        match (x, y) {
            (Node::Input(v), Node::Input(w)) => {
                assert(((v as u128) << 2u128) == ((w as u128) << 2u128) ==> v == w)
                    by (bit_vector);
            },
            (Node::Constant(c), Node::Constant(d)) => {
                assert((1u128 | ((c as u128) << 2u128)) == (1u128 | ((d as u128) << 2u128)) ==> c
                    == d) by (bit_vector);
            },
            (Node::Unary(op, a), Node::Unary(oq, b)) => {
                let (o, q) = (unary_code(op), unary_code(oq));
                assert((2u128 | ((o as u128) << 2u128) | ((a as u128) << 10u128)) == (2u128 | ((
                q as u128) << 2u128) | ((b as u128) << 10u128)) ==> o == q && a == b)
                    by (bit_vector);
                lemma_unary_code_injective(op, oq);
            },
            (Node::Binary(op, a, b), Node::Binary(oq, c, d)) => {
                let (o, q) = (binary_code(op), binary_code(oq));
                assert((3u128 | ((o as u128) << 2u128) | ((a as u128) << 10u128) | ((b as u128)
                    << 42u128)) == (3u128 | ((q as u128) << 2u128) | ((c as u128) << 10u128) | ((
                d as u128) << 42u128)) ==> o == q && a == c && b == d) by (bit_vector);
                lemma_binary_code_injective(op, oq);
            },
            _ => {},
        }
    }
}

/// The id that interning `node` gives and the nodes afterwards: the id it
/// already has, or the next id, under which it is appended.
pub open spec fn spec_intern(nodes: Seq<Node>, node: Node) -> (Seq<Node>, Id) {
    if nodes.contains(node) {
        (nodes, nodes.index_of(node) as Id)
    } else {
        (nodes.push(node), nodes.len() as Id)
    }
}

/// Every child of a node is an earlier node.
pub open spec fn acyclic(nodes: Seq<Node>) -> bool {
    forall|i: int, j: int|
        #![trigger nodes[i].spec_children()[j]]
        0 <= i < nodes.len() && 0 <= j < nodes[i].spec_children().len()
            ==> nodes[i].spec_children()[j] < i
}

/// The expression tree that a node stands for.
pub enum Expr {
    Input(u64),
    Constant(u32),
    Unary(UnaryOpcode, Box<Expr>),
    Binary(BinaryOpcode, Box<Expr>, Box<Expr>),
}

/// The expression at `id`, children unfolded; a node whose children do not
/// precede it (which no acyclic graph holds) unfolds to the constant zero.
pub open spec fn unfold(nodes: Seq<Node>, id: Id) -> Expr
    decreases id,
{
    if id >= nodes.len() {
        Expr::Constant(0)
    } else {
        match nodes[id as int] {
            Node::Input(var) => Expr::Input(var),
            Node::Constant(bits) => Expr::Constant(bits),
            Node::Unary(op, a) => if a < id {
                Expr::Unary(op, Box::new(unfold(nodes, a)))
            } else {
                Expr::Constant(0)
            },
            Node::Binary(op, a, b) => if a < id && b < id {
                Expr::Binary(op, Box::new(unfold(nodes, a)), Box::new(unfold(nodes, b)))
            } else {
                Expr::Constant(0)
            },
        }
    }
}

/// Appending nodes changes no existing node's expression.
pub proof fn lemma_unfold_extended(before: Seq<Node>, after: Seq<Node>, id: Id)
    requires
        before.is_prefix_of(after),
        id < before.len(),
    ensures
        unfold(after, id) == unfold(before, id),
    decreases id,
{
    assert(after[id as int] == before[id as int]);
    match before[id as int] {
        Node::Unary(_, a) => {
            if a < id {
                lemma_unfold_extended(before, after, a);
            }
        },
        Node::Binary(_, a, b) => {
            if a < id && b < id {
                lemma_unfold_extended(before, after, a);
                lemma_unfold_extended(before, after, b);
            }
        },
        _ => {},
    }
}


/// In a graph whose nodes are distinct and whose children precede their
/// parents, two ids stand for the same expression only if they are equal:
/// hash-consing shares every repeated subexpression.
pub proof fn lemma_unfold_injective(nodes: Seq<Node>, a: Id, b: Id)
    requires
        nodes.no_duplicates(),
        acyclic(nodes),
        a < nodes.len(),
        b < nodes.len(),
        unfold(nodes, a) == unfold(nodes, b),
    ensures
        a == b,
    decreases a + b,
{
    match (nodes[a as int], nodes[b as int]) {
        (Node::Unary(_, x), Node::Unary(_, y)) => {
            assert(nodes[a as int].spec_children()[0] < a);
            assert(nodes[b as int].spec_children()[0] < b);
            lemma_unfold_injective(nodes, x, y);
        },
        (Node::Binary(_, x, y), Node::Binary(_, z, w)) => {
            assert(nodes[a as int].spec_children()[0] < a);
            assert(nodes[a as int].spec_children()[1] < a);
            assert(nodes[b as int].spec_children()[0] < b);
            assert(nodes[b as int].spec_children()[1] < b);
            lemma_unfold_injective(nodes, x, z);
            lemma_unfold_injective(nodes, y, w);
        },
        (Node::Unary(_, x), _) => {
            assert(nodes[a as int].spec_children()[0] < a);
        },
        (Node::Binary(_, x, y), _) => {
            assert(nodes[a as int].spec_children()[0] < a);
            assert(nodes[a as int].spec_children()[1] < a);
        },
        (_, Node::Unary(_, y)) => {
            assert(nodes[b as int].spec_children()[0] < b);
        },
        (_, Node::Binary(_, z, w)) => {
            assert(nodes[b as int].spec_children()[0] < b);
            assert(nodes[b as int].spec_children()[1] < b);
        },
        _ => {},
    }
}

impl Node {
    /// The children of a node, in argument order.
    pub open spec fn spec_children(self) -> Seq<Id> {
        match self {
            Node::Input(..) | Node::Constant(..) => Seq::empty(),
            Node::Unary(_, a) => seq![a],
            Node::Binary(_, a, b) => seq![a, b],
        }
    }

    /// The children of a node, in argument order.
    pub fn children(self) -> (r: Vec<Id>)
        ensures
            r@ == self.spec_children(),
    {
        let mut r: Vec<Id> = Vec::new();
        match self {
            Node::Input(..) | Node::Constant(..) => {},
            Node::Unary(_, a) => r.push(a),
            Node::Binary(_, a, b) => {
                r.push(a);
                r.push(b);
            },
        }
        assert(r@ =~= self.spec_children());
        r
    }

    /// Whether evaluation chooses between the arguments: minimum,
    /// maximum, and short-circuiting logic.
    pub open spec fn spec_choice(self) -> bool {
        match self {
            Node::Binary(op, _, _) => op == BinaryOpcode::Min || op == BinaryOpcode::Max || op
                == BinaryOpcode::And || op == BinaryOpcode::Or,
            _ => false,
        }
    }

    pub fn choice(self) -> (r: bool)
        ensures
            r == self.spec_choice(),
    {
        match self {
            Node::Binary(BinaryOpcode::Min, ..)
            | Node::Binary(BinaryOpcode::Max, ..)
            | Node::Binary(BinaryOpcode::And, ..)
            | Node::Binary(BinaryOpcode::Or, ..) => true,
            _ => false,
        }
    }
}

/// One arena of a graph, optionally extending a shared base arena.
pub struct Graph {
    pub base: Option<Arc<Graph>>,
    pub nodes: Vec<Node>,
    pub index: HashMap<u128, Id>,
    pub offset: usize,
}

/// Calls `Arc::clone`: another pointer to the same graph.
#[verifier::external_body]
fn share(base: &Arc<Graph>) -> (r: Arc<Graph>)
    ensures
        *r == **base,
{
    base.clone()
}

impl Graph {
    /// The arena's own nodes are distinct and its table maps exactly their
    /// keys to their ids, which follow the base's ids and stay below
    /// `Id::MAX`, the value that traversals reserve for "no node".
    pub open spec fn arena_well_formed(&self) -> bool {
        &&& self.offset + self.nodes@.len() <= u32::MAX as int
        &&& forall|j: int|
            0 <= j < self.nodes@.len() ==> #[trigger] self.index@.contains_key(
                spec_key(self.nodes@[j]),
            ) && self.index@[spec_key(self.nodes@[j])] == self.offset + j
        &&& forall|k: u128|
            #[trigger] self.index@.contains_key(k) ==> self.offset <= self.index@[k] < self.offset
                + self.nodes@.len() && spec_key(self.nodes@[self.index@[k] - self.offset]) == k
    }

    /// A root arena, or a fork of a root arena whose new nodes are all absent
    /// from the root.
    pub open spec fn well_formed(&self) -> bool {
        &&& self.arena_well_formed()
        &&& match self.base {
            None => self.offset == 0,
            Some(base) => {
                &&& base.base is None
                &&& base.offset == 0
                &&& base.arena_well_formed()
                &&& self.offset == base.nodes@.len()
                &&& forall|j: int|
                    0 <= j < self.nodes@.len() ==> !base.index@.contains_key(
                        #[trigger] spec_key(self.nodes@[j]),
                    )
            },
        }
    }

    /// Every node the graph holds, in id order.
    pub open spec fn spec_nodes(&self) -> Seq<Node> {
        match self.base {
            None => self.nodes@,
            Some(base) => base.nodes@ + self.nodes@,
        }
    }

    /// A well-formed graph holds each node under one id only.
    pub proof fn lemma_distinct(&self)
        requires
            self.well_formed(),
        ensures
            self.spec_nodes().no_duplicates(),
    {
        let all = self.spec_nodes();
        assert forall|i: int, j: int| 0 <= i < all.len() && 0 <= j < all.len() && i != j implies all[i]
            != all[j] by {
            if all[i] == all[j] {
                match self.base {
                    None => {
                        assert(self.index@.contains_key(spec_key(self.nodes@[i])));
                        assert(self.index@[spec_key(self.nodes@[i])] == i);
                        assert(self.index@.contains_key(spec_key(self.nodes@[j])));
                        assert(self.index@[spec_key(self.nodes@[j])] == j);
                    },
                    Some(base) => {
                        let n = base.nodes@.len() as int;
                        if i < n && j < n {
                            assert(all[i] == base.nodes@[i] && all[j] == base.nodes@[j]);
                            assert(base.index@.contains_key(spec_key(base.nodes@[i])));
                            assert(base.index@[spec_key(base.nodes@[i])] == i);
                            assert(base.index@.contains_key(spec_key(base.nodes@[j])));
                            assert(base.index@[spec_key(base.nodes@[j])] == j);
                        } else if i >= n && j >= n {
                            assert(all[i] == self.nodes@[i - n] && all[j] == self.nodes@[j - n]);
                            assert(self.index@.contains_key(spec_key(self.nodes@[i - n])));
                            assert(self.index@[spec_key(self.nodes@[i - n])] == i);
                            assert(self.index@.contains_key(spec_key(self.nodes@[j - n])));
                            assert(self.index@[spec_key(self.nodes@[j - n])] == j);
                        } else if i < n {
                            assert(all[i] == base.nodes@[i] && all[j] == self.nodes@[j - n]);
                            assert(base.index@.contains_key(spec_key(base.nodes@[i])));
                            assert(!base.index@.contains_key(spec_key(self.nodes@[j - n])));
                        } else {
                            assert(all[j] == base.nodes@[j] && all[i] == self.nodes@[i - n]);
                            assert(base.index@.contains_key(spec_key(base.nodes@[j])));
                            assert(!base.index@.contains_key(spec_key(self.nodes@[i - n])));
                        }
                    },
                }
            }
        }
    }

    /// An empty root arena.
    pub fn new() -> (r: Graph)
        ensures
            r.well_formed(),
            r.base is None,
            r.spec_nodes() == Seq::<Node>::empty(),
    {
        Graph { base: None, nodes: Vec::new(), index: HashMap::new(), offset: 0 }
    }

    /// A fork whose new nodes extend a root arena.
    pub fn fork(base: &Arc<Self>) -> (r: Self)
        requires
            base.well_formed(),
            base.base is None,
        ensures
            r.well_formed(),
            r.base == Some(*base),
            r.spec_nodes() == base.spec_nodes(),
    {
        let shared = share(base);
        let r = Graph { base: Some(shared), offset: base.nodes.len(), nodes: Vec::new(), index: HashMap::new() };
        assert(r.spec_nodes() =~= base.spec_nodes());
        r
    }

    /// The node with id `id`.
    pub fn get(&self, id: Id) -> (r: Node)
        requires
            self.well_formed(),
            id < self.spec_nodes().len(),
        ensures
            r == self.spec_nodes()[id as int],
    {
        if (id as usize) < self.offset {
            match &self.base {
                Some(base) => base.nodes[id as usize],
                None => self.nodes[id as usize],
            }
        } else {
            self.nodes[id as usize - self.offset]
        }
    }

    /// The id of `node`, adding it to this arena unless either arena holds it.
    pub fn intern(&mut self, node: Node) -> (r: Id)
        requires
            old(self).well_formed(),
            old(self).spec_nodes().contains(node) || old(self).spec_nodes().len() < u32::MAX,
        ensures
            final(self).well_formed(),
            final(self).base == old(self).base,
            r < final(self).spec_nodes().len(),
            final(self).spec_nodes()[r as int] == node,
            old(self).spec_nodes().contains(node) ==> final(self).spec_nodes() == old(
                self,
            ).spec_nodes(),
            !old(self).spec_nodes().contains(node) ==> final(self).spec_nodes() == old(
                self,
            ).spec_nodes().push(node) && r == old(self).spec_nodes().len(),
            (final(self).spec_nodes(), r) == spec_intern(old(self).spec_nodes(), node),
    {
        proof {
            self.lemma_distinct();
        }
        let k = key(node);
        let ghost all = self.spec_nodes();
        if let Some(base) = &self.base {
            if let Some(id) = base.index.get(&k) {
                let id = *id;
                proof {
                    lemma_key_injective(base.nodes@[id - base.offset], node);
                    assert(all[id as int] == node);
                }
                return id;
            }
        }
        match self.index.get(&k) {
            Some(id) => {
                let id = *id;
                proof {
                    lemma_key_injective(self.nodes@[id - self.offset], node);
                    assert(all[id as int] == self.nodes@[id - self.offset]);
                }
                id
            },
            None => {
                proof {
                    assert forall|j: int| 0 <= j < all.len() implies all[j] != node by {
                        if j < self.offset {
                            let base = self.base->Some_0;
                            assert(all[j] == base.nodes@[j]);
                            assert(base.index@.contains_key(spec_key(base.nodes@[j])));
                        } else {
                            assert(all[j] == self.nodes@[j - self.offset]);
                            assert(self.index@.contains_key(spec_key(self.nodes@[j - self.offset])));
                        }
                    }
                }
                let id = (self.offset + self.nodes.len()) as Id;
                let ghost before = self.nodes@;
                self.nodes.push(node);
                self.index.insert(k, id);
                proof {
                    assert forall|j: int|
                        0 <= j < self.nodes@.len() implies #[trigger] self.index@.contains_key(
                        spec_key(self.nodes@[j]),
                    ) && self.index@[spec_key(self.nodes@[j])] == self.offset + j by {
                        if j < before.len() {
                            assert(self.nodes@[j] == before[j]);
                            if spec_key(before[j]) == k {
                                lemma_key_injective(before[j], node);
                                assert(all[self.offset + j] == before[j]);
                            }
                        }
                    }
                    assert forall|kk: u128| #[trigger] self.index@.contains_key(kk) implies self.offset
                        <= self.index@[kk] < self.offset + self.nodes@.len() && spec_key(
                        self.nodes@[self.index@[kk] - self.offset],
                    ) == kk by {
                        if kk != k {
                            assert(self.nodes@[self.index@[kk] - self.offset] == before[self.index@[kk]
                                - self.offset]);
                        }
                    }
                    if self.base is Some {
                        let base = self.base->Some_0;
                        assert forall|j: int| 0 <= j < self.nodes@.len() implies !base.index@.contains_key(
                            #[trigger] spec_key(self.nodes@[j]),
                        ) by {
                            if j == before.len() {
                                if base.index@.contains_key(k) {
                                    let b = base.index@[k];
                                    lemma_key_injective(base.nodes@[b as int], node);
                                    assert(all[b as int] == base.nodes@[b as int]);
                                }
                            } else {
                                assert(self.nodes@[j] == before[j]);
                            }
                        }
                    }
                    assert(self.spec_nodes() =~= all.push(node));
                }
                id
            },
        }
    }
}

/// Interning gives back an id under which the graph holds that node, and
/// interning a node the graph holds changes nothing: each node has one id.
pub proof fn lemma_intern_then_get(before: Seq<Node>, after: Seq<Node>, node: Node, id: Id)
    requires
        id < after.len(),
        after[id as int] == node,
        before.contains(node) ==> after == before,
        !before.contains(node) ==> after == before.push(node) && id == before.len(),
    ensures
        after.contains(node),
        before.is_prefix_of(after),
{
    assert(after[id as int] == node);
    if !before.contains(node) {
        assert(before =~= after.take(before.len() as int));
    }
}

} // verus!
