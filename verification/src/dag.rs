//! Program DAGs: nodes held in one arena, children addressed by index.

use vstd::prelude::*;
use std::collections::HashSet;
use crate::value::Value;

verus! {

/// The shape of a node. A child is the arena index of another node.
#[derive(Clone, Debug, PartialEq, Eq)]
pub enum Inner {
    /// Identity
    Iden,
    /// Unit constant
    Unit,
    /// Left injection of some child
    InjL(usize),
    /// Right injection of some child
    InjR(usize),
    /// Take of some child
    Take(usize),
    /// Drop of some child
    Drop(usize),
    /// Composition of a left and right child
    Comp(usize, usize),
    /// Case of a left and right child
    Case(usize, usize),
    /// Left assertion: the left branch of a case whose right branch was pruned
    AssertL(usize),
    /// Right assertion: the right branch of a case whose left branch was pruned
    AssertR(usize),
    /// Pair of a left and right child
    Pair(usize, usize),
    /// Disconnect of a left child and, once it is known, a right child
    Disconnect(usize, Option<usize>),
    /// Witness data
    Witness,
    /// Universal fail
    Fail,
    /// Application jet
    Jet,
    /// Constant word
    Word(Value),
}

impl Inner {
    /// The left child of a node of this shape, or its only child.
    pub open spec fn left(self) -> Option<usize> {
        match self {
            Inner::InjL(c) | Inner::InjR(c) | Inner::Take(c) | Inner::Drop(c) | Inner::AssertL(c)
            | Inner::AssertR(c) => Some(c),
            Inner::Comp(l, _) | Inner::Case(l, _) | Inner::Pair(l, _) | Inner::Disconnect(
                l,
                _,
            ) => Some(l),
            _ => None,
        }
    }

    /// The right child of a node of this shape.
    pub open spec fn right(self) -> Option<usize> {
        match self {
            Inner::Comp(_, r) | Inner::Case(_, r) | Inner::Pair(_, r) => Some(r),
            Inner::Disconnect(_, r) => r,
            _ => None,
        }
    }

    /// Accessor for the left child of the node, if one exists.
    pub fn left_child(&self) -> (c: Option<usize>)
        ensures
            c == self.left(),
    {
        match self {
            Inner::InjL(c) | Inner::InjR(c) | Inner::Take(c) | Inner::Drop(c) | Inner::AssertL(c)
            | Inner::AssertR(c) => Some(*c),
            Inner::Comp(l, _) | Inner::Case(l, _) | Inner::Pair(l, _) | Inner::Disconnect(
                l,
                _,
            ) => Some(*l),
            _ => None,
        }
    }

    /// Accessor for the right child of the node, if one exists.
    pub fn right_child(&self) -> (c: Option<usize>)
        ensures
            c == self.right(),
    {
        match self {
            Inner::Comp(_, r) | Inner::Case(_, r) | Inner::Pair(_, r) => Some(*r),
            Inner::Disconnect(_, r) => *r,
            _ => None,
        }
    }
}

/// A node of a program.
#[derive(Clone, Debug, PartialEq, Eq)]
pub struct Node {
    /// The identity under which the node is shared, where it has one.
    pub id: Option<u64>,
    /// The shape of the node and its children.
    pub inner: Inner,
    /// The name of the combinator, as text.
    pub label: String,
    /// The type arrow of the node, as text.
    pub arrow: String,
}

/// Whether `c` is a child of the node at `p`.
pub open spec fn is_child(nodes: Seq<Node>, p: int, c: int) -> bool {
    ||| nodes[p].inner.left() matches Some(l) && l == c
    ||| nodes[p].inner.right() matches Some(r) && r == c
}

/// Whether the node at `c` is the child of a later node.
pub open spec fn has_parent(nodes: Seq<Node>, c: int) -> bool {
    exists|p: int| c < p < nodes.len() && #[trigger] is_child(nodes, p, c)
}

/// Whether the nodes are a program: there is a node, and no more than the
/// machine can count; the last node is the root; children come before their
/// parents; a node with an identity has children with identities; no
/// identity occurs twice; and every node but the root is the child of a
/// later node.
pub open spec fn well_formed(nodes: Seq<Node>) -> bool {
    &&& 0 < nodes.len() <= usize::MAX
    &&& forall|i: int|
        0 <= i < nodes.len() ==> (#[trigger] nodes[i].inner.left() matches Some(c) ==> c < i
            && (nodes[i].id is Some ==> nodes[c as int].id is Some))
    &&& forall|i: int|
        0 <= i < nodes.len() ==> (#[trigger] nodes[i].inner.right() matches Some(c) ==> c < i
            && (nodes[i].id is Some ==> nodes[c as int].id is Some))
    &&& forall|i: int, j: int|
        0 <= i < nodes.len() && 0 <= j < nodes.len() && nodes[i].id is Some && nodes[i].id
            == nodes[j].id ==> i == j
    &&& forall|i: int| 0 <= i < nodes.len() - 1 ==> #[trigger] has_parent(nodes, i)
}

/// A program: a well-formed arena of nodes, the last of which is the root.
#[derive(Debug, PartialEq, Eq)]
pub struct Dag {
    nodes: Vec<Node>,
}

impl View for Dag {
    type V = Seq<Node>;

    closed spec fn view(&self) -> Seq<Node> {
        self.nodes@
    }
}

/// Tells whether the children of every node come before it and have an
/// identity where the node has one.
fn children_in_order(nodes: &Vec<Node>) -> (b: bool)
    ensures
        b <==> {
            &&& forall|i: int|
                0 <= i < nodes@.len() ==> (#[trigger] nodes@[i].inner.left() matches Some(c) ==> c
                    < i && (nodes@[i].id is Some ==> nodes@[c as int].id is Some))
            &&& forall|i: int|
                0 <= i < nodes@.len() ==> (#[trigger] nodes@[i].inner.right() matches Some(c) ==> c
                    < i && (nodes@[i].id is Some ==> nodes@[c as int].id is Some))
        },
{
    let mut i: usize = 0;
    while i < nodes.len()
        invariant
            i <= nodes@.len(),
            forall|k: int|
                0 <= k < i ==> (#[trigger] nodes@[k].inner.left() matches Some(c) ==> c < k && (
                nodes@[k].id is Some ==> nodes@[c as int].id is Some)),
            forall|k: int|
                0 <= k < i ==> (#[trigger] nodes@[k].inner.right() matches Some(c) ==> c < k && (
                nodes@[k].id is Some ==> nodes@[c as int].id is Some)),
        decreases nodes@.len() - i,
    {
        let node = &nodes[i];
        if let Some(c) = node.inner.left_child() {
            if c >= i || (node.id.is_some() && nodes[c].id.is_none()) {
                return false;
            }
        }
        if let Some(c) = node.inner.right_child() {
            if c >= i || (node.id.is_some() && nodes[c].id.is_none()) {
                return false;
            }
        }
        i += 1;
    }
    true
}

/// Tells whether no identity occurs at two nodes.
fn identities_distinct(nodes: &Vec<Node>) -> (b: bool)
    ensures
        b <==> forall|i: int, j: int|
            0 <= i < nodes@.len() && 0 <= j < nodes@.len() && nodes@[i].id is Some && nodes@[i].id
                == nodes@[j].id ==> i == j,
{
    broadcast use vstd::std_specs::hash::group_hash_axioms;

    let mut seen: HashSet<u64> = HashSet::new();
    let mut i: usize = 0;
    while i < nodes.len()
        invariant
            i <= nodes@.len(),
            forall|k: int| 0 <= k < i && nodes@[k].id is Some ==> seen@.contains(nodes@[k].id->0),
            forall|id: u64|
                seen@.contains(id) ==> exists|k: int| 0 <= k < i && #[trigger] nodes@[k].id == Some(id),
            forall|a: int, b: int|
                0 <= a < i && 0 <= b < i && nodes@[a].id is Some && nodes@[a].id == nodes@[b].id
                    ==> a == b,
        decreases nodes@.len() - i,
    {
        if let Some(id) = nodes[i].id {
            if seen.contains(&id) {
                proof {
                    let k = choose|k: int| 0 <= k < i && #[trigger] nodes@[k].id == Some(id);
                    assert(nodes@[k].id == nodes@[i as int].id && k != i);
                }
                return false;
            }
            seen.insert(id);
        }
        i += 1;
    }
    true
}

/// Tells whether every node but the last is the child of a later node,
/// given that children come before their parents.
fn all_have_parents(nodes: &Vec<Node>) -> (b: bool)
    requires
        nodes@.len() > 0,
        forall|i: int|
            0 <= i < nodes@.len() ==> (#[trigger] nodes@[i].inner.left() matches Some(c) ==> c < i),
        forall|i: int|
            0 <= i < nodes@.len() ==> (#[trigger] nodes@[i].inner.right() matches Some(c) ==> c
                < i),
    ensures
        b <==> forall|i: int| 0 <= i < nodes@.len() - 1 ==> #[trigger] has_parent(nodes@, i),
{
    let n = nodes.len();
    let mut marked: Vec<bool> = Vec::new();
    let mut i: usize = 0;
    while i < n
        invariant
            i <= n,
            marked@.len() == i,
            forall|k: int| 0 <= k < i ==> !marked@[k],
        decreases n - i,
    {
        marked.push(false);
        i += 1;
    }
    i = 0;
    while i < n
        invariant
            n == nodes@.len(),
            i <= n,
            marked@.len() == n,
            forall|c: int| 0 <= c < n && marked@[c] ==> has_parent(nodes@, c),
            forall|p: int, c: int|
                0 <= p < i && 0 <= c < n && #[trigger] is_child(nodes@, p, c) ==> marked@[c],
            forall|k: int|
                0 <= k < nodes@.len() ==> (#[trigger] nodes@[k].inner.left() matches Some(c) ==> c
                    < k),
            forall|k: int|
                0 <= k < nodes@.len() ==> (#[trigger] nodes@[k].inner.right() matches Some(c) ==> c
                    < k),
        decreases n - i,
    {
        if let Some(c) = nodes[i].inner.left_child() {
            assert(is_child(nodes@, i as int, c as int));
            marked.set(c, true);
        }
        if let Some(c) = nodes[i].inner.right_child() {
            assert(is_child(nodes@, i as int, c as int));
            marked.set(c, true);
        }
        i += 1;
    }
    let mut j: usize = 0;
    while j < n - 1
        invariant
            n == nodes@.len(),
            n > 0,
            j <= n - 1,
            marked@.len() == n,
            forall|c: int| 0 <= c < n && marked@[c] ==> has_parent(nodes@, c),
            forall|p: int, c: int|
                0 <= p < n && 0 <= c < n && #[trigger] is_child(nodes@, p, c) ==> marked@[c],
            forall|k: int| 0 <= k < j ==> #[trigger] has_parent(nodes@, k),
        decreases n - j,
    {
        if !marked[j] {
            assert(!has_parent(nodes@, j as int));
            return false;
        }
        j += 1;
    }
    true
}

impl Dag {
    #[verifier::type_invariant]
    closed spec fn inv(self) -> bool {
        well_formed(self.nodes@)
    }

    /// Makes a program of the given nodes, if they are well formed.
    pub fn from_nodes(nodes: Vec<Node>) -> (dag: Option<Dag>)
        ensures
            dag is Some <==> well_formed(nodes@),
            dag matches Some(d) ==> d@ == nodes@,
    {
        if nodes.len() == 0 || !children_in_order(&nodes) || !identities_distinct(&nodes)
            || !all_have_parents(&nodes) {
            return None;
        }
        Some(Dag { nodes })
    }

    /// The number of nodes, which is at least one.
    pub fn len(&self) -> (n: usize)
        ensures
            n == self@.len(),
            well_formed(self@),
    {
        proof {
            use_type_invariant(self);
        }
        self.nodes.len()
    }

    /// The index of the root, which is the last node.
    pub fn root(&self) -> (r: usize)
        ensures
            r == self@.len() - 1,
            well_formed(self@),
    {
        proof {
            use_type_invariant(self);
        }
        self.nodes.len() - 1
    }

    /// The node at an index.
    pub fn node(&self, i: usize) -> (node: &Node)
        requires
            i < self@.len(),
        ensures
            *node == self@[i as int],
    {
        &self.nodes[i]
    }

    /// The node at an index, or `None` where the index is out of range.
    pub fn get(&self, i: usize) -> (node: Option<&Node>)
        ensures
            node == if i < self@.len() {
                Some(&self@[i as int])
            } else {
                None
            },
    {
        if i < self.nodes.len() {
            Some(&self.nodes[i])
        } else {
            None
        }
    }
}

} // verus!
