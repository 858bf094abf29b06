//! Rendering of a program as a graph in which each maximal scribe
//! expression is a single node.

use vstd::prelude::*;
use std::collections::HashMap;
use std::collections::HashSet;
use vstd::string::StringExecFns;
use crate::compress::{
    hidden_set, is_scribe, lemma_others_are_visible, lemma_reaches_child, lemma_scribe_map_at,
    lemma_stack_size_push, lemma_top_scribe_map_at, reaches, scribe_map, scribe_values_hidden,
    stack_size, top_scribe_map, value_at, visible,
};
use crate::dag::{is_child, well_formed, Dag, Node};
use crate::hex::{bit_string, push_bits, push_upper_hex, upper_hex_string};
use crate::text::{decimal, push_decimal};
use crate::value::{packed, Value};

verus! {

/// Whether the traversal stops at node `s`: whether its identity is one of
/// `stop`.
pub open spec fn stops_at(nodes: Seq<Node>, stop: Set<u64>, s: int) -> bool {
    nodes[s].id matches Some(id) && stop.contains(id)
}

/// Whether node `i` is reached from node `s` by going from a node to its
/// children, never going below a node whose identity is one of `stop`.
pub open spec fn reaches_outside(nodes: Seq<Node>, stop: Set<u64>, s: int, i: int) -> bool
    decreases s,
{
    i == s || (0 <= s < nodes.len() && !stops_at(nodes, stop, s) && (
    match nodes[s].inner.left() {
        Some(c) => c < s && reaches_outside(nodes, stop, c as int, i),
        None => false,
    } || match nodes[s].inner.right() {
        Some(c) => c < s && reaches_outside(nodes, stop, c as int, i),
        None => false,
    }))
}

/// Whether node `i` has identity `id` and is reached from the root without
/// going below a node whose identity is one of `stop`.
pub open spec fn is_reached_with_id(nodes: Seq<Node>, stop: Set<u64>, i: int, id: u64) -> bool {
    0 <= i < nodes.len() && reaches_outside(nodes, stop, nodes.len() - 1, i) && nodes[i].id == Some(
        id,
    )
}

/// The identities of the nodes that are reached from the root without going
/// below a node whose identity is one of `stop`.
pub open spec fn reachable_set(nodes: Seq<Node>, stop: Set<u64>) -> Set<u64> {
    Set::new(|id: u64| exists|i: int| is_reached_with_id(nodes, stop, i, id))
}

/// What is reached from a node at which the traversal does not stop includes
/// what is reached from its children.
pub proof fn lemma_reaches_outside_child(
    nodes: Seq<Node>,
    stop: Set<u64>,
    r: int,
    s: int,
    c: usize,
)
    requires
        reaches_outside(nodes, stop, r, s),
        0 <= s < nodes.len(),
        !stops_at(nodes, stop, s),
        c < s,
        nodes[s].inner.left() == Some(c) || nodes[s].inner.right() == Some(c),
    ensures
        reaches_outside(nodes, stop, r, c as int),
    decreases r,
{
    if r == s {
        assert(reaches_outside(nodes, stop, c as int, c as int));
    } else {
        match nodes[r].inner.left() {
            Some(l) => {
                if l < r && reaches_outside(nodes, stop, l as int, s) {
                    lemma_reaches_outside_child(nodes, stop, l as int, s, c);
                }
            },
            None => {},
        }
        match nodes[r].inner.right() {
            Some(l) => {
                if l < r && reaches_outside(nodes, stop, l as int, s) {
                    lemma_reaches_outside_child(nodes, stop, l as int, s, c);
                }
            },
            None => {},
        }
    }
}

/// Whether a set of nodes holds, with each of its nodes at which the
/// traversal does not stop, the children of that node, but for those that
/// `pending` holds.
pub open spec fn closed_but(
    nodes: Seq<Node>,
    stop: Set<u64>,
    done: Set<int>,
    pending: Seq<usize>,
) -> bool {
    forall|p: int, c: usize|
        #![trigger done.contains(p), done.contains(c as int)]
        done.contains(p) && 0 <= p < nodes.len() && !stops_at(nodes, stop, p) && (
        nodes[p].inner.left() == Some(c) || nodes[p].inner.right() == Some(c)) ==> done.contains(
            c as int,
        ) || pending.contains(c)
}

/// A set of nodes that holds the children of each of its nodes at which the
/// traversal does not stop holds all that is reached from any of its nodes.
pub proof fn lemma_closed_holds_reached(
    nodes: Seq<Node>,
    stop: Set<u64>,
    done: Set<int>,
    s: int,
    i: int,
)
    requires
        closed_but(nodes, stop, done, Seq::empty()),
        done.contains(s),
        reaches_outside(nodes, stop, s, i),
    ensures
        done.contains(i),
    decreases s,
{
    if i != s {
        match nodes[s].inner.left() {
            Some(c) => {
                if c < s && reaches_outside(nodes, stop, c as int, i) {
                    assert(done.contains(c as int) || Seq::<usize>::empty().contains(c));
                    lemma_closed_holds_reached(nodes, stop, done, c as int, i);
                }
            },
            None => {},
        }
        match nodes[s].inner.right() {
            Some(c) => {
                if c < s && reaches_outside(nodes, stop, c as int, i) {
                    assert(done.contains(c as int) || Seq::<usize>::empty().contains(c));
                    lemma_closed_holds_reached(nodes, stop, done, c as int, i);
                }
            },
            None => {},
        }
    }
}

/// Compute nodes that are reachable from root without entering scribe expressions
///
/// Nodes inside scribe expressions may be shared and thus reachable.
/// Therefore, the opposite approach of computing reachable nodes from scribe roots does not work.
#[verifier::rlimit(40)]
pub fn scribe_reachable(program: &Dag, scribe_values: &HashMap<u64, Value>) -> (visited: HashSet<
    u64,
>)
    ensures
        visited@ == reachable_set(program@, scribe_values@.dom()),
{
    broadcast use vstd::std_specs::hash::group_hash_axioms;

    let n = program.len();
    let ghost nodes = program@;
    let ghost stop = scribe_values@.dom();
    let ghost root = n - 1;
    let mut visited: HashSet<u64> = HashSet::new();
    let mut stack: Vec<usize> = Vec::new();
    stack.push(program.root());
    let ghost mut done: Set<int> = Set::empty();
    proof {
        assert(reaches_outside(nodes, stop, root, root));
        assert(stack@.contains(root as usize)) by {
            assert(stack@[0] == root);
        }
    }
    while stack.len() > 0
        invariant
            nodes == program@,
            n == nodes.len(),
            root == n - 1,
            well_formed(nodes),
            stop == scribe_values@.dom(),
            forall|k: int|
                0 <= k < stack@.len() ==> #[trigger] stack@[k] < n && reaches_outside(
                    nodes,
                    stop,
                    root,
                    stack@[k] as int,
                ),
            forall|p: int|
                #[trigger] done.contains(p) ==> 0 <= p < n && reaches_outside(nodes, stop, root, p)
                    && (nodes[p].id matches Some(id) ==> visited@.contains(id)),
            forall|id: u64| #[trigger]
                visited@.contains(id) ==> exists|p: int|
                    done.contains(p) && nodes[p].id == Some(id),
            closed_but(nodes, stop, done, stack@),
            done.contains(root) || stack@.contains(root as usize),
        decreases stack_size(nodes, stack@),
    {
        let ghost old_stack = stack@;
        let ghost old_done = done;
        let top = stack.pop().unwrap();
        let ghost rest = stack@;
        assert(rest =~= old_stack.drop_last());
        assert(top == old_stack[old_stack.len() - 1]);
        let node = program.node(top);
        let mut stopped = false;
        if let Some(id) = node.id {
            visited.insert(id);
            stopped = scribe_values.contains_key(&id);
        }
        proof {
            done = done.insert(top as int);
            assert(stopped == stops_at(nodes, stop, top as int));
            assert forall|id: u64| #[trigger] visited@.contains(id) implies exists|p: int|
                done.contains(p) && nodes[p].id == Some(id) by {
                if node.id == Some(id) {
                    assert(done.contains(top as int));
                } else {
                    let p = choose|p: int| old_done.contains(p) && nodes[p].id == Some(id);
                    assert(done.contains(p));
                }
            }
        }
        if let Some(left) = node.inner.left_child() {
            let seen = match program.node(left).id {
                Some(id) => visited.contains(&id),
                None => false,
            };
            if !stopped && !seen {
                proof {
                    lemma_reaches_outside_child(nodes, stop, root, top as int, left);
                    lemma_stack_size_push(nodes, stack@, left);
                }
                stack.push(left);
            }
            proof {
                if !stopped && seen {
                    let id = nodes[left as int].id->0;
                    let p = choose|p: int| done.contains(p) && nodes[p].id == Some(id);
                    assert(p == left);
                }
            }
        }
        let ghost mid = stack@;
        if let Some(right) = node.inner.right_child() {
            let seen = match program.node(right).id {
                Some(id) => visited.contains(&id),
                None => false,
            };
            if !stopped && !seen {
                proof {
                    lemma_reaches_outside_child(nodes, stop, root, top as int, right);
                    lemma_stack_size_push(nodes, stack@, right);
                }
                stack.push(right);
            }
            proof {
                if !stopped && seen {
                    let id = nodes[right as int].id->0;
                    let p = choose|p: int| done.contains(p) && nodes[p].id == Some(id);
                    assert(p == right);
                }
            }
        }
        proof {
            assert forall|k: int| 0 <= k < rest.len() implies stack@[k] == rest[k] by {}
            assert forall|c: usize| old_stack.contains(c) implies done.contains(c as int)
                || stack@.contains(c) by {
                let k = choose|k: int| 0 <= k < old_stack.len() && old_stack[k] == c;
                if k < rest.len() {
                    assert(stack@[k] == c);
                }
            }
            assert forall|p: int, c: usize|
                #![trigger done.contains(p), done.contains(c as int)]
                done.contains(p) && 0 <= p < nodes.len() && !stops_at(nodes, stop, p) && (
                nodes[p].inner.left() == Some(c) || nodes[p].inner.right() == Some(c))
                implies done.contains(c as int) || stack@.contains(c) by {
                if p == top {
                    if nodes[p].inner.left() == Some(c) && !done.contains(c as int) {
                        assert(mid.len() == rest.len() + 1);
                        assert(stack@[rest.len() as int] == c);
                    } else if !done.contains(c as int) {
                        assert(stack@[stack@.len() - 1] == c);
                    }
                } else {
                    assert(old_done.contains(p));
                    assert(old_done.contains(c as int) || old_stack.contains(c));
                }
            }
        }
    }
    proof {
        assert(stack@ =~= Seq::empty());
        assert forall|id: u64| reachable_set(nodes, stop).contains(id) implies visited@.contains(
            id,
        ) by {
            let i = choose|i: int| is_reached_with_id(nodes, stop, i, id);
            lemma_closed_holds_reached(nodes, stop, done, root, i);
        }
        assert forall|id: u64| visited@.contains(id) implies reachable_set(nodes, stop).contains(
            id,
        ) by {
            let p = choose|p: int| done.contains(p) && nodes[p].id == Some(id);
            assert(is_reached_with_id(nodes, stop, p, id));
        }
        assert(visited@ =~= reachable_set(nodes, stop));
    }
    visited
}

/// The side of its parent on which a child hangs.
#[derive(Clone, Copy, Debug, PartialEq, Eq, Structural)]
pub enum Side {
    /// The only child of its parent.
    Plain,
    /// The left child of two.
    Left,
    /// The right child of two.
    Right,
}

/// An edge of a rendered graph, from the index of a node to that of a child.
#[derive(Clone, Copy, Debug, PartialEq, Eq, Structural)]
pub struct Edge {
    pub parent: usize,
    pub child: usize,
    pub side: Side,
}

/// A node of a rendered graph: a maximal scribe expression, folded into one
/// node that shows its value, or an ordinary node with its children.
#[derive(Debug, PartialEq, Eq)]
pub struct RenderNode {
    /// The index of the node in the program.
    pub index: usize,
    /// The first line of the label: the digits of the value, or the name of
    /// the combinator.
    pub label: String,
    /// The second line of the label: the type arrow.
    pub annotation: String,
    /// Whether the node stands for a scribe expression.
    pub literal: bool,
    /// The index of the left or only child, for an ordinary node.
    pub left: Option<usize>,
    /// The index of the right child, for an ordinary node.
    pub right: Option<usize>,
}

/// A rendered node, its texts as sequences of characters.
pub struct RenderNodeView {
    pub index: usize,
    pub label: Seq<char>,
    pub annotation: Seq<char>,
    pub literal: bool,
    pub left: Option<usize>,
    pub right: Option<usize>,
}

impl View for RenderNode {
    type V = RenderNodeView;

    open spec fn view(&self) -> RenderNodeView {
        RenderNodeView {
            index: self.index,
            label: self.label@,
            annotation: self.annotation@,
            literal: self.literal,
            left: self.left,
            right: self.right,
        }
    }
}

/// The digits that stand for a bit string: `unit` for the empty one, else
/// its bytes in hexadecimal where its length is a multiple of eight, and
/// its bits, one digit each, where it is not.
pub open spec fn scribe_label(bits: Seq<bool>) -> Seq<char> {
    if bits.len() == 0 {
        "unit"@
    } else if bits.len() % 8 == 0 {
        upper_hex_string(packed(bits))
    } else {
        bit_string(bits)
    }
}

/// The type arrow of a constant of the given number of bits.
pub open spec fn scribe_annotation(len: nat) -> Seq<char> {
    if len == 0 {
        "1 \u{2192} 1"@
    } else if len == 1 {
        "1 \u{2192} 2"@
    } else {
        "1 \u{2192} 2^"@ + decimal(len)
    }
}

/// The rendered node of a scribe expression with the given bits.
pub open spec fn scribe_entry(bits: Seq<bool>, index: usize) -> RenderNodeView {
    RenderNodeView {
        index,
        label: scribe_label(bits),
        annotation: scribe_annotation(bits.len()),
        literal: true,
        left: None,
        right: None,
    }
}

/// The rendered node of an ordinary node.
pub open spec fn node_entry(node: Node, index: usize) -> RenderNodeView {
    RenderNodeView {
        index,
        label: node.label@,
        annotation: node.arrow@,
        literal: false,
        left: node.inner.left(),
        right: node.inner.right(),
    }
}

/// The rendered node of node `i` of a program.
pub open spec fn rendered_node(nodes: Seq<Node>, i: int) -> RenderNodeView {
    match value_at(nodes, i) {
        Some(v) => scribe_entry(v.bits(), i as usize),
        None => node_entry(nodes[i], i as usize),
    }
}

/// The rendered nodes of the first `k` nodes of a program: of those that are
/// reached from the root without going below a scribe expression, in order.
pub open spec fn rendered_upto(nodes: Seq<Node>, k: int) -> Seq<RenderNodeView>
    decreases k,
{
    if k <= 0 {
        Seq::empty()
    } else if visible(nodes, k - 1) {
        rendered_upto(nodes, k - 1).push(rendered_node(nodes, k - 1))
    } else {
        rendered_upto(nodes, k - 1)
    }
}

/// The head of the text of a rendered node: its index and its label.
pub open spec fn label_text(e: RenderNodeView) -> Seq<char> {
    decimal(e.index as nat) + " [label=\""@ + e.label + "\\n"@ + e.annotation
}

/// The text of a rendered node as that of a scribe expression: its label on
/// a line of its own.
pub open spec fn scribe_text(e: RenderNodeView) -> Seq<char> {
    label_text(e) + "\"]\n"@
}

/// The text of a rendered node as that of an ordinary node: its label, then
/// its edges.
pub open spec fn node_text(e: RenderNodeView) -> Seq<char> {
    label_text(e) + "\"];"@ + edges_text(e)
}

/// The text of a rendered node in the language of Graphviz.
pub open spec fn entry_text(e: RenderNodeView) -> Seq<char> {
    if e.literal {
        scribe_text(e)
    } else {
        node_text(e)
    }
}

/// The text of the edges of a rendered node.
pub open spec fn edges_text(e: RenderNodeView) -> Seq<char> {
    match (e.left, e.right) {
        (Some(l), Some(r)) => "  "@ + decimal(e.index as nat) + " -> "@ + decimal(l as nat)
            + " [color=red];\n"@ + "  "@ + decimal(e.index as nat) + " -> "@ + decimal(r as nat)
            + " [color=blue];\n"@,
        (Some(l), None) => "  "@ + decimal(e.index as nat) + " -> "@ + decimal(l as nat)
            + ";\n"@,
        _ => Seq::empty(),
    }
}

/// The texts of rendered nodes, one after the other.
pub open spec fn entries_text(entries: Seq<RenderNodeView>) -> Seq<char>
    decreases entries.len(),
{
    if entries.len() == 0 {
        Seq::empty()
    } else {
        entries_text(entries.drop_last()) + entry_text(entries.last())
    }
}

/// The text of a graph in the language of Graphviz.
pub open spec fn dot_text(entries: Seq<RenderNodeView>) -> Seq<char> {
    "digraph {\nranksep=3;\n"@ + entries_text(entries) + "}\n"@
}

/// The views of rendered nodes.
pub open spec fn views(entries: Seq<RenderNode>) -> Seq<RenderNodeView> {
    entries.map_values(|e: RenderNode| e@)
}

/// Makes the rendered node of a scribe expression: the digits of its value
/// and the type arrow of a constant of that many bits.
pub fn scribe_node(value: &Value, index: usize) -> (e: RenderNode)
    ensures
        e@ == scribe_entry(value.bits(), index),
{
    let (bytes, bit_len) = value.to_bytes_len();
    let mut label = String::new();
    // scribe(·) = unit
    if bit_len == 0 {
        label.append("unit");
        assert(packed(value.bits()) =~= Seq::<u8>::empty());
    } else if bit_len % 8 == 0 {
        push_upper_hex(&mut label, bytes.as_slice());
    } else {
        push_bits(&mut label, bytes.as_slice(), bit_len);
    }
    let mut annotation = String::new();
    if bit_len == 0 {
        annotation.append("1 \u{2192} 1");
    } else if bit_len == 1 {
        annotation.append("1 \u{2192} 2");
    } else {
        annotation.append("1 \u{2192} 2^");
        push_decimal(&mut annotation, bit_len);
    }
    assert(label@ =~= scribe_label(value.bits()));
    assert(annotation@ =~= scribe_annotation(value.bits().len()));
    RenderNode { index, label, annotation, literal: true, left: None, right: None }
}

/// Makes the rendered node of an ordinary node.
pub fn plain_node(node: &Node, index: usize) -> (e: RenderNode)
    ensures
        e@ == node_entry(*node, index),
{
    RenderNode {
        index,
        label: node.label.clone(),
        annotation: node.arrow.clone(),
        literal: false,
        left: node.inner.left_child(),
        right: node.inner.right_child(),
    }
}

/// Writes the head of a rendered node: its index and its label.
fn fmt_label(w: &mut String, e: &RenderNode)
    ensures
        final(w)@ == old(w)@ + label_text(e@),
{
    let ghost start = w@;
    push_decimal(w, e.index);
    w.append(" [label=\"");
    w.append(e.label.as_str());
    w.append("\\n");
    w.append(e.annotation.as_str());
    assert(w@ =~= start + label_text(e@));
}

/// Writes a rendered node as a scribe expression in the language of
/// Graphviz.
pub fn fmt_scribe(w: &mut String, e: &RenderNode)
    ensures
        final(w)@ == old(w)@ + scribe_text(e@),
{
    let ghost start = w@;
    fmt_label(w, e);
    w.append("\"]\n");
    assert(w@ =~= start + scribe_text(e@));
}

/// Writes one edge.
fn fmt_edge(w: &mut String, parent: usize, child: usize, tail: &str)
    ensures
        final(w)@ == old(w)@ + "  "@ + decimal(parent as nat) + " -> "@ + decimal(child as nat)
            + tail@,
{
    w.append("  ");
    push_decimal(w, parent);
    w.append(" -> ");
    push_decimal(w, child);
    w.append(tail);
}

/// Writes a rendered node as an ordinary node in the language of Graphviz,
/// with its edges: one plain edge to an only child, a red and a blue one to
/// a left and a right child.
pub fn fmt_node(w: &mut String, e: &RenderNode)
    ensures
        final(w)@ == old(w)@ + node_text(e@),
{
    let ghost start = w@;
    fmt_label(w, e);
    w.append("\"];");
    let ghost head = w@;
    assert(head =~= start + (label_text(e@) + "\"];"@));
    if let Some(i_abs) = e.left {
        if let Some(j_abs) = e.right {
            fmt_edge(w, e.index, i_abs, " [color=red];\n");
            fmt_edge(w, e.index, j_abs, " [color=blue];\n");
            assert(w@ =~= head + edges_text(e@));
        } else {
            fmt_edge(w, e.index, i_abs, ";\n");
            assert(w@ =~= head + edges_text(e@));
        }
    } else {
        assert(w@ =~= head + edges_text(e@));
    }
    assert(w@ =~= start + node_text(e@));
}

/// Whether node `i` is drawn, given the identities that are reached: a node
/// without an identity always is.
pub open spec fn shown(nodes: Seq<Node>, reached: Set<u64>, i: int) -> bool {
    nodes[i].id matches Some(id) ==> reached.contains(id)
}

/// The rendered node of node `i`, given the scribe expressions to fold.
pub open spec fn entry_with(nodes: Seq<Node>, top: Map<u64, Value>, i: int) -> RenderNodeView {
    if nodes[i].id is Some && top.contains_key(nodes[i].id->0) {
        scribe_entry(top[nodes[i].id->0].bits(), i as usize)
    } else {
        node_entry(nodes[i], i as usize)
    }
}

/// The rendered nodes of the first `k` nodes of a program, given the scribe
/// expressions to fold and the identities that are reached.
pub open spec fn rendered_with(
    nodes: Seq<Node>,
    top: Map<u64, Value>,
    reached: Set<u64>,
    k: int,
) -> Seq<RenderNodeView>
    decreases k,
{
    if k <= 0 {
        Seq::empty()
    } else if shown(nodes, reached, k - 1) {
        rendered_with(nodes, top, reached, k - 1).push(entry_with(nodes, top, k - 1))
    } else {
        rendered_with(nodes, top, reached, k - 1)
    }
}

/// The rendered nodes of a program: its maximal scribe expressions folded,
/// and what lies below them left out.
pub open spec fn rendered(nodes: Seq<Node>) -> Seq<RenderNodeView> {
    rendered_with(
        nodes,
        top_scribe_map(nodes),
        reachable_set(nodes, top_scribe_map(nodes).dom()),
        nodes.len() as int,
    )
}

/// A program as a graph: its rendered nodes in dependency order, each with
/// the indices of its children.
#[derive(Debug, PartialEq, Eq)]
pub struct RenderGraph {
    pub nodes: Vec<RenderNode>,
}

impl View for RenderGraph {
    type V = Seq<RenderNodeView>;

    open spec fn view(&self) -> Seq<RenderNodeView> {
        views(self.nodes@)
    }
}

/// The edges of the first `k` rendered nodes, in order.
pub open spec fn edges_upto(entries: Seq<RenderNodeView>, k: int) -> Seq<Edge>
    decreases k,
{
    if k <= 0 {
        Seq::empty()
    } else {
        edges_upto(entries, k - 1) + edges_of(entries[k - 1])
    }
}

/// The edges of a rendered node.
pub open spec fn edges_of(e: RenderNodeView) -> Seq<Edge> {
    match (e.left, e.right) {
        (Some(l), Some(r)) => seq![
            Edge { parent: e.index, child: l, side: Side::Left },
            Edge { parent: e.index, child: r, side: Side::Right },
        ],
        (Some(l), None) => seq![Edge { parent: e.index, child: l, side: Side::Plain }],
        _ => Seq::empty(),
    }
}

impl RenderGraph {
    /// The edges of the graph, those of each node together, in the order of
    /// the nodes.
    pub fn edges(&self) -> (edges: Vec<Edge>)
        ensures
            edges@ == edges_upto(self@, self@.len() as int),
    {
        let mut edges: Vec<Edge> = Vec::new();
        let mut k: usize = 0;
        while k < self.nodes.len()
            invariant
                k <= self.nodes@.len(),
                edges@ == edges_upto(self@, k as int),
            decreases self.nodes@.len() - k,
        {
            let e = &self.nodes[k];
            assert(self@[k as int] == e@);
            let ghost before = edges@;
            if let Some(l) = e.left {
                if let Some(r) = e.right {
                    edges.push(Edge { parent: e.index, child: l, side: Side::Left });
                    edges.push(Edge { parent: e.index, child: r, side: Side::Right });
                } else {
                    edges.push(Edge { parent: e.index, child: l, side: Side::Plain });
                }
            }
            assert(edges@ =~= before + edges_of(e@));
            k += 1;
        }
        edges
    }

    /// The graph in the language of Graphviz.
    pub fn to_dot(&self) -> (dot: String)
        ensures
            dot@ == dot_text(self@),
    {
        let mut dot = String::new();
        dot.append("digraph {\nranksep=3;\n");
        let mut k: usize = 0;
        assert(self@.subrange(0, 0) =~= Seq::empty());
        while k < self.nodes.len()
            invariant
                k <= self.nodes@.len(),
                dot@ == "digraph {\nranksep=3;\n"@ + entries_text(self@.subrange(0, k as int)),
            decreases self.nodes@.len() - k,
        {
            let e = &self.nodes[k];
            assert(self@[k as int] == e@);
            assert(self@.subrange(0, k + 1).drop_last() =~= self@.subrange(0, k as int));
            if e.literal {
                fmt_scribe(&mut dot, e);
            } else {
                fmt_node(&mut dot, e);
            }
            k += 1;
            assert(dot@ =~= "digraph {\nranksep=3;\n"@ + entries_text(
                self@.subrange(0, k as int),
            ));
        }
        assert(self@.subrange(0, k as int) =~= self@);
        dot.append("}\n");
        dot
    }
}

/// Renders a program, given the scribe expressions to fold into one node
/// each and the identities of the nodes to draw.
pub fn render(program: &Dag, top: &HashMap<u64, Value>, reached: &HashSet<u64>) -> (graph:
    RenderGraph)
    ensures
        graph@ == rendered_with(program@, top@, reached@, program@.len() as int),
{
    broadcast use vstd::std_specs::hash::group_hash_axioms;

    let n = program.len();
    let mut entries: Vec<RenderNode> = Vec::new();
    let mut i: usize = 0;
    assert(views(entries@) =~= Seq::empty());
    while i < n
        invariant
            n == program@.len(),
            i <= n,
            views(entries@) == rendered_with(program@, top@, reached@, i as int),
        decreases n - i,
    {
        let node = program.node(i);
        let ghost before = entries@;
        i += 1;
        let entry = match node.id {
            Some(id) => {
                if !reached.contains(&id) {
                    continue ;
                }
                match top.get(&id) {
                    Some(value) => scribe_node(value, i - 1),
                    None => plain_node(node, i - 1),
                }
            },
            None => plain_node(node, i - 1),
        };
        entries.push(entry);
        assert(views(entries@) =~= views(before).push(entry@));
    }
    RenderGraph { nodes: entries }
}

/// Renders a program in the language of Graphviz, each maximal scribe
/// expression as one node.
pub fn program_to_dot(program: &Dag) -> (dot: String)
    ensures
        dot@ == dot_text(rendered(program@)),
{
    let (scribe_values, _) = scribe_values_hidden(program);
    let reachable = scribe_reachable(program, &scribe_values);
    render(program, &scribe_values, &reachable).to_dot()
}

/// Stopping at the scribe expressions of a program, or at the maximal ones
/// only, the traversal reaches from a node that it reaches from the root
/// what is reached without going below a scribe expression.
pub proof fn lemma_reaches_outside_scribes(nodes: Seq<Node>, s: int, i: int)
    requires
        well_formed(nodes),
        visible(nodes, s),
    ensures
        reaches_outside(nodes, scribe_map(nodes).dom(), s, i) == reaches(nodes, s, i),
        reaches_outside(nodes, top_scribe_map(nodes).dom(), s, i) == reaches(nodes, s, i),
    decreases s,
{
    if nodes[s].id is Some {
        lemma_scribe_map_at(nodes, s);
        lemma_top_scribe_map_at(nodes, s);
    }
    assert(stops_at(nodes, scribe_map(nodes).dom(), s) == is_scribe(nodes, s));
    assert(stops_at(nodes, top_scribe_map(nodes).dom(), s) == is_scribe(nodes, s));
    if !is_scribe(nodes, s) {
        match nodes[s].inner.left() {
            Some(c) => {
                assert(is_child(nodes, s, c as int));
                lemma_reaches_child(nodes, nodes.len() - 1, s, c as int);
                lemma_reaches_outside_scribes(nodes, c as int, i);
            },
            None => {},
        }
        match nodes[s].inner.right() {
            Some(c) => {
                assert(is_child(nodes, s, c as int));
                lemma_reaches_child(nodes, nodes.len() - 1, s, c as int);
                lemma_reaches_outside_scribes(nodes, c as int, i);
            },
            None => {},
        }
    }
}

/// The identities that are reached are those of the nodes that are reached
/// without going below a scribe expression, whether the traversal is given
/// all scribe expressions or the maximal ones only.
pub proof fn lemma_reachable_set_at(nodes: Seq<Node>, i: int)
    requires
        well_formed(nodes),
        0 <= i < nodes.len(),
        nodes[i].id is Some,
    ensures
        reachable_set(nodes, scribe_map(nodes).dom()).contains(nodes[i].id->0) <==> visible(
            nodes,
            i,
        ),
        reachable_set(nodes, top_scribe_map(nodes).dom()).contains(nodes[i].id->0) <==> visible(
            nodes,
            i,
        ),
{
    let id = nodes[i].id->0;
    let root = nodes.len() - 1;
    assert(reaches(nodes, root, root));
    lemma_reaches_outside_scribes(nodes, root, i);
    if visible(nodes, i) {
        assert(is_reached_with_id(nodes, scribe_map(nodes).dom(), i, id));
        assert(is_reached_with_id(nodes, top_scribe_map(nodes).dom(), i, id));
    }
    if reachable_set(nodes, scribe_map(nodes).dom()).contains(id) {
        let k = choose|k: int| is_reached_with_id(nodes, scribe_map(nodes).dom(), k, id);
        assert(k == i);
    }
    if reachable_set(nodes, top_scribe_map(nodes).dom()).contains(id) {
        let k = choose|k: int| is_reached_with_id(nodes, top_scribe_map(nodes).dom(), k, id);
        assert(k == i);
    }
}

/// The reachability analysis gives the same set for the map of all scribe
/// expressions and for that of the maximal ones.
pub proof fn lemma_reachable_set_of_either_map(nodes: Seq<Node>)
    requires
        well_formed(nodes),
    ensures
        reachable_set(nodes, scribe_map(nodes).dom()) == reachable_set(
            nodes,
            top_scribe_map(nodes).dom(),
        ),
{
    let a = reachable_set(nodes, scribe_map(nodes).dom());
    let b = reachable_set(nodes, top_scribe_map(nodes).dom());
    assert forall|id: u64| a.contains(id) <==> b.contains(id) by {
        if a.contains(id) {
            let k = choose|k: int| is_reached_with_id(nodes, scribe_map(nodes).dom(), k, id);
            lemma_reachable_set_at(nodes, k);
        }
        if b.contains(id) {
            let k = choose|k: int| is_reached_with_id(nodes, top_scribe_map(nodes).dom(), k, id);
            lemma_reachable_set_at(nodes, k);
        }
    }
    assert(a =~= b);
}

/// A node is drawn exactly if it is reached from the root without going
/// below a scribe expression, and it is drawn as a scribe expression exactly
/// if it is one.
pub proof fn lemma_shown_is_visible(nodes: Seq<Node>, i: int)
    requires
        well_formed(nodes),
        0 <= i < nodes.len(),
    ensures
        shown(nodes, reachable_set(nodes, top_scribe_map(nodes).dom()), i) <==> visible(nodes, i),
        visible(nodes, i) ==> entry_with(nodes, top_scribe_map(nodes), i) == rendered_node(
            nodes,
            i,
        ),
{
    if nodes[i].id is Some {
        lemma_reachable_set_at(nodes, i);
        lemma_top_scribe_map_at(nodes, i);
    } else {
        lemma_others_are_visible(nodes, i);
    }
}

/// The rendered nodes of a program are those of the nodes that are reached
/// from the root without going below a scribe expression, in order.
pub proof fn lemma_rendered_upto(nodes: Seq<Node>, k: int)
    requires
        well_formed(nodes),
        k <= nodes.len(),
    ensures
        rendered_with(
            nodes,
            top_scribe_map(nodes),
            reachable_set(nodes, top_scribe_map(nodes).dom()),
            k,
        ) == rendered_upto(nodes, k),
    decreases k,
{
    if k > 0 {
        lemma_rendered_upto(nodes, k - 1);
        lemma_shown_is_visible(nodes, k - 1);
    }
}

/// What holds of the rendered nodes of the first `k` nodes: each is the
/// rendered node of a node that is reached, they come by rising index, and
/// none that is reached is left out.
pub proof fn lemma_rendered_entries(nodes: Seq<Node>, k: int)
    requires
        well_formed(nodes),
        k <= nodes.len(),
    ensures
        forall|a: int|
            0 <= a < rendered_upto(nodes, k).len() ==> {
                let e = #[trigger] rendered_upto(nodes, k)[a];
                e.index < k && visible(nodes, e.index as int) && e == rendered_node(
                    nodes,
                    e.index as int,
                )
            },
        forall|a: int, b: int|
            0 <= a < b < rendered_upto(nodes, k).len() ==> (#[trigger] rendered_upto(
                nodes,
                k,
            )[a]).index < (#[trigger] rendered_upto(nodes, k)[b]).index,
        forall|i: int|
            0 <= i < k && #[trigger] visible(nodes, i) ==> exists|a: int|
                0 <= a < rendered_upto(nodes, k).len() && (#[trigger] rendered_upto(
                    nodes,
                    k,
                )[a]).index == i,
    decreases k,
{
    if k > 0 {
        lemma_rendered_entries(nodes, k - 1);
        let prev = rendered_upto(nodes, k - 1);
        let cur = rendered_upto(nodes, k);
        assert forall|i: int| 0 <= i < k && #[trigger] visible(nodes, i) implies exists|a: int|
            0 <= a < cur.len() && (#[trigger] cur[a]).index == i by {
            if i < k - 1 {
                let a = choose|a: int| 0 <= a < prev.len() && (#[trigger] prev[a]).index == i;
                assert(cur[a].index == i);
            } else {
                assert(cur[cur.len() - 1].index == i);
            }
        }
    }
}

/// Each node is rendered at most once, and every edge of the rendered graph
/// goes to a node that was rendered before the node that the edge leaves.
pub proof fn lemma_edge_targets_come_first(nodes: Seq<Node>, a: int, c: usize)
    requires
        well_formed(nodes),
        0 <= a < rendered(nodes).len(),
        rendered(nodes)[a].left == Some(c) || rendered(nodes)[a].right == Some(c),
    ensures
        exists|b: int| 0 <= b < a && (#[trigger] rendered(nodes)[b]).index == c,
        forall|b: int|
            0 <= b < rendered(nodes).len() && b != a ==> (#[trigger] rendered(nodes)[b]).index
                != rendered(nodes)[a].index,
{
    let n = nodes.len() as int;
    lemma_rendered_upto(nodes, n);
    lemma_rendered_entries(nodes, n);
    let all = rendered_upto(nodes, n);
    let e = all[a];
    let i = e.index as int;
    assert(e == rendered_node(nodes, i));
    assert(!is_scribe(nodes, i));
    assert(is_child(nodes, i, c as int));
    assert(nodes[i].inner.left() matches Some(x) ==> x < i);
    assert(nodes[i].inner.right() matches Some(x) ==> x < i);
    lemma_reaches_child(nodes, n - 1, i, c as int);
    assert(visible(nodes, c as int));
    let b = choose|b: int| 0 <= b < all.len() && (#[trigger] all[b]).index == c;
    if b >= a {
        if b > a {
            assert(all[a].index < all[b].index);
        }
    }
    assert forall|b: int| 0 <= b < all.len() && b != a implies (#[trigger] all[b]).index
        != all[a].index by {
        if b < a {
            assert(all[b].index < all[a].index);
        } else {
            assert(all[a].index < all[b].index);
        }
    }
}

/// Whether the identity of node `i` is that of a hidden scribe expression.
pub open spec fn is_hidden(nodes: Seq<Node>, i: int) -> bool {
    nodes[i].id matches Some(id) && hidden_set(nodes).contains(id)
}

/// A node is reached from the root without going below a scribe expression
/// exactly if it is not hidden.
pub proof fn lemma_visible_iff_not_hidden(nodes: Seq<Node>, i: int)
    requires
        well_formed(nodes),
        0 <= i < nodes.len(),
    ensures
        visible(nodes, i) <==> !is_hidden(nodes, i),
{
    if nodes[i].id is Some {
        lemma_scribe_map_at(nodes, i);
        lemma_top_scribe_map_at(nodes, i);
    }
    if !is_scribe(nodes, i) {
        lemma_others_are_visible(nodes, i);
    }
}

/// Every node of a program is reached from the root by going from a node to
/// its children.
pub proof fn lemma_all_reachable(nodes: Seq<Node>, i: int)
    requires
        well_formed(nodes),
        0 <= i < nodes.len(),
    ensures
        reaches_outside(nodes, Set::empty(), nodes.len() - 1, i),
    decreases nodes.len() - i,
{
    if i < nodes.len() - 1 {
        assert(crate::dag::has_parent(nodes, i));
        let p = choose|p: int| i < p < nodes.len() && #[trigger] is_child(nodes, p, i);
        lemma_all_reachable(nodes, p);
        lemma_reaches_outside_child(nodes, Set::empty(), nodes.len() - 1, p, i as usize);
    }
}

/// The nodes among the first `k` that are reached from the root and whose
/// identity is not hidden.
pub open spec fn drawn_nodes(nodes: Seq<Node>, k: int) -> Set<int> {
    Set::new(
        |i: int|
            0 <= i < k && reaches_outside(nodes, Set::empty(), nodes.len() - 1, i) && !is_hidden(
                nodes,
                i,
            ),
    )
}

/// There are as many rendered nodes among the first `k` nodes as there are
/// nodes among them that are reached from the root and not hidden.
pub proof fn lemma_rendered_count(nodes: Seq<Node>, k: int)
    requires
        well_formed(nodes),
        0 <= k <= nodes.len(),
    ensures
        drawn_nodes(nodes, k).finite(),
        rendered_upto(nodes, k).len() == drawn_nodes(nodes, k).len(),
    decreases k,
{
    if k == 0 {
        assert(drawn_nodes(nodes, k) =~= Set::empty());
    } else {
        lemma_rendered_count(nodes, k - 1);
        lemma_visible_iff_not_hidden(nodes, k - 1);
        lemma_all_reachable(nodes, k - 1);
        if visible(nodes, k - 1) {
            assert(drawn_nodes(nodes, k) =~= drawn_nodes(nodes, k - 1).insert(k - 1));
        } else {
            assert(drawn_nodes(nodes, k) =~= drawn_nodes(nodes, k - 1));
        }
    }
}

/// Render totality: the rendered graph of a program has one node for each
/// node of the program that is reached from the root and not hidden. As no
/// identity stands at two nodes of a program, these are as many as the
/// identities that are reached and not hidden.
pub proof fn lemma_render_is_total(nodes: Seq<Node>)
    requires
        well_formed(nodes),
    ensures
        drawn_nodes(nodes, nodes.len() as int).finite(),
        rendered(nodes).len() == drawn_nodes(nodes, nodes.len() as int).len(),
{
    lemma_rendered_upto(nodes, nodes.len() as int);
    lemma_rendered_count(nodes, nodes.len() as int);
}

/// Whether a node that is reached from the root and not hidden has identity
/// `id`.
pub open spec fn is_drawn_with_id(nodes: Seq<Node>, i: int, id: u64) -> bool {
    drawn_nodes(nodes, nodes.len() as int).contains(i) && nodes[i].id == Some(id)
}

/// The identities of the nodes that are reached from the root and not
/// hidden.
pub open spec fn drawn_identities(nodes: Seq<Node>) -> Set<u64> {
    Set::new(|id: u64| exists|i: int| is_drawn_with_id(nodes, i, id))
}

/// Render totality, by identities: where every node of a program has an
/// identity, the rendered graph has as many nodes as there are identities
/// that are reached from the root and not hidden.
pub proof fn lemma_render_counts_identities(nodes: Seq<Node>)
    requires
        well_formed(nodes),
        forall|i: int| 0 <= i < nodes.len() ==> (#[trigger] nodes[i]).id is Some,
    ensures
        drawn_identities(nodes).finite(),
        rendered(nodes).len() == drawn_identities(nodes).len(),
{
    lemma_render_is_total(nodes);
    let among = drawn_nodes(nodes, nodes.len() as int);
    let identity = |i: int| nodes[i].id->0;
    assert(vstd::relations::injective_on(identity, among)) by {
        assert forall|a: int, b: int|
            among.contains(a) && among.contains(b) && #[trigger] identity(a) == #[trigger] identity(
                b,
            ) implies a == b by {
            assert(nodes[a].id is Some && nodes[b].id is Some);
        }
    }
    assert(among.map(identity) =~= drawn_identities(nodes)) by {
        assert forall|id: u64| among.map(identity).contains(id) implies drawn_identities(
            nodes,
        ).contains(id) by {
            let i = choose|i: int| among.contains(i) && id == identity(i);
            assert(nodes[i].id is Some);
            assert(is_drawn_with_id(nodes, i, id));
        }
        assert forall|id: u64| drawn_identities(nodes).contains(id) implies among.map(
            identity,
        ).contains(id) by {
            let i = choose|i: int| is_drawn_with_id(nodes, i, id);
            assert(among.contains(i) && id == identity(i));
        }
    }
    vstd::set_lib::lemma_map_size(among, drawn_identities(nodes), identity);
}

} // verus!
