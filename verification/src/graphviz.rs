//! A plainer rendering of a program for Graphviz, in which the node of a
//! scribe expression is marked as such.

use vstd::prelude::*;
use std::collections::HashMap;
use std::collections::HashSet;
use vstd::string::StringExecFns;
use crate::dag::{Dag, Node};
use crate::graph::{
    node_entry, plain_node, scribe_reachable, shown, views, reachable_set, RenderGraph,
    RenderNode, RenderNodeView,
};
use crate::hex::{binary_string, push_binary, push_upper_hex, upper_hex_string};
use crate::text::{decimal, push_decimal};
use crate::value::{packed, Value};

verus! {

/// The label of a bit string that is marked as a scribe expression: the
/// mark, a line break for Graphviz, and the bytes of the bit string, in
/// hexadecimal where its length is a multiple of eight and in binary where
/// it is not.
pub open spec fn marked_label(bits: Seq<bool>) -> Seq<char> {
    "scribe\\n"@ + if bits.len() % 8 == 0 {
        upper_hex_string(packed(bits))
    } else {
        binary_string(packed(bits))
    }
}

/// The rendered node of a scribe expression with the given bits, marked as
/// one, with the type arrow of a constant of that many bits.
pub open spec fn marked_entry(bits: Seq<bool>, index: usize) -> RenderNodeView {
    RenderNodeView {
        index,
        label: marked_label(bits),
        annotation: "1 \u{2192} 2^"@ + decimal(bits.len()),
        literal: true,
        left: None,
        right: None,
    }
}

/// The rendered node of node `i`, given the scribe expressions to mark.
pub open spec fn marked_entry_with(
    nodes: Seq<Node>,
    node_to_scribe: Map<u64, Value>,
    i: int,
) -> RenderNodeView {
    if nodes[i].id is Some && node_to_scribe.contains_key(nodes[i].id->0) {
        marked_entry(node_to_scribe[nodes[i].id->0].bits(), i as usize)
    } else {
        node_entry(nodes[i], i as usize)
    }
}

/// The rendered nodes of the first `k` nodes of a program, given the scribe
/// expressions to mark and the identities that are reached.
pub open spec fn listed_with(
    nodes: Seq<Node>,
    node_to_scribe: Map<u64, Value>,
    connected: Set<u64>,
    k: int,
) -> Seq<RenderNodeView>
    decreases k,
{
    if k <= 0 {
        Seq::empty()
    } else if shown(nodes, connected, k - 1) {
        listed_with(nodes, node_to_scribe, connected, k - 1).push(
            marked_entry_with(nodes, node_to_scribe, k - 1),
        )
    } else {
        listed_with(nodes, node_to_scribe, connected, k - 1)
    }
}

/// Makes the rendered node of a scribe expression, marked as one.
pub fn marked_scribe_node(value: &Value, index: usize) -> (e: RenderNode)
    ensures
        e@ == marked_entry(value.bits(), index),
{
    let (bytes, bit_len) = value.to_bytes_len();
    let mut label = String::new();
    label.append("scribe\\n");
    if bit_len % 8 == 0 {
        push_upper_hex(&mut label, bytes.as_slice());
    } else {
        push_binary(&mut label, bytes.as_slice());
    }
    let mut annotation = String::new();
    annotation.append("1 \u{2192} 2^");
    push_decimal(&mut annotation, bit_len);
    RenderNode { index, label, annotation, literal: true, left: None, right: None }
}

/// Renders the part of a program that is reached from the root when the
/// given scribe expressions are taken as leaves, each of them marked.
pub fn program_graph(program: &Dag, node_to_scribe: &HashMap<u64, Value>) -> (graph: RenderGraph)
    ensures
        graph@ == listed_with(
            program@,
            node_to_scribe@,
            reachable_set(program@, node_to_scribe@.dom()),
            program@.len() as int,
        ),
{
    broadcast use vstd::std_specs::hash::group_hash_axioms;

    let connected: HashSet<u64> = scribe_reachable(program, node_to_scribe);
    let n = program.len();
    let mut entries: Vec<RenderNode> = Vec::new();
    let mut index: usize = 0;
    assert(views(entries@) =~= Seq::empty());
    while index < n
        invariant
            n == program@.len(),
            index <= n,
            views(entries@) == listed_with(program@, node_to_scribe@, connected@, index as int),
        decreases n - index,
    {
        let node = program.node(index);
        let ghost before = entries@;
        index += 1;
        let entry = match node.id {
            Some(id) => {
                if !connected.contains(&id) {
                    continue ;
                }
                match node_to_scribe.get(&id) {
                    Some(value) => marked_scribe_node(value, index - 1),
                    None => plain_node(node, index - 1),
                }
            },
            None => plain_node(node, index - 1),
        };
        entries.push(entry);
        assert(views(entries@) =~= views(before).push(entry@));
    }
    RenderGraph { nodes: entries }
}

} // verus!
