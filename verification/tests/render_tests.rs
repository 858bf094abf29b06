use std::collections::{HashMap, HashSet};
use std::sync::Arc;

use simplicity_inspect::compress::{scribe_values, scribe_values_hidden, CompressScribe};
use simplicity_inspect::dag::{Dag, Inner, Node};
use simplicity_inspect::graph::{
    fmt_node, fmt_scribe, plain_node, program_to_dot, render, scribe_node, scribe_reachable,
    Edge, RenderNode, Side,
};
use simplicity_inspect::graphviz::{marked_scribe_node, program_graph};
use simplicity_inspect::shared::{render_compressed, render_shared};
use simplicity_inspect::sharing::{MaxSharing, NoSharing, SharingTracker};
use simplicity_inspect::value::Value;

fn node(id: u64, inner: Inner, label: &str) -> Node {
    Node { id: Some(id), inner, label: label.to_string(), arrow: "A \u{2192} B".to_string() }
}

fn program(nodes: Vec<Node>) -> Dag {
    Dag::from_nodes(nodes).expect("a well-formed program")
}

fn bit(b: bool) -> Value {
    if b {
        Value::SumR(Arc::new(Value::Unit))
    } else {
        Value::SumL(Arc::new(Value::Unit))
    }
}

fn pair(l: Value, r: Value) -> Value {
    Value::Prod(Arc::new(l), Arc::new(r))
}

fn byte(b: u8) -> Value {
    let bits: Vec<Value> = (0..8).map(|k| bit(b & (0x80 >> k) != 0)).collect();
    pair(
        pair(pair(bits[0].clone(), bits[1].clone()), pair(bits[2].clone(), bits[3].clone())),
        pair(pair(bits[4].clone(), bits[5].clone()), pair(bits[6].clone(), bits[7].clone())),
    )
}

/// pair (injl unit) witness, under a drop: the injection is a maximal scribe
/// expression, the unit below it is hidden.
fn mixed() -> Dag {
    program(vec![
        node(10, Inner::Unit, "unit"),
        node(11, Inner::InjL(0), "injl"),
        node(12, Inner::Witness, "witness"),
        node(13, Inner::Pair(1, 2), "pair"),
        node(14, Inner::Drop(3), "drop"),
    ])
}

#[test]
fn values_are_packed_high_bit_first() {
    assert_eq!(Value::Unit.to_bytes_len(), (vec![], 0));
    assert_eq!(bit(true).to_bytes_len(), (vec![0x80], 1));
    assert_eq!(bit(false).to_bytes_len(), (vec![0x00], 1));
    let three = pair(bit(true), pair(bit(false), bit(true)));
    assert_eq!(three.to_bits(), vec![true, false, true]);
    assert_eq!(three.to_bytes_len(), (vec![0xa0], 3));
    assert_eq!(byte(0xde).to_bytes_len(), (vec![0xde], 8));
    let nine = pair(byte(0xff), bit(true));
    assert_eq!(nine.to_bytes_len(), (vec![0xff, 0x80], 9));
    let sixteen = pair(byte(0xde), byte(0xad));
    assert_eq!(sixteen.to_bytes_len(), (vec![0xde, 0xad], 16));
    // a sum of something other than unit gives its tag, then the rest
    let nested = Value::SumR(Arc::new(bit(false)));
    assert_eq!(nested.to_bits(), vec![true, false]);
    assert_eq!(three.share(), three);
}

#[test]
fn scribe_nodes_show_hex_or_bits_and_the_size() {
    let e = scribe_node(&Value::Unit, 4);
    assert_eq!((e.index, e.label.as_str(), e.annotation.as_str()), (4, "unit", "1 \u{2192} 1"));
    let e = scribe_node(&bit(true), 0);
    assert_eq!((e.label.as_str(), e.annotation.as_str()), ("1", "1 \u{2192} 2"));
    let e = scribe_node(&pair(bit(true), pair(bit(false), bit(true))), 0);
    assert_eq!((e.label.as_str(), e.annotation.as_str()), ("101", "1 \u{2192} 2^3"));
    let e = scribe_node(&pair(byte(0xde), byte(0x0a)), 0);
    assert_eq!((e.label.as_str(), e.annotation.as_str()), ("DE0A", "1 \u{2192} 2^16"));
    let e = scribe_node(&pair(byte(0xff), bit(true)), 0);
    assert_eq!((e.label.as_str(), e.annotation.as_str()), ("111111111", "1 \u{2192} 2^9"));
    assert!(e.literal && e.left.is_none() && e.right.is_none());
}

#[test]
fn marked_scribe_nodes_always_show_a_power() {
    let e = marked_scribe_node(&Value::Unit, 2);
    assert_eq!((e.label.as_str(), e.annotation.as_str()), ("scribe\\n", "1 \u{2192} 2^0"));
    let e = marked_scribe_node(&bit(true), 2);
    assert_eq!((e.label.as_str(), e.annotation.as_str()), ("scribe\\n10000000", "1 \u{2192} 2^1"));
    let e = marked_scribe_node(&byte(0xab), 2);
    assert_eq!((e.label.as_str(), e.annotation.as_str()), ("scribe\\nAB", "1 \u{2192} 2^8"));
}

#[test]
fn reconstruction_is_the_same_every_time() {
    let p = mixed();
    let first = scribe_values(&p);
    let second = scribe_values(&p);
    assert_eq!(first, second);
    let expected: HashMap<u64, Value> =
        [(10, Value::Unit), (11, bit(false))].into_iter().collect();
    assert_eq!(first, expected);
}

#[test]
fn maximal_and_hidden_scribes_part_the_scribes() {
    let p = mixed();
    let all = scribe_values(&p);
    let (top, hidden) = scribe_values_hidden(&p);
    let expected: HashMap<u64, Value> = [(11, bit(false))].into_iter().collect();
    assert_eq!(top, expected);
    assert_eq!(hidden, [10].into_iter().collect::<HashSet<u64>>());
    for id in all.keys() {
        assert_ne!(top.contains_key(id), hidden.contains(id));
        if let Some(value) = top.get(id) {
            assert_eq!(value, &all[id]);
        }
    }
    assert_eq!(top.len() + hidden.len(), all.len());
}

#[test]
fn shared_scribe_below_another_stays_maximal() {
    // the unit is a child of the pair, which is a scribe expression, and of
    // the case, which is none: it is drawn on its own
    let p = program(vec![
        node(1, Inner::Unit, "unit"),
        node(2, Inner::Pair(0, 0), "pair"),
        node(3, Inner::Case(1, 0), "case"),
    ]);
    let (top, hidden) = scribe_values_hidden(&p);
    assert_eq!(top.len(), 2);
    assert_eq!(top[&1], Value::Unit);
    assert_eq!(top[&2], pair(Value::Unit, Value::Unit));
    assert!(hidden.is_empty());
}

#[test]
fn diamond_hides_what_only_scribes_lead_to() {
    // the unit is shared by two injections; one hangs under a scribe pair,
    // both are children of the comp, which is no scribe expression
    let p = program(vec![
        node(1, Inner::Unit, "unit"),
        node(2, Inner::InjL(0), "injl"),
        node(3, Inner::InjR(0), "injr"),
        node(4, Inner::Pair(1, 2), "pair"),
        node(5, Inner::Iden, "iden"),
        node(6, Inner::Comp(3, 4), "comp"),
        node(7, Inner::Comp(5, 1), "comp"),
    ]);
    let (top, hidden) = scribe_values_hidden(&p);
    let mut maximal: Vec<u64> = top.keys().copied().collect();
    maximal.sort();
    assert_eq!(maximal, vec![2, 4]);
    let mut inner: Vec<u64> = hidden.iter().copied().collect();
    inner.sort();
    assert_eq!(inner, vec![1, 3]);
}

#[test]
fn reachability_is_the_same_for_all_and_for_maximal_scribes() {
    let p = mixed();
    let all = scribe_values(&p);
    let (top, _) = scribe_values_hidden(&p);
    let expected: HashSet<u64> = [11, 12, 13, 14].into_iter().collect();
    assert_eq!(scribe_reachable(&p, &all), expected);
    assert_eq!(scribe_reachable(&p, &top), expected);
    // with nothing to stop at, every node is reached
    assert_eq!(scribe_reachable(&p, &HashMap::new()).len(), 5);
    // stopping at the root, nothing else is
    let root: HashMap<u64, Value> = [(14, Value::Unit)].into_iter().collect();
    assert_eq!(scribe_reachable(&p, &root), [14].into_iter().collect::<HashSet<u64>>());
}

#[test]
fn rendering_draws_what_is_not_hidden() {
    let p = mixed();
    let (top, hidden) = scribe_values_hidden(&p);
    let reached = scribe_reachable(&p, &top);
    let graph = render(&p, &top, &reached);
    let indices: Vec<usize> = graph.nodes.iter().map(|e| e.index).collect();
    assert_eq!(indices, vec![1, 2, 3, 4]);
    assert_eq!(graph.nodes.len(), p.len() - hidden.len());
    assert_eq!(graph.nodes[0].label, "0");
    assert_eq!(graph.nodes[0].annotation, "1 \u{2192} 2");
    let edges = graph.edges();
    assert_eq!(
        edges,
        vec![
            Edge { parent: 3, child: 1, side: Side::Left },
            Edge { parent: 3, child: 2, side: Side::Right },
            Edge { parent: 4, child: 3, side: Side::Plain },
        ]
    );
    for edge in &edges {
        assert!(indices.contains(&edge.child) && edge.child < edge.parent);
    }
    assert_eq!(
        program_to_dot(&p),
        "digraph {\nranksep=3;\n\
         1 [label=\"0\\n1 \u{2192} 2\"]\n\
         2 [label=\"witness\\nA \u{2192} B\"];\
         3 [label=\"pair\\nA \u{2192} B\"];  3 -> 1 [color=red];\n  3 -> 2 [color=blue];\n\
         4 [label=\"drop\\nA \u{2192} B\"];  4 -> 3;\n\
         }\n"
    );
}

#[test]
fn compressed_rendering_numbers_without_gaps() {
    let p = mixed();
    let (top, hidden) = scribe_values_hidden(&p);
    let graph = render_compressed(&p, &top, hidden).expect("a graph");
    let indices: Vec<usize> = graph.nodes.iter().map(|e| e.index).collect();
    assert_eq!(indices, vec![0, 1, 2, 3]);
    let labels: Vec<&str> = graph.nodes.iter().map(|e| e.label.as_str()).collect();
    assert_eq!(labels, vec!["0", "witness", "pair", "drop"]);
    assert_eq!(
        graph.edges(),
        vec![
            Edge { parent: 2, child: 0, side: Side::Left },
            Edge { parent: 2, child: 1, side: Side::Right },
            Edge { parent: 3, child: 2, side: Side::Plain },
        ]
    );
    assert_eq!(
        graph.to_dot(),
        "digraph {\nranksep=3;\n\
         0 [label=\"0\\n1 \u{2192} 2\"]\n\
         1 [label=\"witness\\nA \u{2192} B\"];\
         2 [label=\"pair\\nA \u{2192} B\"];  2 -> 0 [color=red];\n  2 -> 1 [color=blue];\n\
         3 [label=\"drop\\nA \u{2192} B\"];  3 -> 2;\n\
         }\n"
    );
}

#[test]
fn compressed_rendering_needs_the_children_of_what_it_draws() {
    let p = mixed();
    // the witness is hidden, but its parent is drawn with its children
    let hidden: HashSet<u64> = [12].into_iter().collect();
    assert_eq!(render_compressed(&p, &HashMap::new(), hidden), None);
    // nothing hidden, nothing folded: every node is drawn
    let graph = render_compressed(&p, &HashMap::new(), HashSet::new()).expect("a graph");
    assert_eq!(graph.nodes.len(), 5);
    assert!(graph.nodes.iter().all(|e| !e.literal));
}

#[test]
fn plain_listing_marks_the_scribes() {
    let p = mixed();
    let all = scribe_values(&p);
    assert_eq!(
        program_graph(&p, &all).to_dot(),
        "digraph {\nranksep=3;\n\
         1 [label=\"scribe\\n00000000\\n1 \u{2192} 2^1\"]\n\
         2 [label=\"witness\\nA \u{2192} B\"];\
         3 [label=\"pair\\nA \u{2192} B\"];  3 -> 1 [color=red];\n  3 -> 2 [color=blue];\n\
         4 [label=\"drop\\nA \u{2192} B\"];  4 -> 3;\n\
         }\n"
    );
}

#[test]
fn indices_are_written_in_decimal() {
    let mut nodes = vec![node(0, Inner::Iden, "iden")];
    for i in 1..=120u64 {
        nodes.push(node(i, Inner::Take(i as usize - 1), "take"));
    }
    let dot = program_to_dot(&program(nodes));
    assert!(dot.contains("9 [label=\"take\\nA \u{2192} B\"];  9 -> 8;\n"));
    assert!(dot.contains("10 [label=\"take\\nA \u{2192} B\"];  10 -> 9;\n"));
    assert!(dot.contains("100 [label=\"take\\nA \u{2192} B\"];  100 -> 99;\n"));
    assert!(dot.ends_with("120 [label=\"take\\nA \u{2192} B\"];  120 -> 119;\n}\n"));
}

#[test]
fn maximal_sharing_remembers_the_first_index() {
    let a = node(5, Inner::Unit, "unit");
    let b = node(6, Inner::Unit, "unit");
    let nameless = Node { id: None, ..node(0, Inner::Witness, "witness") };
    let mut tracker = MaxSharing::new();
    assert_eq!(tracker.seen_before(&a), None);
    assert_eq!(tracker.record(&a, 3), None);
    assert_eq!(tracker.seen_before(&a), Some(3));
    assert_eq!(tracker.record(&a, 4), Some(3));
    assert_eq!(tracker.seen_before(&a), Some(3));
    assert_eq!(tracker.seen_before(&b), None);
    assert_eq!(tracker.record(&nameless, 7), None);
    assert_eq!(tracker.record(&nameless, 8), None);
    assert_eq!(tracker.seen_before(&nameless), None);
    let mut none = NoSharing;
    assert_eq!(none.record(&a, 1), None);
    assert_eq!(none.record(&a, 2), None);
    assert_eq!(none.seen_before(&a), None);
}

#[test]
fn hidden_nodes_never_reach_the_tracker_below() {
    let hidden_node = node(5, Inner::Unit, "unit");
    let shown_node = node(6, Inner::Unit, "unit");
    let mut tracker: CompressScribe<MaxSharing> = CompressScribe::new([5].into_iter().collect());
    // a hidden node is answered with the index at hand and is not recorded
    assert_eq!(tracker.record(&hidden_node, 2), Some(2));
    assert_eq!(tracker.seen_before(&hidden_node), None);
    assert_eq!(tracker.record(&hidden_node, 9), Some(9));
    // any other node is shared as the tracker below shares it
    assert_eq!(tracker.record(&shown_node, 2), None);
    assert_eq!(tracker.record(&shown_node, 3), Some(2));
    assert_eq!(tracker.seen_before(&shown_node), Some(2));
    let mut unshared: CompressScribe<NoSharing> = CompressScribe::new([5].into_iter().collect());
    assert_eq!(unshared.record(&hidden_node, 1), Some(1));
    assert_eq!(unshared.record(&shown_node, 1), None);
    assert_eq!(unshared.record(&shown_node, 2), None);
}

#[test]
fn programs_must_be_well_formed() {
    let unit = || node(1, Inner::Unit, "unit");
    assert!(Dag::from_nodes(vec![]).is_none());
    assert!(Dag::from_nodes(vec![unit()]).is_some());
    // a child that comes after its parent, or is the node itself
    assert!(Dag::from_nodes(vec![node(2, Inner::InjL(1), "injl"), unit()]).is_none());
    assert!(Dag::from_nodes(vec![node(2, Inner::InjL(0), "injl")]).is_none());
    assert!(Dag::from_nodes(vec![unit(), node(2, Inner::Pair(0, 5), "pair")]).is_none());
    // an identity at two nodes
    assert!(Dag::from_nodes(vec![unit(), node(1, Inner::InjL(0), "injl")]).is_none());
    // a node that nothing leads to
    assert!(Dag::from_nodes(vec![unit(), node(2, Inner::Iden, "iden")]).is_none());
    // a node with an identity above one without
    let nameless = || Node { id: None, ..node(0, Inner::Witness, "witness") };
    assert!(Dag::from_nodes(vec![nameless(), node(2, Inner::InjL(0), "injl")]).is_none());
    let above = Node { id: None, ..node(0, Inner::InjL(0), "injl") };
    let p = Dag::from_nodes(vec![nameless(), above]).expect("a program");
    assert_eq!(p.len(), 2);
    assert_eq!(p.root(), 1);
    assert!(p.get(2).is_none());
    assert_eq!(p.get(1).expect("a node").label, "injl");
}

#[test]
fn nodes_without_identity_are_never_scribes_but_are_drawn() {
    let unit = Node { id: None, ..node(0, Inner::Unit, "unit") };
    let above = Node { id: None, ..node(0, Inner::InjL(0), "injl") };
    let p = program(vec![unit, above]);
    assert!(scribe_values(&p).is_empty());
    let (top, hidden) = scribe_values_hidden(&p);
    assert!(top.is_empty() && hidden.is_empty());
    let reached = scribe_reachable(&p, &top);
    assert!(reached.is_empty());
    assert_eq!(render(&p, &top, &reached).nodes.len(), 2);
}

#[test]
fn words_are_scribes() {
    let word = Value::from_bytes_len(&[0xca, 0xfe], 16).expect("bits");
    let p = program(vec![
        node(1, Inner::Word(word.clone()), "word"),
        node(2, Inner::Unit, "unit"),
        node(3, Inner::Pair(0, 1), "pair"),
    ]);
    let all = scribe_values(&p);
    assert_eq!(all[&1], word);
    assert_eq!(all[&3], pair(word, Value::Unit));
    let dot = program_to_dot(&p);
    assert_eq!(dot, "digraph {\nranksep=3;\n2 [label=\"CAFE\\n1 \u{2192} 2^16\"]\n}\n");
}

#[test]
fn nodes_are_written_with_their_edges() {
    let entry = |left, right| RenderNode {
        index: 12,
        label: "comp".to_string(),
        annotation: "A \u{2192} C".to_string(),
        literal: false,
        left,
        right,
    };
    let mut w = String::from("x");
    fmt_node(&mut w, &entry(Some(3), Some(11)));
    assert_eq!(
        w,
        "x12 [label=\"comp\\nA \u{2192} C\"];  12 -> 3 [color=red];\n  12 -> 11 [color=blue];\n"
    );
    let mut w = String::new();
    fmt_node(&mut w, &entry(Some(3), None));
    assert_eq!(w, "12 [label=\"comp\\nA \u{2192} C\"];  12 -> 3;\n");
    let mut w = String::new();
    fmt_node(&mut w, &entry(None, None));
    assert_eq!(w, "12 [label=\"comp\\nA \u{2192} C\"];");
    let mut w = String::new();
    fmt_node(&mut w, &entry(None, Some(4)));
    assert_eq!(w, "12 [label=\"comp\\nA \u{2192} C\"];");
    let mut w = String::from("y");
    fmt_scribe(&mut w, &scribe_node(&bit(true), 0));
    assert_eq!(w, "y0 [label=\"1\\n1 \u{2192} 2\"]\n");
}

#[test]
fn plain_nodes_carry_their_children() {
    let e = plain_node(&node(9, Inner::Disconnect(2, Some(1)), "disconnect"), 5);
    assert_eq!((e.index, e.left, e.right, e.literal), (5, Some(2), Some(1), false));
    assert_eq!((e.label.as_str(), e.annotation.as_str()), ("disconnect", "A \u{2192} B"));
    let e = plain_node(&node(9, Inner::Disconnect(2, None), "disconnect"), 5);
    assert_eq!((e.left, e.right), (Some(2), None));
    for inner in [Inner::AssertL(1), Inner::AssertR(1), Inner::Take(1), Inner::Drop(1)] {
        let e = plain_node(&node(9, inner.clone(), "x"), 5);
        assert_eq!((e.left, e.right), (Some(1), None));
        assert_eq!((inner.left_child(), inner.right_child()), (Some(1), None));
    }
    for inner in [Inner::Iden, Inner::Unit, Inner::Witness, Inner::Fail, Inner::Jet] {
        assert_eq!((inner.left_child(), inner.right_child()), (None, None));
    }
    for inner in [Inner::Comp(1, 2), Inner::Case(1, 2), Inner::Pair(1, 2)] {
        assert_eq!((inner.left_child(), inner.right_child()), (Some(1), Some(2)));
    }
}

#[test]
fn rendering_under_a_policy_that_hides_nothing_draws_every_node() {
    let p = mixed();
    let (top, _) = scribe_values_hidden(&p);
    for graph in [
        render_shared(&p, &top, NoSharing).expect("a graph"),
        render_shared(&p, &top, MaxSharing::new()).expect("a graph"),
        render_shared(&p, &top, CompressScribe::<MaxSharing>::new(HashSet::new()))
            .expect("a graph"),
    ] {
        let labels: Vec<&str> = graph.nodes.iter().map(|e| e.label.as_str()).collect();
        assert_eq!(labels, vec!["unit", "0", "witness", "pair", "drop"]);
        let indices: Vec<usize> = graph.nodes.iter().map(|e| e.index).collect();
        assert_eq!(indices, vec![0, 1, 2, 3, 4]);
        // the unit is drawn as an ordinary node, the injection above it folded
        assert!(!graph.nodes[0].literal && graph.nodes[1].literal);
        assert_eq!(
            graph.edges(),
            vec![
                Edge { parent: 3, child: 1, side: Side::Left },
                Edge { parent: 3, child: 2, side: Side::Right },
                Edge { parent: 4, child: 3, side: Side::Plain },
            ]
        );
    }
}

#[test]
fn rendering_under_a_policy_that_has_seen_a_node_shares_it() {
    // the tracker has seen the identity of the witness under the number 0
    let p = mixed();
    let mut tracker = MaxSharing::new();
    assert_eq!(tracker.record(p.node(2), 0), None);
    let graph = render_shared(&p, &HashMap::new(), tracker).expect("a graph");
    let labels: Vec<&str> = graph.nodes.iter().map(|e| e.label.as_str()).collect();
    assert_eq!(labels, vec!["unit", "injl", "pair", "drop"]);
    assert_eq!(
        graph.edges(),
        vec![
            Edge { parent: 1, child: 0, side: Side::Plain },
            Edge { parent: 2, child: 1, side: Side::Left },
            Edge { parent: 2, child: 0, side: Side::Right },
            Edge { parent: 3, child: 2, side: Side::Plain },
        ]
    );
}
