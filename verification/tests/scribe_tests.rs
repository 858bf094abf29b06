use std::collections::{HashMap, HashSet};
use std::sync::Arc;

use simplicity_inspect::compress::{scribe_values, scribe_values_hidden};
use simplicity_inspect::dag::{Dag, Inner, Node};
use simplicity_inspect::graph::{
    program_to_dot, render, scribe_reachable, Edge, RenderGraph, Side,
};
use simplicity_inspect::value::Value;

fn node(id: u64, inner: Inner, label: &str, arrow: &str) -> Node {
    Node { id: Some(id), inner, label: label.to_string(), arrow: arrow.to_string() }
}

fn program(nodes: Vec<Node>) -> Dag {
    Dag::from_nodes(nodes).expect("a well-formed program")
}

fn rendered(program: &Dag) -> RenderGraph {
    let (top, _) = scribe_values_hidden(program);
    let reached = scribe_reachable(program, &top);
    render(program, &top, &reached)
}

fn bit(b: bool) -> Value {
    if b {
        Value::SumR(Arc::new(Value::Unit))
    } else {
        Value::SumL(Arc::new(Value::Unit))
    }
}

#[test]
fn lone_unit_is_its_own_maximal_scribe() {
    let p = program(vec![node(7, Inner::Unit, "unit", "1 \u{2192} 1")]);
    let expected: HashMap<u64, Value> = [(7, Value::Unit)].into_iter().collect();
    assert_eq!(scribe_values(&p), expected);
    let (top, hidden) = scribe_values_hidden(&p);
    assert_eq!(top, expected);
    assert_eq!(hidden, HashSet::new());
    let graph = rendered(&p);
    assert_eq!(graph.nodes.len(), 1);
    assert_eq!(graph.nodes[0].label, "unit");
    assert_eq!(graph.nodes[0].annotation, "1 \u{2192} 1");
    assert!(graph.nodes[0].literal);
    assert_eq!(
        program_to_dot(&p),
        "digraph {\nranksep=3;\n0 [label=\"unit\\n1 \u{2192} 1\"]\n}\n"
    );
}

#[test]
fn pair_of_injections_folds_into_one_node() {
    let p = program(vec![
        node(10, Inner::Unit, "unit", "1 \u{2192} 1"),
        node(11, Inner::InjL(0), "injl", "1 \u{2192} 2"),
        node(12, Inner::InjR(0), "injr", "1 \u{2192} 2"),
        node(13, Inner::Pair(1, 2), "pair", "1 \u{2192} 2^2"),
    ]);
    let all = scribe_values(&p);
    assert_eq!(all.len(), 4);
    assert_eq!(all[&10], Value::Unit);
    assert_eq!(all[&11], bit(false));
    assert_eq!(all[&12], bit(true));
    let both = Value::Prod(Arc::new(bit(false)), Arc::new(bit(true)));
    assert_eq!(all[&13], both);
    let (top, hidden) = scribe_values_hidden(&p);
    let expected: HashMap<u64, Value> = [(13, both)].into_iter().collect();
    assert_eq!(top, expected);
    assert_eq!(hidden, [10, 11, 12].into_iter().collect::<HashSet<u64>>());
    let graph = rendered(&p);
    assert_eq!(graph.nodes.len(), 1);
    assert_eq!(graph.nodes[0].index, 3);
    assert_eq!(graph.nodes[0].label, "01");
    assert_eq!(graph.nodes[0].annotation, "1 \u{2192} 2^2");
    assert!(graph.edges().is_empty());
}

#[test]
fn witness_poisons_its_parent_only() {
    let p = program(vec![
        node(1, Inner::Witness, "witness", "1 \u{2192} 2"),
        node(2, Inner::Unit, "unit", "1 \u{2192} 1"),
        node(3, Inner::Pair(0, 1), "pair", "1 \u{2192} 2"),
    ]);
    let all = scribe_values(&p);
    let expected: HashMap<u64, Value> = [(2, Value::Unit)].into_iter().collect();
    assert_eq!(all, expected);
    let (top, hidden) = scribe_values_hidden(&p);
    assert_eq!(top, expected);
    assert!(hidden.is_empty());
    let graph = rendered(&p);
    assert_eq!(graph.nodes.len(), 3);
    assert_eq!(graph.nodes[0].label, "witness");
    assert!(!graph.nodes[0].literal);
    assert_eq!(graph.nodes[1].label, "unit");
    assert!(graph.nodes[1].literal);
    assert_eq!(graph.nodes[2].label, "pair");
    assert_eq!(
        graph.edges(),
        vec![
            Edge { parent: 2, child: 0, side: Side::Left },
            Edge { parent: 2, child: 1, side: Side::Right },
        ]
    );
    assert_eq!(
        program_to_dot(&p),
        "digraph {\nranksep=3;\n0 [label=\"witness\\n1 \u{2192} 2\"];1 [label=\"unit\\n1 \u{2192} 1\"]\n2 [label=\"pair\\n1 \u{2192} 2\"];  2 -> 0 [color=red];\n  2 -> 1 [color=blue];\n}\n"
    );
}

#[test]
fn shared_unit_is_drawn_once_with_two_edges() {
    let p = program(vec![
        node(1, Inner::Unit, "unit", "1 \u{2192} 1"),
        node(2, Inner::Take(0), "take", "1 \u{00d7} 1 \u{2192} 1"),
        node(3, Inner::Drop(0), "drop", "1 \u{00d7} 1 \u{2192} 1"),
        node(4, Inner::Case(1, 2), "case", "2 \u{00d7} 1 \u{2192} 1"),
    ]);
    let graph = rendered(&p);
    assert_eq!(graph.nodes.len(), 4);
    let units = graph.nodes.iter().filter(|e| e.label == "unit").count();
    assert_eq!(units, 1);
    let edges = graph.edges();
    assert_eq!(edges.iter().filter(|e| e.child == 0).count(), 2);
    assert_eq!(
        edges,
        vec![
            Edge { parent: 1, child: 0, side: Side::Plain },
            Edge { parent: 2, child: 0, side: Side::Plain },
            Edge { parent: 3, child: 1, side: Side::Left },
            Edge { parent: 3, child: 2, side: Side::Right },
        ]
    );
}
