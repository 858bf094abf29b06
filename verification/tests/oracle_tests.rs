use std::sync::Arc;

use simplicity::dag::{DagLike, MaxSharing};
use simplicity::jet::Core;
use simplicity::node::{CoreConstructible, Redeem, SimpleFinalizer};
use simplicity::{BitMachine, ConstructNode, RedeemNode};

use simplicity_inspect::compress::{scribe_values, scribe_values_hidden};
use simplicity_inspect::decode::decode_program;
use simplicity_inspect::encode::encode_base64;
use simplicity_inspect::graph::{render, scribe_reachable};

type Expr = Arc<ConstructNode<Core>>;

fn finalize(root: &Expr) -> Arc<RedeemNode<Core>> {
    let commit = root.finalize_types().expect("types");
    commit.finalize(&mut SimpleFinalizer::new(std::iter::empty())).expect("no witness")
}

/// comp (pair (pair (injl unit) (injr unit)) (injr unit)) unit
fn three_bits() -> Arc<RedeemNode<Core>> {
    let unit = Expr::unit();
    let zero = Expr::injl(&unit);
    let one = Expr::injr(&unit);
    let two = Expr::pair(&zero, &one).expect("pair");
    let three = Expr::pair(&two, &one).expect("pair");
    let end = Expr::unit();
    finalize(&Expr::comp(&three, &end).expect("comp"))
}

#[test]
fn maximal_scribes_evaluate_to_their_values() {
    let redeem = three_bits();
    let program = decode_program(&encode_base64(&redeem.encode_to_vec())).expect("a program");
    let (top, hidden) = scribe_values_hidden(&program);
    assert!(!top.is_empty());
    let mut checked = 0;
    for item in redeem.as_ref().post_order_iter::<MaxSharing<Redeem<Core>>>() {
        let id = item.index as u64;
        assert_eq!(program.node(item.index).label, item.node.inner().to_string());
        if let Some(value) = top.get(&id) {
            let mut machine = BitMachine::for_program(item.node);
            let output = machine.exec(item.node, &()).expect("a value");
            assert_eq!(output.to_bytes_len(), value.to_bytes_len());
            assert!(!hidden.contains(&id));
            checked += 1;
        }
    }
    assert_eq!(checked, top.len());
}

#[test]
fn every_scribe_evaluates_to_its_value() {
    let redeem = three_bits();
    let program = decode_program(&encode_base64(&redeem.encode_to_vec())).expect("a program");
    let all = scribe_values(&program);
    let mut widest = 0;
    for item in redeem.as_ref().post_order_iter::<MaxSharing<Redeem<Core>>>() {
        if let Some(value) = all.get(&(item.index as u64)) {
            let mut machine = BitMachine::for_program(item.node);
            let output = machine.exec(item.node, &()).expect("a value");
            assert_eq!(output.to_bytes_len(), value.to_bytes_len());
            widest = widest.max(value.to_bytes_len().1);
        }
    }
    assert_eq!(widest, 3);
}

#[test]
fn decoded_program_folds_its_constant() {
    let redeem = three_bits();
    let program = decode_program(&encode_base64(&redeem.encode_to_vec())).expect("a program");
    let (top, _) = scribe_values_hidden(&program);
    let reached = scribe_reachable(&program, &top);
    let graph = render(&program, &top, &reached);
    let labels: Vec<&str> = graph.nodes.iter().map(|e| e.label.as_str()).collect();
    assert_eq!(labels, vec!["011", "unit", "comp"]);
    assert_eq!(graph.nodes[0].annotation, "1 \u{2192} 2^3");
    assert_eq!(graph.nodes[2].annotation, program.node(program.root()).arrow);
    assert_eq!(graph.edges().len(), 2);
}
