use simplicity_inspect::dag::Inner;
use simplicity_inspect::decode::{decode_program, get_bytes, program_from_raw, shape_of, RawNode};
use simplicity_inspect::encode::{can_encode, encode_base64};
use simplicity_inspect::error::Error;
use simplicity_inspect::graph::program_to_dot;
use simplicity_inspect::value::Value;

fn raw(label: &str, left: Option<usize>, right: Option<usize>) -> RawNode {
    RawNode { left, right, label: label.to_string(), arrow: "A \u{2192} B".to_string(), word: None }
}

#[test]
fn base64_pads_the_last_group() {
    assert_eq!(encode_base64(b""), "");
    assert_eq!(encode_base64(b"f"), "Zg==");
    assert_eq!(encode_base64(b"fo"), "Zm8=");
    assert_eq!(encode_base64(b"foo"), "Zm9v");
    assert_eq!(encode_base64(b"foob"), "Zm9vYg==");
    assert_eq!(encode_base64(&[0xff, 0xef, 0xbe]), "/++-".replace('-', "+"));
    assert_eq!(encode_base64(&[0xfb, 0xff]), "+/8=");
    assert!(can_encode(b"foo"));
}

#[test]
fn base64_text_gives_its_bytes_back() {
    assert_eq!(get_bytes("Zm9vYg=="), Ok(b"foob".to_vec()));
    assert_eq!(get_bytes(""), Ok(vec![]));
    assert_eq!(get_bytes("+/8="), Ok(vec![0xfb, 0xff]));
}

#[test]
fn what_is_no_base64_is_refused() {
    for text in ["Zm9v!g==", "Zg=", "Zg", "Z", "Zm9=Yg==", "Zh==", "Zm9v\n"] {
        match get_bytes(text) {
            Err(Error::Base64(message)) => assert!(!message.is_empty()),
            other => panic!("{:?} was read as {:?}", text, other),
        }
    }
}

#[test]
fn shared_program_decodes_to_its_nodes() {
    // id1 = iden; cp2 = comp id1 id1; cp3 = comp cp2 cp2; main = comp cp3 cp2
    let program = decode_program("wQAAAQA=").expect("a program");
    assert_eq!(program.len(), 4);
    assert_eq!(program.root(), 3);
    let labels: Vec<&str> = (0..4).map(|i| program.node(i).label.as_str()).collect();
    assert_eq!(labels, vec!["iden", "comp", "comp", "comp"]);
    assert!(matches!(program.node(0).inner, Inner::Iden));
    assert!(matches!(program.node(1).inner, Inner::Comp(0, 0)));
    assert!(matches!(program.node(2).inner, Inner::Comp(1, 1)));
    assert!(matches!(program.node(3).inner, Inner::Comp(2, 1)));
    for i in 0..4 {
        assert_eq!(program.node(i).id, Some(i as u64));
        assert!(program.node(i).arrow.contains('\u{2192}'));
    }
    let dot = program_to_dot(&program);
    assert!(dot.starts_with("digraph {\nranksep=3;\n0 [label=\"iden\\n"));
    assert!(dot.ends_with("  3 -> 2 [color=red];\n  3 -> 1 [color=blue];\n}\n"));
}

#[test]
fn disconnect_decodes_with_both_children() {
    // id1 = iden; pr2 = pair id1 id1; disc3 = disconnect pr2 pr2; ut4 = unit; main = comp disc3 ut4
    let program = decode_program("xQIGJBA=").expect("a program");
    assert_eq!(program.len(), 5);
    assert!(matches!(program.node(1).inner, Inner::Pair(0, 0)));
    assert!(matches!(program.node(2).inner, Inner::Disconnect(1, Some(1))));
    assert!(matches!(program.node(3).inner, Inner::Unit));
    assert!(matches!(program.node(4).inner, Inner::Comp(2, 3)));
}

#[test]
fn what_is_no_program_is_refused() {
    assert!(matches!(decode_program("not base64"), Err(Error::Base64(_))));
    // sharing is not maximal: wQgEAAB0dHQ= is c1 08 04 00 00 74 74 74
    match decode_program("wQgEAAB0dHQ=") {
        Err(Error::Simplicity(message)) => assert!(!message.is_empty()),
        other => panic!("read as {:?}", other.map(|p| p.len())),
    }
    assert!(matches!(decode_program(""), Err(Error::Simplicity(_))));
}

#[test]
fn raw_nodes_get_the_shape_of_their_name() {
    assert!(matches!(shape_of(&raw("iden", None, None)), Some(Inner::Iden)));
    assert!(matches!(shape_of(&raw("unit", None, None)), Some(Inner::Unit)));
    assert!(matches!(shape_of(&raw("witness", None, None)), Some(Inner::Witness)));
    assert!(matches!(shape_of(&raw("fail", None, None)), Some(Inner::Fail)));
    assert!(matches!(shape_of(&raw("jet(add_32)", None, None)), Some(Inner::Jet)));
    assert!(matches!(shape_of(&raw("injl", Some(4), None)), Some(Inner::InjL(4))));
    assert!(matches!(shape_of(&raw("injr", Some(4), None)), Some(Inner::InjR(4))));
    assert!(matches!(shape_of(&raw("take", Some(4), None)), Some(Inner::Take(4))));
    assert!(matches!(shape_of(&raw("drop", Some(4), None)), Some(Inner::Drop(4))));
    assert!(matches!(shape_of(&raw("assertl", Some(4), None)), Some(Inner::AssertL(4))));
    assert!(matches!(shape_of(&raw("assertr", Some(4), None)), Some(Inner::AssertR(4))));
    assert!(matches!(
        shape_of(&raw("disconnect", Some(4), None)),
        Some(Inner::Disconnect(4, None))
    ));
    assert!(matches!(shape_of(&raw("comp", Some(4), Some(2))), Some(Inner::Comp(4, 2))));
    assert!(matches!(shape_of(&raw("case", Some(4), Some(2))), Some(Inner::Case(4, 2))));
    assert!(matches!(shape_of(&raw("pair", Some(4), Some(2))), Some(Inner::Pair(4, 2))));
    assert!(matches!(
        shape_of(&raw("disconnect", Some(4), Some(2))),
        Some(Inner::Disconnect(4, Some(2)))
    ));
    // names and children that do not fit
    assert!(shape_of(&raw("pair", Some(4), None)).is_none());
    assert!(shape_of(&raw("injl", Some(4), Some(2))).is_none());
    assert!(shape_of(&raw("jet(add_32)", Some(4), None)).is_none());
    assert!(shape_of(&raw("comp", None, Some(2))).is_none());
}

#[test]
fn raw_word_carries_its_bits() {
    let mut word = raw("word(10100000)", None, None);
    word.word = Some((vec![0xa0], 3));
    match shape_of(&word) {
        Some(Inner::Word(value)) => {
            assert_eq!(value.to_bits(), vec![true, false, true]);
            assert_eq!(value.to_bytes_len(), (vec![0xa0], 3));
        }
        other => panic!("read as {:?}", other),
    }
    word.word = Some((vec![0xa0], 9));
    assert!(shape_of(&word).is_none());
    word.word = Some((vec![0xa0], 8));
    word.left = Some(0);
    assert!(shape_of(&word).is_none());
}

#[test]
fn raw_nodes_make_a_program_only_in_order() {
    let good = vec![raw("unit", None, None), raw("injl", Some(0), None)];
    let program = program_from_raw(&good).expect("a program");
    assert_eq!(program.len(), 2);
    assert_eq!(program.node(1).id, Some(1));
    assert_eq!(program.node(1).arrow, "A \u{2192} B");
    assert!(matches!(program.node(0).inner, Inner::Unit));
    // a child that comes after its parent
    assert!(program_from_raw(&vec![raw("injl", Some(1), None), raw("unit", None, None)]).is_none());
    // a node that nothing leads to
    assert!(program_from_raw(&vec![raw("unit", None, None), raw("unit", None, None)]).is_none());
    // a name that does not fit the children
    assert!(program_from_raw(&vec![raw("unit", None, None), raw("pair", Some(0), None)]).is_none());
    // no node at all
    assert!(program_from_raw(&vec![]).is_none());
}

#[test]
fn word_value_is_rendered_by_its_bits() {
    let value = Value::from_bytes_len(&[0xde, 0xad], 16).expect("bits");
    assert_eq!(value.to_bytes_len(), (vec![0xde, 0xad], 16));
    assert!(Value::from_bytes_len(&[0xde, 0xad], 17).is_none());
    assert_eq!(Value::from_bytes_len(&[], 0).expect("bits").to_bits(), Vec::<bool>::new());
}
