use simplicity_inspect::hex::{number_to_hex, to_hex};
use simplicity_inspect::tx::{
    is_key_spend, ConfidentialAsset, ConfidentialValue, OutPoint, Script, ScriptSpendWitness,
    Transaction, TxIn, TxInWitness, TxOut,
};
use simplicity_inspect::util::{AddressParams, GetInfo, Network};

/// The x coordinate of the generator of secp256k1.
fn generator_x() -> Vec<u8> {
    vec![
        0x79, 0xbe, 0x66, 0x7e, 0xf9, 0xdc, 0xbb, 0xac, 0x55, 0xa0, 0x62, 0x95, 0xce, 0x87, 0x0b,
        0x07, 0x02, 0x9b, 0xfc, 0xdb, 0x2d, 0xce, 0x28, 0xd9, 0x59, 0xf2, 0x81, 0x5b, 0x16, 0xf8,
        0x17, 0x98,
    ]
}

fn control_block(first: u8, hashes: usize) -> Vec<u8> {
    let mut bytes = vec![first];
    bytes.extend(generator_x());
    for k in 0..hashes {
        bytes.extend(vec![k as u8 + 1; 32]);
    }
    bytes
}

#[test]
fn key_spend_needs_marker_and_key() {
    assert!(is_key_spend(&[vec![1u8], vec![0u8; 32]]));
    assert!(!is_key_spend(&[vec![2u8], vec![0u8; 32]]));
    assert!(!is_key_spend(&[vec![1u8], vec![0u8; 31]]));
    assert!(!is_key_spend(&[vec![1u8, 1u8], vec![0u8; 32]]));
    assert!(!is_key_spend(&[vec![1u8]]));
    assert!(!is_key_spend(&[vec![1u8], vec![0u8; 32], vec![]]));
    assert!(!is_key_spend(&[]));
}

#[test]
fn hex_is_lower_case_high_nibble_first() {
    assert_eq!(to_hex(&[0x00, 0x1f, 0xab, 0xff]), "001fabff");
    assert_eq!(to_hex(&[]), "");
}

#[test]
fn hex_number_has_no_leading_zero() {
    assert_eq!(number_to_hex(0xbe), "be");
    assert_eq!(number_to_hex(0x0a), "a");
    assert_eq!(number_to_hex(0), "0");
    assert_eq!(number_to_hex(0x10), "10");
}

#[test]
fn script_spend_takes_the_stack_apart() {
    let stack = vec![vec![0xaa], vec![0xbb, 0xcc], vec![0x51], control_block(0xc1, 2)];
    let witness = ScriptSpendWitness::new(&stack).expect("a script spend");
    assert_eq!(witness.script_inputs, &stack[0..2]);
    assert_eq!(witness.script, &[0x51]);
    assert_eq!(witness.control_block.leaf_version, 0xc0);
    assert_eq!(witness.control_block.internal_key, generator_x());
    assert_eq!(witness.control_block.merkle_branch, vec![vec![1u8; 32], vec![2u8; 32]]);
    assert!(!witness.is_simplicity_spend());
    assert_eq!(witness.get_simplicity_spend_info(), None);
    let info = witness.get_info(Network::Liquid);
    assert_eq!(
        info.internal_key,
        "79be667ef9dcbbac55a06295ce870b07029bfcdb2dce28d959f2815b16f81798"
    );
    assert_eq!(info.merkle_path, vec!["01".repeat(32), "02".repeat(32)]);
    assert_eq!(info.leaf_version, "c0");
    assert_eq!(info.script_inputs, vec!["aa".to_string(), "bbcc".to_string()]);
    assert_eq!(info.script, "51");
    assert_eq!(info.simplicity, None);
}

#[test]
fn script_spend_refuses_what_is_no_control_block() {
    // too short a stack
    assert!(ScriptSpendWitness::new(&[control_block(0xc0, 0)]).is_none());
    assert!(ScriptSpendWitness::new(&[]).is_none());
    // a control block of a wrong length
    let mut long = control_block(0xc0, 1);
    long.push(0);
    assert!(ScriptSpendWitness::new(&[vec![], long]).is_none());
    assert!(ScriptSpendWitness::new(&[vec![], vec![0xc0; 32]]).is_none());
    // the tag of the annex is no leaf version
    assert!(ScriptSpendWitness::new(&[vec![], control_block(0x50, 0)]).is_none());
    assert!(ScriptSpendWitness::new(&[vec![], control_block(0x51, 0)]).is_none());
    // too long a path
    assert!(ScriptSpendWitness::new(&[vec![], control_block(0xc0, 129)]).is_none());
    assert!(ScriptSpendWitness::new(&[vec![], control_block(0xc0, 128)]).is_some());
    // no point of the curve
    let mut off = vec![0xc0];
    off.extend(vec![0xff; 32]);
    assert!(ScriptSpendWitness::new(&[vec![], off]).is_none());
}

#[test]
fn simplicity_spend_shows_program_and_root() {
    let stack = vec![vec![0xc1, 0x00, 0x00, 0x01, 0x00], vec![0x12; 32], control_block(0xbe, 0)];
    let witness = ScriptSpendWitness::new(&stack).expect("a script spend");
    assert!(witness.is_simplicity_spend());
    let info = witness.get_simplicity_spend_info().expect("a Simplicity spend");
    assert_eq!(info.program, "wQAAAQA=");
    assert_eq!(info.cmr, "12".repeat(32));
    let spend = witness.get_info(Network::ElementsRegtest);
    assert_eq!(spend.leaf_version, "be");
    assert_eq!(spend.simplicity, Some(info));
    // two inputs make no Simplicity spend
    let stack = vec![vec![1], vec![2], vec![0x12; 32], control_block(0xbe, 0)];
    let witness = ScriptSpendWitness::new(&stack).expect("a script spend");
    assert!(!witness.is_simplicity_spend());
    assert_eq!(witness.get_simplicity_spend_info(), None);
}

#[test]
fn witness_info_shows_stack_and_spends() {
    let key_spend = TxInWitness { script_witness: vec![vec![1u8], vec![7u8; 32]] };
    let info = key_spend.get_info(Network::Liquid);
    assert_eq!(info.stack, vec!["01".to_string(), "07".repeat(32)]);
    assert!(info.is_key_spend);
    assert_eq!(info.script_spend, None);
    let script_spend =
        TxInWitness { script_witness: vec![vec![0xc1], vec![0x12; 32], control_block(0xbe, 0)] };
    let info = script_spend.get_info(Network::Liquid);
    assert!(!info.is_key_spend);
    let spend = info.script_spend.expect("a script spend");
    assert_eq!(spend.script_inputs, vec!["c1".to_string()]);
    assert_eq!(spend.simplicity.expect("a Simplicity spend").program, "wQ==");
}

fn p2pkh() -> Script {
    let mut bytes = vec![0x76, 0xa9, 0x14];
    bytes.extend(vec![0x11; 20]);
    bytes.extend(vec![0x88, 0xac]);
    Script { bytes }
}

#[test]
fn scripts_are_named_by_their_shape() {
    let kind = |bytes: Vec<u8>| Script { bytes }.get_info(Network::Liquid).type_;
    let mut p2pk = vec![0x21];
    p2pk.extend(vec![2; 33]);
    p2pk.push(0xac);
    assert_eq!(kind(p2pk), "p2pk");
    let mut long_p2pk = vec![0x41];
    long_p2pk.extend(vec![4; 65]);
    long_p2pk.push(0xac);
    assert_eq!(kind(long_p2pk), "p2pk");
    assert_eq!(p2pkh().get_info(Network::Liquid).type_, "p2pkh");
    assert_eq!(kind(vec![0x6a, 0x01, 0x02]), "opreturn");
    let mut p2sh = vec![0xa9, 0x14];
    p2sh.extend(vec![3; 20]);
    p2sh.push(0x87);
    assert_eq!(kind(p2sh), "p2sh");
    let mut p2wpkh = vec![0x00, 0x14];
    p2wpkh.extend(vec![5; 20]);
    assert_eq!(kind(p2wpkh), "p2wpkh");
    let mut p2wsh = vec![0x00, 0x20];
    p2wsh.extend(vec![6; 32]);
    assert_eq!(kind(p2wsh), "p2wsh");
    let mut p2tr = vec![0x51, 0x20];
    p2tr.extend(generator_x());
    assert_eq!(kind(p2tr), "p2tr");
    assert_eq!(kind(vec![]), "unknown");
    assert_eq!(kind(vec![0x51]), "unknown");
}

#[test]
fn script_info_shows_hex_assembly_and_address() {
    let info = p2pkh().get_info(Network::Liquid);
    assert_eq!(info.hex, format!("76a914{}88ac", "11".repeat(20)));
    assert_eq!(
        info.assembly,
        format!("OP_DUP OP_HASH160 OP_PUSHBYTES_20 {} OP_EQUALVERIFY OP_CHECKSIG", "11".repeat(20))
    );
    let liquid = info.address.expect("an address");
    let regtest = p2pkh().get_info(Network::ElementsRegtest).address.expect("an address");
    assert_ne!(liquid, regtest);
    assert_ne!(liquid, info.hex);
    let data = Script { bytes: vec![0x6a, 0x01, 0x02] }.get_info(Network::Liquid);
    assert_eq!(data.address, None);
    assert_eq!(data.assembly, "OP_RETURN OP_PUSHBYTES_1 02");
}

#[test]
fn outputs_show_what_is_in_the_open() {
    let fee = TxOut {
        asset: ConfidentialAsset::Explicit("6f02".to_string()),
        value: ConfidentialValue::Explicit(250),
        script_pubkey: Script { bytes: vec![] },
    };
    assert!(fee.is_fee());
    let info = fee.get_info(Network::Liquid);
    assert_eq!(info.value, Some(250));
    assert_eq!(info.asset, Some("6f02".to_string()));
    assert!(info.is_fee);
    assert_eq!(info.script_pub_key.type_, "unknown");
    let hidden = TxOut {
        asset: ConfidentialAsset::Confidential,
        value: ConfidentialValue::Confidential,
        script_pubkey: Script { bytes: vec![] },
    };
    assert!(!hidden.is_fee());
    let info = hidden.get_info(Network::Liquid);
    assert_eq!(info.value, None);
    assert_eq!(info.asset, None);
    assert!(!info.is_fee);
    let paid = TxOut {
        asset: ConfidentialAsset::Explicit("6f02".to_string()),
        value: ConfidentialValue::Explicit(1),
        script_pubkey: p2pkh(),
    };
    assert!(!paid.is_fee());
    let nothing = TxOut {
        asset: ConfidentialAsset::Null,
        value: ConfidentialValue::Null,
        script_pubkey: Script { bytes: vec![] },
    };
    assert!(!nothing.is_fee());
}

#[test]
fn transaction_info_rounds_the_virtual_size_up() {
    let tx = |weight: usize| Transaction {
        txid: "aa".to_string(),
        wtxid: "bb".to_string(),
        size: 10,
        weight,
        version: 2,
        lock_time: 5,
        input: vec![TxIn {
            previous_output: OutPoint { txid: "cc".to_string(), vout: 3 },
            sequence: 0xffff_fffe,
            witness: TxInWitness { script_witness: vec![] },
        }],
        output: vec![],
    };
    let info = tx(401).get_info(Network::ElementsRegtest);
    assert_eq!(info.txid, "aa");
    assert_eq!(info.wtxid, "bb");
    assert_eq!(info.hash, "bb");
    assert_eq!(info.size, 10);
    assert_eq!(info.weight, 401);
    assert_eq!(info.vsize, 101);
    assert_eq!(info.version, 2);
    assert_eq!(info.locktime, 5);
    assert_eq!(info.inputs.len(), 1);
    assert_eq!(info.inputs[0].prevout.txid, "cc");
    assert_eq!(info.inputs[0].prevout.vout, 3);
    assert_eq!(info.inputs[0].sequence, 0xffff_fffe);
    assert!(info.inputs[0].witness.stack.is_empty());
    assert!(info.outputs.is_empty());
    assert_eq!(tx(400).get_info(Network::Liquid).vsize, 100);
    assert_eq!(tx(0).get_info(Network::Liquid).vsize, 0);
    assert_eq!(tx(usize::MAX).get_info(Network::Liquid).vsize, usize::MAX / 4 + 1);
}

#[test]
fn networks_are_known_by_their_parameters() {
    let elements = Network::ElementsRegtest.address_params();
    assert_eq!(elements, AddressParams { p2pkh_prefix: 235, p2sh_prefix: 75, blinded_prefix: 4 });
    let liquid = Network::Liquid.address_params();
    assert_eq!(liquid, AddressParams { p2pkh_prefix: 57, p2sh_prefix: 39, blinded_prefix: 12 });
    assert_eq!(Network::from_params(&elements), Some(Network::ElementsRegtest));
    assert_eq!(Network::from_params(&liquid), Some(Network::Liquid));
    let testnet = AddressParams { p2pkh_prefix: 36, p2sh_prefix: 19, blinded_prefix: 23 };
    assert_eq!(Network::from_params(&testnet), None);
}
