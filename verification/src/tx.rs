//! Descriptions of Elements transactions.

use vstd::prelude::*;
use vstd::slice::slice_subrange;
use crate::encode::{base64_text, can_encode, encodable, encode_base64};
use crate::hex::{all_to_hex, hex_number, hex_string, number_to_hex, to_hex};
use crate::util::{GetInfo, Network};

verus! {

/// Whether a witness stack has the shape of a taproot key spend.
pub open spec fn key_spend_shape(script_witness: Seq<Vec<u8>>) -> bool {
    &&& script_witness.len() == 2
    &&& script_witness[0]@ == seq![1u8]
    &&& script_witness[1]@.len() == 32
}

/// Tells whether a witness stack is a taproot key spend: two elements, the
/// first the single byte 1, the second 32 bytes long.
pub fn is_key_spend(script_witness: &[Vec<u8>]) -> (b: bool)
    ensures
        b == key_spend_shape(script_witness@),
{
    if script_witness.len() != 2 {
        return false;
    }
    let first = &script_witness[0];
    let second = &script_witness[1];
    if first.len() == 1 && first[0] == 1 && second.len() == 32 {
        assert(first@ =~= seq![1u8]);
        true
    } else {
        false
    }
}

/// The control block of a taproot script spend: the last element of the
/// witness stack, taken apart.
#[derive(Clone, Debug, PartialEq, Eq)]
pub struct ControlBlock {
    /// The version of the leaf.
    pub leaf_version: u8,
    /// The internal key, 32 bytes.
    pub internal_key: Vec<u8>,
    /// The hashes on the path from the leaf to the root, 32 bytes each.
    pub merkle_branch: Vec<Vec<u8>>,
}

/// Whether 32 bytes are the x coordinate of a point of the curve secp256k1.
pub uninterp spec fn is_x_only_key(key: Seq<u8>) -> bool;

/// The leaf version that the first byte of a control block holds: the byte
/// without its lowest bit.
pub open spec fn leaf_version_of(first: u8) -> u8 {
    (first - first % 2) as u8
}

/// Whether bytes have the length of a control block, 33 bytes and up to 128
/// times 32 more, and hold a leaf version other than the tag of the annex.
pub open spec fn control_block_shape(bytes: Seq<u8>) -> bool {
    &&& bytes.len() >= 33
    &&& (bytes.len() - 33) % 32 == 0
    &&& (bytes.len() - 33) / 32 <= 128
    &&& leaf_version_of(bytes[0]) != 0x50
}

/// Whether a control block is what the bytes hold.
pub open spec fn is_control_block_of(block: ControlBlock, bytes: Seq<u8>) -> bool {
    &&& block.leaf_version == leaf_version_of(bytes[0])
    &&& block.internal_key@ == bytes.subrange(1, 33)
    &&& block.merkle_branch@.len() == (bytes.len() - 33) / 32
    &&& forall|k: int|
        0 <= k < block.merkle_branch@.len() ==> (#[trigger] block.merkle_branch@[k])@
            == bytes.subrange(33 + 32 * k, 65 + 32 * k)
}

/// Trusted: stands for `ControlBlock::from_slice` of `elements::taproot`,
/// with the fields of its result as bytes. It takes bytes of the length of a
/// control block whose leaf version is not the tag of the annex and whose
/// bytes 1 to 32 are an x-only public key, as `XOnlyPublicKey::from_slice`
/// of `secp256k1` decides; the leaf version is the first byte without its
/// lowest bit, the key is given back as it was read, and the rest is cut
/// into hashes of 32 bytes.
#[verifier::external_body]
fn parse_control_block(bytes: &[u8]) -> (block: Option<ControlBlock>)
    ensures
        block.is_some() == (control_block_shape(bytes@) && is_x_only_key(bytes@.subrange(1, 33))),
        block matches Some(b) ==> is_control_block_of(b, bytes@),
{
    elements::taproot::ControlBlock::from_slice(bytes).ok().map(
        |cb|
            ControlBlock {
                leaf_version: cb.leaf_version.as_u8(),
                internal_key: cb.internal_key.serialize().to_vec(),
                merkle_branch: cb.merkle_branch.as_inner().iter().map(
                    |h| AsRef::<[u8]>::as_ref(h).to_vec(),
                ).collect(),
            },
    )
}

/// A Simplicity program found in a script spend.
#[derive(Clone, Debug, PartialEq, Eq)]
pub struct SimplicitySpendInfo {
    pub program: String,
    pub cmr: String,
}

/// A taproot script spend.
#[derive(Clone, Debug, PartialEq, Eq)]
pub struct ScriptSpendInfo {
    pub internal_key: String,
    pub merkle_path: Vec<String>,
    pub leaf_version: String,
    pub script_inputs: Vec<String>,
    pub script: String,
    pub simplicity: Option<SimplicitySpendInfo>,
}

/// A witness stack read as a taproot script spend: the inputs of the script,
/// the script, and the control block.
pub struct ScriptSpendWitness<'a> {
    pub script_inputs: &'a [Vec<u8>],
    pub script: &'a [u8],
    pub control_block: ControlBlock,
}

/// Whether a witness stack reads as a script spend: whether it has two
/// elements or more, the last of which is a control block.
pub open spec fn is_script_spend(script_witness: Seq<Vec<u8>>) -> bool {
    &&& script_witness.len() >= 2
    &&& control_block_shape(script_witness.last()@)
    &&& is_x_only_key(script_witness.last()@.subrange(1, 33))
}

/// Whether a script spend is Simplicity program and witness: whether the
/// leaf version is `0xbe` and the script has one input.
pub open spec fn simplicity_spend_shape(leaf_version: u8, script_inputs: Seq<Vec<u8>>) -> bool {
    leaf_version == 0xbe && script_inputs.len() == 1
}

impl<'a> ScriptSpendWitness<'a> {
    /// Reads a witness stack as a script spend: the last element is the
    /// control block, the one before it the script, the rest its inputs.
    pub fn new(script_witness: &'a [Vec<u8>]) -> (witness: Option<Self>)
        ensures
            witness is Some <==> is_script_spend(script_witness@),
            witness matches Some(w) ==> {
                &&& w.script_inputs@ == script_witness@.subrange(0, script_witness@.len() - 2)
                &&& w.script@ == script_witness@[script_witness@.len() - 2]@
                &&& is_control_block_of(w.control_block, script_witness@.last()@)
            },
    {
        if script_witness.len() < 2 {
            return None;
        }
        let n = script_witness.len();
        let control_block = match parse_control_block(script_witness[n - 1].as_slice()) {
            Some(control_block) => control_block,
            None => {
                return None;
            },
        };
        let script_bytes = script_witness[n - 2].as_slice();
        let script_input_bytes = slice_subrange(script_witness, 0, n - 2);
        Some(Self { script_inputs: script_input_bytes, script: script_bytes, control_block })
    }

    /// Tells whether the spend is one of a Simplicity program.
    pub fn is_simplicity_spend(&self) -> (b: bool)
        ensures
            b == simplicity_spend_shape(self.control_block.leaf_version, self.script_inputs@),
    {
        self.control_block.leaf_version == 0xbe && self.script_inputs.len() == 1
    }

    /// Whether a description is that of the Simplicity program of the
    /// spend: the program and its witness in base64, and the script, which
    /// is the commitment Merkle root, in hexadecimal. There is none where
    /// the spend is no Simplicity spend, or the program is too long for its
    /// base64 text to fit the machine.
    pub open spec fn simplicity_described_by(&self, info: &Option<SimplicitySpendInfo>) -> bool {
        if simplicity_spend_shape(self.control_block.leaf_version, self.script_inputs@)
            && encodable(self.script_inputs@[0]@.len()) {
            &&& *info matches Some(i)
            &&& i.program@ == base64_text(self.script_inputs@[0]@)
            &&& i.cmr@ == hex_string(self.script@)
        } else {
            *info is None
        }
    }

    /// The Simplicity program of the spend, if it is one.
    pub fn get_simplicity_spend_info(&self) -> (info: Option<SimplicitySpendInfo>)
        ensures
            self.simplicity_described_by(&info),
    {
        if !self.is_simplicity_spend() {
            return None;
        }
        let program_and_witness_bytes = self.script_inputs[0].as_slice();
        let cmr_bytes = self.script;
        if !can_encode(program_and_witness_bytes) {
            return None;
        }
        let base64 = encode_base64(program_and_witness_bytes);
        let cmr = to_hex(cmr_bytes);
        Some(SimplicitySpendInfo { program: base64, cmr })
    }
}

/// Whether texts are the hexadecimal texts of byte strings, one for one.
pub open spec fn are_hex_of(texts: Seq<String>, items: Seq<Vec<u8>>) -> bool {
    &&& texts.len() == items.len()
    &&& forall|k: int| 0 <= k < items.len() ==> (#[trigger] texts[k])@ == hex_string(items[k]@)
}

impl<'a> GetInfo<ScriptSpendInfo> for ScriptSpendWitness<'a> {
    open spec fn described_by(&self, network: Network, info: &ScriptSpendInfo) -> bool {
        &&& info.internal_key@ == hex_string(self.control_block.internal_key@)
        &&& are_hex_of(info.merkle_path@, self.control_block.merkle_branch@)
        &&& info.leaf_version@ == hex_number(self.control_block.leaf_version)
        &&& are_hex_of(info.script_inputs@, self.script_inputs@)
        &&& info.script@ == hex_string(self.script@)
        &&& self.simplicity_described_by(&info.simplicity)
    }

    fn get_info(&self, _network: Network) -> (info: ScriptSpendInfo) {
        let merkle_path = all_to_hex(self.control_block.merkle_branch.as_slice());
        ScriptSpendInfo {
            internal_key: to_hex(self.control_block.internal_key.as_slice()),
            merkle_path,
            leaf_version: number_to_hex(self.control_block.leaf_version),
            script_inputs: all_to_hex(self.script_inputs),
            script: to_hex(self.script),
            simplicity: self.get_simplicity_spend_info(),
        }
    }
}

/// The witness of a transaction input.
#[derive(Clone, Debug, PartialEq, Eq)]
pub struct InputWitnessInfo {
    pub stack: Vec<String>,
    pub is_key_spend: bool,
    pub script_spend: Option<ScriptSpendInfo>,
}

/// The witness of a transaction input, as far as it is described: the
/// witness stack of the script.
#[derive(Clone, Debug, PartialEq, Eq)]
pub struct TxInWitness {
    pub script_witness: Vec<Vec<u8>>,
}

/// The script spend that a witness stack reads as, taken apart.
pub open spec fn script_spend_of(script_witness: Seq<Vec<u8>>, w: ScriptSpendWitness) -> bool {
    &&& w.script_inputs@ == script_witness.subrange(0, script_witness.len() - 2)
    &&& w.script@ == script_witness[script_witness.len() - 2]@
    &&& is_control_block_of(w.control_block, script_witness.last()@)
}

impl GetInfo<InputWitnessInfo> for TxInWitness {
    open spec fn described_by(&self, network: Network, info: &InputWitnessInfo) -> bool {
        &&& are_hex_of(info.stack@, self.script_witness@)
        &&& info.is_key_spend == key_spend_shape(self.script_witness@)
        &&& info.script_spend is Some <==> is_script_spend(self.script_witness@)
        &&& info.script_spend matches Some(spend) ==> exists|w: ScriptSpendWitness|
            script_spend_of(self.script_witness@, w) && #[trigger] w.described_by(network, &spend)
    }

    fn get_info(&self, _network: Network) -> (info: InputWitnessInfo) {
        let stack = all_to_hex(self.script_witness.as_slice());
        let script_spend = match ScriptSpendWitness::new(self.script_witness.as_slice()) {
            Some(x) => {
                let spend = x.get_info(_network);
                assert(script_spend_of(self.script_witness@, x) && x.described_by(
                    _network,
                    &spend,
                ));
                Some(spend)
            },
            None => None,
        };
        InputWitnessInfo {
            stack,
            is_key_spend: is_key_spend(self.script_witness.as_slice()),
            script_spend,
        }
    }
}

/// A reference to an output of a transaction.
#[derive(Clone, Debug, PartialEq, Eq)]
pub struct OutpointInfo {
    pub txid: String,
    pub vout: u32,
}

/// A reference to an output of a transaction: the identifier of the
/// transaction, as text, and the index of the output.
#[derive(Clone, Debug, PartialEq, Eq)]
pub struct OutPoint {
    pub txid: String,
    pub vout: u32,
}

impl GetInfo<OutpointInfo> for OutPoint {
    open spec fn described_by(&self, network: Network, info: &OutpointInfo) -> bool {
        info.txid@ == self.txid@ && info.vout == self.vout
    }

    fn get_info(&self, _network: Network) -> (info: OutpointInfo) {
        OutpointInfo { txid: self.txid.clone(), vout: self.vout }
    }
}

/// An input of a transaction.
#[derive(Clone, Debug, PartialEq, Eq)]
pub struct InputInfo {
    pub prevout: OutpointInfo,
    pub sequence: u32,
    pub witness: InputWitnessInfo,
}

/// An input of a transaction, as far as it is described.
#[derive(Clone, Debug, PartialEq, Eq)]
pub struct TxIn {
    pub previous_output: OutPoint,
    pub sequence: u32,
    pub witness: TxInWitness,
}

impl GetInfo<InputInfo> for TxIn {
    open spec fn described_by(&self, network: Network, info: &InputInfo) -> bool {
        &&& self.previous_output.described_by(network, &info.prevout)
        &&& info.sequence == self.sequence
        &&& self.witness.described_by(network, &info.witness)
    }

    fn get_info(&self, _network: Network) -> (info: InputInfo) {
        InputInfo {
            prevout: self.previous_output.get_info(_network),
            sequence: self.sequence,
            witness: self.witness.get_info(_network),
        }
    }
}

/// An output script.
#[derive(Clone, Debug, PartialEq, Eq)]
pub struct Script {
    pub bytes: Vec<u8>,
}

/// Whether a script pays to a public key.
pub open spec fn p2pk_shape(s: Seq<u8>) -> bool {
    (s.len() == 67 && s[0] == 0x41 && s[66] == 0xac) || (s.len() == 35 && s[0] == 0x21 && s[34]
        == 0xac)
}

/// Whether a script pays to the hash of a public key.
pub open spec fn p2pkh_shape(s: Seq<u8>) -> bool {
    s.len() == 25 && s[0] == 0x76 && s[1] == 0xa9 && s[2] == 0x14 && s[23] == 0x88 && s[24]
        == 0xac
}

/// Whether a script begins with `OP_RETURN`.
pub open spec fn op_return_shape(s: Seq<u8>) -> bool {
    s.len() > 0 && s[0] == 0x6a
}

/// Whether a script pays to the hash of a script.
pub open spec fn p2sh_shape(s: Seq<u8>) -> bool {
    s.len() == 23 && s[0] == 0xa9 && s[1] == 0x14 && s[22] == 0x87
}

/// Whether a script is a witness program of version 0 for the hash of a
/// public key.
pub open spec fn v0_p2wpkh_shape(s: Seq<u8>) -> bool {
    s.len() == 22 && s[0] == 0x00 && s[1] == 0x14
}

/// Whether a script is a witness program of version 0 for the hash of a
/// script.
pub open spec fn v0_p2wsh_shape(s: Seq<u8>) -> bool {
    s.len() == 34 && s[0] == 0x00 && s[1] == 0x20
}

/// Whether a script is a taproot output.
pub open spec fn v1_p2tr_shape(s: Seq<u8>) -> bool {
    s.len() == 34 && s[0] == 0x51 && s[1] == 0x20
}

/// Whether a script is a witness program of version 1 or above.
pub open spec fn v1plus_witness_program_shape(s: Seq<u8>) -> bool {
    s.len() > 1 && s.len() == s[1] + 2 && 0x51 <= s[0] <= 0x60 && s[1] <= 0x28
}

/// The name of the kind of a script: that of the first shape that fits.
pub open spec fn script_type(s: Seq<u8>) -> Seq<char> {
    if p2pk_shape(s) {
        "p2pk"@
    } else if p2pkh_shape(s) {
        "p2pkh"@
    } else if op_return_shape(s) {
        "opreturn"@
    } else if p2sh_shape(s) {
        "p2sh"@
    } else if v0_p2wpkh_shape(s) {
        "p2wpkh"@
    } else if v0_p2wsh_shape(s) {
        "p2wsh"@
    } else if v1_p2tr_shape(s) {
        "p2tr"@
    } else {
        "unknown"@
    }
}

/// Whether a script has an address.
pub open spec fn has_address(s: Seq<u8>) -> bool {
    p2pkh_shape(s) || p2sh_shape(s) || v0_p2wpkh_shape(s) || v0_p2wsh_shape(s)
        || v1plus_witness_program_shape(s)
}

/// The assembly text of a script.
pub uninterp spec fn script_assembly(script: Seq<u8>) -> Seq<char>;

/// The text of the address of a script on a network, for a script that has
/// one.
pub uninterp spec fn address_text(script: Seq<u8>, network: Network) -> Seq<char>;

/// Trusted: stands for `Script::fmt_asm` of `elements`, which writes a
/// script as the names of its opcodes and the data that they push. Writing
/// into a string does not fail.
#[verifier::external_body]
fn script_to_assembly(script: &[u8]) -> (text: String)
    ensures
        text@ == script_assembly(script@),
{
    let mut text = String::new();
    let _ = elements::Script::from(script.to_vec()).fmt_asm(&mut text);
    text
}

/// Trusted: stands for `Address::from_script` of `elements`, without a
/// blinding key and with the address parameters of the network, and for
/// `Display` of the address. There is an address for a script that pays to
/// the hash of a key or of a script and for a witness program, and for no
/// other.
#[verifier::external_body]
fn script_address(script: &[u8], network: Network) -> (text: Option<String>)
    ensures
        text.is_some() == has_address(script@),
        text matches Some(t) ==> t@ == address_text(script@, network),
{
    let params = match network {
        Network::ElementsRegtest => &elements::AddressParams::ELEMENTS,
        Network::Liquid => &elements::AddressParams::LIQUID,
    };
    let script = elements::Script::from(script.to_vec());
    elements::Address::from_script(&script, None, params).map(|a| a.to_string())
}

impl Script {
    /// Checks whether a script pubkey is a p2pk output
    pub fn is_p2pk(&self) -> (b: bool)
        ensures
            b == p2pk_shape(self.bytes@),
    {
        let s = &self.bytes;
        (s.len() == 67 && s[0] == 0x41 && s[66] == 0xac) || (s.len() == 35 && s[0] == 0x21
            && s[34] == 0xac)
    }

    /// Checks whether a script pubkey is a p2pkh output
    pub fn is_p2pkh(&self) -> (b: bool)
        ensures
            b == p2pkh_shape(self.bytes@),
    {
        let s = &self.bytes;
        s.len() == 25 && s[0] == 0x76 && s[1] == 0xa9 && s[2] == 0x14 && s[23] == 0x88 && s[24]
            == 0xac
    }

    /// Check if this is an OP_RETURN output
    pub fn is_op_return(&self) -> (b: bool)
        ensures
            b == op_return_shape(self.bytes@),
    {
        let s = &self.bytes;
        s.len() > 0 && s[0] == 0x6a
    }

    /// Checks whether a script pubkey is a p2sh output
    pub fn is_p2sh(&self) -> (b: bool)
        ensures
            b == p2sh_shape(self.bytes@),
    {
        let s = &self.bytes;
        s.len() == 23 && s[0] == 0xa9 && s[1] == 0x14 && s[22] == 0x87
    }

    /// Checks whether a script pubkey is a p2wpkh output
    pub fn is_v0_p2wpkh(&self) -> (b: bool)
        ensures
            b == v0_p2wpkh_shape(self.bytes@),
    {
        let s = &self.bytes;
        s.len() == 22 && s[0] == 0x00 && s[1] == 0x14
    }

    /// Checks whether a script pubkey is a p2wsh output
    pub fn is_v0_p2wsh(&self) -> (b: bool)
        ensures
            b == v0_p2wsh_shape(self.bytes@),
    {
        let s = &self.bytes;
        s.len() == 34 && s[0] == 0x00 && s[1] == 0x20
    }

    /// Checks whether a script pubkey is a P2TR output.
    pub fn is_v1_p2tr(&self) -> (b: bool)
        ensures
            b == v1_p2tr_shape(self.bytes@),
    {
        let s = &self.bytes;
        s.len() == 34 && s[0] == 0x51 && s[1] == 0x20
    }
}

/// An output script.
#[derive(Clone, Debug, PartialEq, Eq)]
pub struct OutputScriptInfo {
    pub hex: String,
    pub assembly: String,
    pub type_: String,
    pub address: Option<String>,
}

impl GetInfo<OutputScriptInfo> for Script {
    open spec fn described_by(&self, network: Network, info: &OutputScriptInfo) -> bool {
        &&& info.hex@ == hex_string(self.bytes@)
        &&& info.assembly@ == script_assembly(self.bytes@)
        &&& info.type_@ == script_type(self.bytes@)
        &&& info.address is Some <==> has_address(self.bytes@)
        &&& info.address matches Some(a) ==> a@ == address_text(self.bytes@, network)
    }

    fn get_info(&self, network: Network) -> (info: OutputScriptInfo) {
        let type_ = if self.is_p2pk() {
            "p2pk"
        } else if self.is_p2pkh() {
            "p2pkh"
        } else if self.is_op_return() {
            "opreturn"
        } else if self.is_p2sh() {
            "p2sh"
        } else if self.is_v0_p2wpkh() {
            "p2wpkh"
        } else if self.is_v0_p2wsh() {
            "p2wsh"
        } else if self.is_v1_p2tr() {
            "p2tr"
        } else {
            "unknown"
        }.to_owned();
        let address = script_address(self.bytes.as_slice(), network);
        OutputScriptInfo {
            hex: to_hex(self.bytes.as_slice()),
            assembly: script_to_assembly(self.bytes.as_slice()),
            type_,
            address,
        }
    }
}

/// The amount of an output, which may be hidden.
#[derive(Clone, Debug, PartialEq, Eq)]
pub enum ConfidentialValue {
    /// No amount.
    Null,
    /// The amount in the open.
    Explicit(u64),
    /// A commitment to the amount.
    Confidential,
}

/// The asset of an output, which may be hidden.
#[derive(Clone, Debug, PartialEq, Eq)]
pub enum ConfidentialAsset {
    /// No asset.
    Null,
    /// The identifier of the asset in the open, as text.
    Explicit(String),
    /// A commitment to the asset.
    Confidential,
}

/// An output of a transaction, as far as it is described.
#[derive(Clone, Debug, PartialEq, Eq)]
pub struct TxOut {
    pub asset: ConfidentialAsset,
    pub value: ConfidentialValue,
    pub script_pubkey: Script,
}

/// Whether an output is a fee: whether its script is empty and its amount
/// and asset are in the open.
pub open spec fn fee_shape(output: TxOut) -> bool {
    output.script_pubkey.bytes@.len() == 0 && output.value is Explicit && output.asset is Explicit
}

impl TxOut {
    /// Whether or not this output is a fee output
    pub fn is_fee(&self) -> (b: bool)
        ensures
            b == fee_shape(*self),
    {
        let open_value = match self.value {
            ConfidentialValue::Explicit(_) => true,
            _ => false,
        };
        let open_asset = match &self.asset {
            ConfidentialAsset::Explicit(_) => true,
            _ => false,
        };
        self.script_pubkey.bytes.len() == 0 && open_value && open_asset
    }
}

/// An output of a transaction.
#[derive(Clone, Debug, PartialEq, Eq)]
pub struct OutputInfo {
    pub script_pub_key: OutputScriptInfo,
    pub value: Option<u64>,
    pub asset: Option<String>,
    pub is_fee: bool,
}

impl GetInfo<OutputInfo> for TxOut {
    open spec fn described_by(&self, network: Network, info: &OutputInfo) -> bool {
        &&& self.script_pubkey.described_by(network, &info.script_pub_key)
        &&& info.value == match self.value {
            ConfidentialValue::Explicit(n) => Some(n),
            _ => None,
        }
        &&& match self.asset {
            ConfidentialAsset::Explicit(id) => info.asset matches Some(a) && a@ == id@,
            _ => info.asset is None,
        }
        &&& info.is_fee == fee_shape(*self)
    }

    fn get_info(&self, network: Network) -> (info: OutputInfo) {
        let value = if let ConfidentialValue::Explicit(n) = self.value {
            Some(n)
        } else {
            None
        };
        let asset = if let ConfidentialAsset::Explicit(asset_id) = &self.asset {
            Some(asset_id.clone())
        } else {
            None
        };
        OutputInfo {
            script_pub_key: self.script_pubkey.get_info(network),
            value,
            asset,
            is_fee: self.is_fee(),
        }
    }
}

/// A transaction.
#[derive(Clone, Debug, PartialEq, Eq)]
pub struct TransactionInfo {
    pub txid: String,
    pub wtxid: String,
    pub hash: String,
    pub size: usize,
    pub weight: usize,
    pub vsize: usize,
    pub version: u32,
    pub locktime: u32,
    pub inputs: Vec<InputInfo>,
    pub outputs: Vec<OutputInfo>,
}

/// A transaction, as far as it is described.
#[derive(Clone, Debug, PartialEq, Eq)]
pub struct Transaction {
    /// The identifier of the transaction, as text.
    pub txid: String,
    /// The identifier of the transaction with its witnesses, as text.
    pub wtxid: String,
    /// The size of the transaction in bytes.
    pub size: usize,
    /// The weight of the transaction.
    pub weight: usize,
    pub version: u32,
    pub lock_time: u32,
    pub input: Vec<TxIn>,
    pub output: Vec<TxOut>,
}

/// The virtual size of a transaction of a given weight: a quarter of the
/// weight, rounded up.
pub open spec fn virtual_size(weight: int) -> int {
    (weight + 3) / 4
}

impl GetInfo<TransactionInfo> for Transaction {
    open spec fn described_by(&self, network: Network, info: &TransactionInfo) -> bool {
        &&& info.txid@ == self.txid@
        &&& info.wtxid@ == self.wtxid@
        &&& info.hash@ == self.wtxid@
        &&& info.size == self.size
        &&& info.weight == self.weight
        &&& info.vsize == virtual_size(self.weight as int)
        &&& info.version == self.version
        &&& info.locktime == self.lock_time
        &&& info.inputs@.len() == self.input@.len()
        &&& forall|k: int|
            0 <= k < self.input@.len() ==> (#[trigger] self.input@[k]).described_by(
                network,
                &info.inputs@[k],
            )
        &&& info.outputs@.len() == self.output@.len()
        &&& forall|k: int|
            0 <= k < self.output@.len() ==> (#[trigger] self.output@[k]).described_by(
                network,
                &info.outputs@[k],
            )
    }

    fn get_info(&self, network: Network) -> (info: TransactionInfo) {
        let mut inputs: Vec<InputInfo> = Vec::new();
        let mut i: usize = 0;
        while i < self.input.len()
            invariant
                i <= self.input@.len(),
                inputs@.len() == i,
                forall|k: int|
                    0 <= k < i ==> (#[trigger] self.input@[k]).described_by(network, &inputs@[k]),
            decreases self.input@.len() - i,
        {
            inputs.push(self.input[i].get_info(network));
            i += 1;
        }
        let mut outputs: Vec<OutputInfo> = Vec::new();
        let mut j: usize = 0;
        while j < self.output.len()
            invariant
                j <= self.output@.len(),
                outputs@.len() == j,
                forall|k: int|
                    0 <= k < j ==> (#[trigger] self.output@[k]).described_by(
                        network,
                        &outputs@[k],
                    ),
            decreases self.output@.len() - j,
        {
            outputs.push(self.output[j].get_info(network));
            j += 1;
        }
        let vsize: usize = self.weight / 4 + if self.weight % 4 == 0 {
            0
        } else {
            1
        };
        TransactionInfo {
            txid: self.txid.clone(),
            wtxid: self.wtxid.clone(),
            hash: self.wtxid.clone(),
            size: self.size,
            weight: self.weight,
            vsize,
            version: self.version,
            locktime: self.lock_time,
            inputs,
            outputs,
        }
    }
}

} // verus!
