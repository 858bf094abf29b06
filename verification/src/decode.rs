//! From base64 text to bytes.

use vstd::prelude::*;
use vstd::string::StringExecFns;
use base64::engine::general_purpose;
use base64::Engine;
use simplicity::dag::{DagLike, MaxSharing};
use simplicity::jet::Elements;
use simplicity::node::{Inner as ProgramInner, Redeem};
use simplicity::{BitIter, RedeemNode};
use crate::dag::{well_formed, Dag, Inner, Node};
use crate::encode::{base64_text, lemma_base64_text_injective};
use crate::error::Error;
use crate::value::{unpacked, Value};

verus! {

/// The message with which a text that is not base64 is refused.
pub uninterp spec fn base64_refusal(text: Seq<char>) -> Seq<char>;

/// Whether a text is the base64 text of some byte string.
pub open spec fn is_base64(text: Seq<char>) -> bool {
    exists|bytes: Seq<u8>| base64_text(bytes) == text
}

/// Trusted: stands for `Engine::decode` of `base64`, on the engine
/// `general_purpose::STANDARD`, which takes padded text in the standard
/// alphabet and no other: it returns the bytes of which the text is the
/// base64 text, and fails where there are none. The message is that of the
/// error of `base64`, a function of the text.
#[verifier::external_body]
fn standard_decode(text: &str) -> (bytes: Result<Vec<u8>, String>)
    ensures
        bytes matches Ok(b) ==> base64_text(b@) == text@,
        is_base64(text@) ==> bytes is Ok,
        bytes matches Err(m) ==> m@ == base64_refusal(text@),
{
    general_purpose::STANDARD.decode(text).map_err(|e| e.to_string())
}

/// The bytes that a base64 text stands for.
pub open spec fn base64_bytes(text: Seq<char>) -> Seq<u8> {
    choose|bytes: Seq<u8>| base64_text(bytes) == text
}

/// Return the bytes that the given base64 string stands for.
pub fn get_bytes(base64_string: &str) -> (bytes: Result<Vec<u8>, Error>)
    ensures
        bytes is Ok <==> is_base64(base64_string@),
        bytes matches Ok(b) ==> b@ == base64_bytes(base64_string@) && base64_text(b@)
            == base64_string@,
        bytes matches Err(e) ==> (e matches Error::Base64(m) && m@ == base64_refusal(
            base64_string@,
        )),
{
    match standard_decode(base64_string) {
        Ok(program_bytes) => {
            proof {
                lemma_base64_text_injective(program_bytes@, base64_bytes(base64_string@));
            }
            Ok(program_bytes)
        },
        Err(message) => Err(Error::Base64(message)),
    }
}

/// A node of a decoded program as it comes from the decoder: the indices of
/// its children among the nodes before it, the name of its combinator, its
/// type arrow, and for a word its bytes and the number of its bits.
#[derive(Clone, Debug, PartialEq, Eq)]
pub struct RawNode {
    pub left: Option<usize>,
    pub right: Option<usize>,
    pub label: String,
    pub arrow: String,
    pub word: Option<(Vec<u8>, usize)>,
}

/// A raw node, its texts as sequences of characters and its word as a
/// sequence of bytes.
pub struct RawNodeView {
    pub left: Option<usize>,
    pub right: Option<usize>,
    pub label: Seq<char>,
    pub arrow: Seq<char>,
    pub word: Option<(Seq<u8>, usize)>,
}

impl View for RawNode {
    type V = RawNodeView;

    open spec fn view(&self) -> RawNodeView {
        RawNodeView {
            left: self.left,
            right: self.right,
            label: self.label@,
            arrow: self.arrow@,
            word: match self.word {
                Some((bytes, len)) => Some((bytes@, len)),
                None => None,
            },
        }
    }
}

/// The views of raw nodes.
pub open spec fn raw_views(raw: Seq<RawNode>) -> Seq<RawNodeView> {
    raw.map_values(|r: RawNode| r@)
}

/// What decoding the bytes of a program gives: its nodes in post order, each
/// shared node once, or nothing where the bytes are refused.
pub uninterp spec fn decoded_program(bytes: Seq<u8>) -> Option<Seq<RawNodeView>>;

/// Trusted: stands for `RedeemNode::decode` of `simplicity`, on the jets of
/// Elements and the bits of the given bytes, and for `post_order_iter` with
/// maximal sharing on its result, each node put down as plain values: the
/// child indices of the iterator, `Display` of the combinator and of the
/// type arrow, and `Value::to_bytes_len` of a word. Whether the bytes are
/// taken, and the nodes if they are, is a function of the bytes. The
/// message of a refusal is not: a type error names type variables by a
/// count that runs through the process, so nothing is said of the message.
#[verifier::external_body]
fn decode_nodes(bytes: Vec<u8>) -> (nodes: Result<Vec<RawNode>, String>)
    ensures
        nodes matches Ok(v) ==> decoded_program(bytes@) == Some(raw_views(v@)),
        nodes is Err ==> decoded_program(bytes@) is None,
{
    let mut bits = BitIter::new(bytes.into_iter());
    let program = RedeemNode::<Elements>::decode(&mut bits).map_err(|e| e.to_string())?;
    Ok(program.as_ref().post_order_iter::<MaxSharing<Redeem<Elements>>>().map(|item| RawNode {
        left: item.left_index,
        right: item.right_index,
        label: item.node.inner().to_string(),
        arrow: item.node.arrow().to_string(),
        word: match item.node.inner() {
            ProgramInner::Word(value) => Some(value.to_bytes_len()),
            _ => None,
        },
    }).collect())
}

/// The shape that a name and children stand for, if they fit each other. A
/// name that is not that of a combinator is that of a jet.
pub open spec fn named_shape(label: Seq<char>, left: Option<usize>, right: Option<usize>) -> Option<
    Inner,
> {
    match (left, right) {
        (None, None) => if label == "iden"@ {
            Some(Inner::Iden)
        } else if label == "unit"@ {
            Some(Inner::Unit)
        } else if label == "witness"@ {
            Some(Inner::Witness)
        } else if label == "fail"@ {
            Some(Inner::Fail)
        } else {
            Some(Inner::Jet)
        },
        (Some(l), None) => if label == "injl"@ {
            Some(Inner::InjL(l))
        } else if label == "injr"@ {
            Some(Inner::InjR(l))
        } else if label == "take"@ {
            Some(Inner::Take(l))
        } else if label == "drop"@ {
            Some(Inner::Drop(l))
        } else if label == "assertl"@ {
            Some(Inner::AssertL(l))
        } else if label == "assertr"@ {
            Some(Inner::AssertR(l))
        } else if label == "disconnect"@ {
            Some(Inner::Disconnect(l, None))
        } else {
            None
        },
        (Some(l), Some(r)) => if label == "comp"@ {
            Some(Inner::Comp(l, r))
        } else if label == "case"@ {
            Some(Inner::Case(l, r))
        } else if label == "pair"@ {
            Some(Inner::Pair(l, r))
        } else if label == "disconnect"@ {
            Some(Inner::Disconnect(l, Some(r)))
        } else {
            None
        },
        (None, Some(_)) => None,
    }
}

/// Whether a shape is that of a raw node: a word with the bits of the raw
/// node where it has some, and else the shape that its name and children
/// stand for.
pub open spec fn is_shape_of(raw: RawNodeView, inner: Inner) -> bool {
    match raw.word {
        Some((bytes, len)) => {
            &&& raw.left is None && raw.right is None
            &&& len <= 8 * bytes.len()
            &&& inner matches Inner::Word(v)
            &&& v is Bits && v.bits() == unpacked(bytes, len as nat)
        },
        None => named_shape(raw.label, raw.left, raw.right) == Some(inner),
    }
}

/// Whether a node is that of the raw node at an index: its identity is the
/// index, and its shape and texts are those of the raw node.
pub open spec fn is_node_of(raw: RawNodeView, index: int, node: Node) -> bool {
    &&& node.id == Some(index as u64)
    &&& is_shape_of(raw, node.inner)
    &&& node.label@ == raw.label
    &&& node.arrow@ == raw.arrow
}

/// Whether nodes are those of raw nodes, one for one.
pub open spec fn are_nodes_of(raw: Seq<RawNodeView>, nodes: Seq<Node>) -> bool {
    &&& nodes.len() == raw.len()
    &&& forall|k: int| 0 <= k < raw.len() ==> is_node_of(raw[k], k, #[trigger] nodes[k])
}

/// Whether raw nodes are those of a program.
pub open spec fn is_program(raw: Seq<RawNodeView>) -> bool {
    exists|nodes: Seq<Node>| are_nodes_of(raw, nodes) && well_formed(nodes)
}

/// Tells whether a text is a given one.
fn is_text(text: &String, expected: &str) -> (b: bool)
    ensures
        b == (text@ == expected@),
{
    *text == expected.to_owned()
}

/// The shape of a raw node, if it has one.
pub fn shape_of(raw: &RawNode) -> (inner: Option<Inner>)
    ensures
        inner is Some <==> exists|i: Inner| is_shape_of(raw@, i),
        inner matches Some(i) ==> is_shape_of(raw@, i),
{
    let label = &raw.label;
    let inner = match &raw.word {
        Some((bytes, len)) => {
            if raw.left.is_some() || raw.right.is_some() {
                None
            } else {
                match Value::from_bytes_len(bytes.as_slice(), *len) {
                    Some(value) => Some(Inner::Word(value)),
                    None => None,
                }
            }
        },
        None => match (raw.left, raw.right) {
            (None, None) => if is_text(label, "iden") {
                Some(Inner::Iden)
            } else if is_text(label, "unit") {
                Some(Inner::Unit)
            } else if is_text(label, "witness") {
                Some(Inner::Witness)
            } else if is_text(label, "fail") {
                Some(Inner::Fail)
            } else {
                Some(Inner::Jet)
            },
            (Some(l), None) => if is_text(label, "injl") {
                Some(Inner::InjL(l))
            } else if is_text(label, "injr") {
                Some(Inner::InjR(l))
            } else if is_text(label, "take") {
                Some(Inner::Take(l))
            } else if is_text(label, "drop") {
                Some(Inner::Drop(l))
            } else if is_text(label, "assertl") {
                Some(Inner::AssertL(l))
            } else if is_text(label, "assertr") {
                Some(Inner::AssertR(l))
            } else if is_text(label, "disconnect") {
                Some(Inner::Disconnect(l, None))
            } else {
                None
            },
            (Some(l), Some(r)) => if is_text(label, "comp") {
                Some(Inner::Comp(l, r))
            } else if is_text(label, "case") {
                Some(Inner::Case(l, r))
            } else if is_text(label, "pair") {
                Some(Inner::Pair(l, r))
            } else if is_text(label, "disconnect") {
                Some(Inner::Disconnect(l, Some(r)))
            } else {
                None
            },
            (None, Some(_)) => None,
        },
    };
    proof {
        if inner is Some {
            assert(is_shape_of(raw@, inner->0));
        }
    }
    inner
}

/// Two rows of nodes of the same raw nodes are programs together: whether
/// nodes are well formed lies with their identities and children, which the
/// raw nodes fix.
pub proof fn lemma_nodes_of_agree(raw: Seq<RawNodeView>, a: Seq<Node>, b: Seq<Node>)
    requires
        are_nodes_of(raw, a),
        are_nodes_of(raw, b),
        well_formed(a),
    ensures
        well_formed(b),
{
    assert forall|k: int| 0 <= k < raw.len() implies (#[trigger] a[k]).id == b[k].id
        && a[k].inner.left() == b[k].inner.left() && a[k].inner.right()
        == b[k].inner.right() by {
        assert(is_node_of(raw[k], k, a[k]));
        assert(is_node_of(raw[k], k, b[k]));
    }
    assert forall|i: int| 0 <= i < b.len() - 1 implies #[trigger] crate::dag::has_parent(
        b,
        i,
    ) by {
        assert(crate::dag::has_parent(a, i));
        let p = choose|p: int| i < p < a.len() && #[trigger] crate::dag::is_child(a, p, i);
        assert(a[p].id == b[p].id);
        assert(crate::dag::is_child(b, p, i));
    }
    assert forall|i: int| 0 <= i < b.len() implies (#[trigger] b[i].inner.left() matches Some(
        c,
    ) ==> c < i && (b[i].id is Some ==> b[c as int].id is Some)) by {
        assert(a[i].id == b[i].id);
        if a[i].inner.left() is Some {
            let c = a[i].inner.left()->0;
            assert(a[c as int].id == b[c as int].id);
        }
    }
    assert forall|i: int| 0 <= i < b.len() implies (#[trigger] b[i].inner.right() matches Some(
        c,
    ) ==> c < i && (b[i].id is Some ==> b[c as int].id is Some)) by {
        assert(a[i].id == b[i].id);
        if a[i].inner.right() is Some {
            let c = a[i].inner.right()->0;
            assert(a[c as int].id == b[c as int].id);
        }
    }
    assert forall|i: int, j: int|
        0 <= i < b.len() && 0 <= j < b.len() && b[i].id is Some && b[i].id
            == b[j].id implies i == j by {
        assert(a[i].id == b[i].id);
        assert(a[j].id == b[j].id);
    }
}

/// Makes a program of the nodes that the decoder gave, if they are those of
/// one.
pub fn program_from_raw(raw: &Vec<RawNode>) -> (program: Option<Dag>)
    ensures
        program is Some <==> is_program(raw_views(raw@)),
        program matches Some(p) ==> are_nodes_of(raw_views(raw@), p@),
{
    let ghost given = raw_views(raw@);
    let mut nodes: Vec<Node> = Vec::new();
    let mut i: usize = 0;
    while i < raw.len()
        invariant
            given == raw_views(raw@),
            i <= raw@.len(),
            nodes@.len() == i,
            forall|k: int| 0 <= k < i ==> is_node_of(given[k], k, #[trigger] nodes@[k]),
        decreases raw@.len() - i,
    {
        let inner = match shape_of(&raw[i]) {
            Some(inner) => inner,
            None => {
                proof {
                    if is_program(given) {
                        let good = choose|good: Seq<Node>|
                            are_nodes_of(given, good) && well_formed(good);
                        assert(is_node_of(given[i as int], i as int, good[i as int]));
                        assert(is_shape_of(given[i as int], good[i as int].inner));
                    }
                }
                return None;
            },
        };
        nodes.push(
            Node {
                id: Some(i as u64),
                inner,
                label: raw[i].label.clone(),
                arrow: raw[i].arrow.clone(),
            },
        );
        i += 1;
    }
    let ghost made = nodes@;
    assert(are_nodes_of(given, made));
    let program = Dag::from_nodes(nodes);
    proof {
        if is_program(given) {
            let good = choose|good: Seq<Node>| are_nodes_of(given, good) && well_formed(good);
            lemma_nodes_of_agree(given, good, made);
        }
    }
    program
}

/// Whether decoding ends as it does for decoded bytes: with the program of
/// the nodes; or, where the nodes are not those of a program, with an error
/// that says so; or, where the decoder refused the bytes, with an error
/// that carries the message of the decoder, whatever it is.
pub open spec fn is_outcome_of(decoded: Option<Seq<RawNodeView>>, program: Result<Dag, Error>) -> bool {
    match decoded {
        Some(raw) => if is_program(raw) {
            (program matches Ok(p) && are_nodes_of(raw, p@))
        } else {
            (program matches Err(Error::Simplicity(m)) && m@ == "malformed program"@)
        },
        None => program matches Err(Error::Simplicity(_)),
    }
}

/// Decode a program with witness data from the given base64 string.
///
/// Fails where the string is not base64, or the bytes that it stands for
/// are not the encoding of a program.
pub fn decode_program(base64: &str) -> (program: Result<Dag, Error>)
    ensures
        !is_base64(base64@) ==> (program matches Err(Error::Base64(m)) && m@ == base64_refusal(
            base64@,
        )),
        is_base64(base64@) ==> is_outcome_of(decoded_program(base64_bytes(base64@)), program),
{
    let bytes = match get_bytes(base64) {
        Ok(bytes) => bytes,
        Err(e) => {
            return Err(e);
        },
    };
    let ghost read = bytes@;
    let raw = match decode_nodes(bytes) {
        Ok(raw) => raw,
        Err(message) => {
            let program = Err(Error::Simplicity(message));
            assert(is_outcome_of(decoded_program(read), program));
            return program;
        },
    };
    let program = match program_from_raw(&raw) {
        Some(program) => Ok(program),
        None => Err(Error::Simplicity("malformed program".to_owned())),
    };
    assert(is_outcome_of(decoded_program(read), program));
    program
}

} // verus!
