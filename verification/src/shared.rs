//! Rendering under a sharing policy: the nodes of a program are numbered in
//! the order of the program, and a sharing tracker decides for each whether
//! it gets a number of its own.

use vstd::prelude::*;
use std::collections::HashMap;
use std::collections::HashSet;
use crate::compress::{
    hidden_set, is_among, is_scribe, lemma_reaches_child, lemma_top_scribe_map_at,
    top_scribe_map, CompressScribe,
};
use crate::dag::{is_child, well_formed, Dag, Node};
use crate::graph::{
    lemma_visible_iff_not_hidden, plain_node, rendered_upto, scribe_entry, scribe_node, views,
    RenderGraph, RenderNode, RenderNodeView,
};
use crate::sharing::{MaxSharing, SharingTracker};
use crate::value::Value;

verus! {

/// The number of the nodes before node `k` that the tracker called new: the
/// number that node `k` gets, if it gets one. The answers of the tracker are
/// given node by node; `None` calls a node new.
pub open spec fn count_new(answers: Seq<Option<usize>>, k: int) -> nat
    decreases k,
{
    if k <= 0 {
        0
    } else if answers[k - 1] is None {
        count_new(answers, k - 1) + 1
    } else {
        count_new(answers, k - 1)
    }
}

/// The number under which node `c` is drawn: its own where the tracker
/// called it new, that of the node that it is shared with where the tracker
/// answered with a number given before, and none where the tracker refused
/// it a number.
pub open spec fn resolved(answers: Seq<Option<usize>>, c: int) -> Option<usize> {
    match answers[c] {
        None => Some(count_new(answers, c) as usize),
        Some(at) => if at < count_new(answers, c) {
            Some(at)
        } else {
            None
        },
    }
}

/// The number under which a child is drawn, if there is a child.
pub open spec fn resolved_child(answers: Seq<Option<usize>>, child: Option<usize>) -> Option<
    usize,
> {
    match child {
        Some(c) => resolved(answers, c as int),
        None => None,
    }
}

/// Whether node `i` is folded into one rendered node: whether its identity
/// is that of one of the given scribe expressions.
pub open spec fn is_folded(nodes: Seq<Node>, top: Map<u64, Value>, i: int) -> bool {
    nodes[i].id is Some && top.contains_key(nodes[i].id->0)
}

/// The rendered node of node `i` under its number, its children under
/// theirs.
pub open spec fn shared_entry(
    nodes: Seq<Node>,
    top: Map<u64, Value>,
    answers: Seq<Option<usize>>,
    i: int,
) -> RenderNodeView {
    if is_folded(nodes, top, i) {
        scribe_entry(top[nodes[i].id->0].bits(), count_new(answers, i) as usize)
    } else {
        RenderNodeView {
            index: count_new(answers, i) as usize,
            label: nodes[i].label@,
            annotation: nodes[i].arrow@,
            literal: false,
            left: resolved_child(answers, nodes[i].inner.left()),
            right: resolved_child(answers, nodes[i].inner.right()),
        }
    }
}

/// Whether the children of node `i` are drawn, if the node needs them: if
/// it is new and not folded.
pub open spec fn shared_resolves(
    nodes: Seq<Node>,
    top: Map<u64, Value>,
    answers: Seq<Option<usize>>,
    i: int,
) -> bool {
    answers[i] is None && !is_folded(nodes, top, i) ==> {
        &&& nodes[i].inner.left() is Some ==> resolved_child(answers, nodes[i].inner.left())
            is Some
        &&& nodes[i].inner.right() is Some ==> resolved_child(answers, nodes[i].inner.right())
            is Some
    }
}

/// Whether the children of the first `k` nodes are drawn where the nodes
/// need them.
pub open spec fn shared_resolves_upto(
    nodes: Seq<Node>,
    top: Map<u64, Value>,
    answers: Seq<Option<usize>>,
    k: int,
) -> bool {
    forall|i: int| 0 <= i < k ==> #[trigger] shared_resolves(nodes, top, answers, i)
}

/// The rendered nodes of the first `k` nodes of a program: of those that the
/// tracker called new, in order.
pub open spec fn shared_upto(
    nodes: Seq<Node>,
    top: Map<u64, Value>,
    answers: Seq<Option<usize>>,
    k: int,
) -> Seq<RenderNodeView>
    decreases k,
{
    if k <= 0 {
        Seq::empty()
    } else if answers[k - 1] is None {
        shared_upto(nodes, top, answers, k - 1).push(shared_entry(nodes, top, answers, k - 1))
    } else {
        shared_upto(nodes, top, answers, k - 1)
    }
}

/// Whether the tracker went through the given states and gave the given
/// answers while the first `k` nodes were recorded, each with the number
/// that it would get.
pub open spec fn is_run_upto<T: SharingTracker>(
    nodes: Seq<Node>,
    trace: Seq<T>,
    answers: Seq<Option<usize>>,
    k: int,
) -> bool {
    forall|j: int|
        0 <= j < k ==> {
            &&& #[trigger] answers[j] == trace[j].answer(
                &nodes[j],
                count_new(answers, j) as usize,
            )
            &&& trace[j].follows(&nodes[j], count_new(answers, j) as usize, &trace[j + 1])
        }
}

/// Whether a graph is what rendering gives when the tracker starts in the
/// given state and goes through the given states, giving the given answers:
/// the rendered nodes of the nodes that it called new, if the children of
/// all that need them are drawn, and no graph if not.
pub open spec fn is_rendering<T: SharingTracker>(
    nodes: Seq<Node>,
    top: Map<u64, Value>,
    tracker: T,
    trace: Seq<T>,
    answers: Seq<Option<usize>>,
    graph: Option<RenderGraph>,
) -> bool {
    &&& trace.len() == nodes.len() + 1
    &&& answers.len() == nodes.len()
    &&& trace[0] == tracker
    &&& is_run_upto(nodes, trace, answers, nodes.len() as int)
    &&& graph is Some <==> shared_resolves_upto(nodes, top, answers, nodes.len() as int)
    &&& graph matches Some(g) ==> g@ == shared_upto(nodes, top, answers, nodes.len() as int)
}

/// No more nodes are new than there are nodes.
pub proof fn lemma_count_new_bound(answers: Seq<Option<usize>>, k: int)
    ensures
        k >= 0 ==> count_new(answers, k) <= k,
    decreases k,
{
    if k > 0 {
        lemma_count_new_bound(answers, k - 1);
    }
}

/// There are as many rendered nodes as nodes that were called new.
pub proof fn lemma_shared_len(
    nodes: Seq<Node>,
    top: Map<u64, Value>,
    answers: Seq<Option<usize>>,
    k: int,
)
    ensures
        shared_upto(nodes, top, answers, k).len() == count_new(answers, k),
    decreases k,
{
    if k > 0 {
        lemma_shared_len(nodes, top, answers, k - 1);
    }
}

/// What is said of the first `k` nodes depends on the answers for these
/// nodes only.
pub proof fn lemma_later_answers(
    nodes: Seq<Node>,
    top: Map<u64, Value>,
    a: Seq<Option<usize>>,
    b: Seq<Option<usize>>,
    k: int,
)
    requires
        well_formed(nodes),
        0 <= k <= nodes.len(),
        forall|j: int| 0 <= j < k ==> a[j] == b[j],
    ensures
        forall|j: int| 0 <= j <= k ==> #[trigger] count_new(a, j) == count_new(b, j),
        forall|j: int| 0 <= j < k ==> #[trigger] resolved(a, j) == resolved(b, j),
        forall|j: int|
            0 <= j < k ==> #[trigger] shared_entry(nodes, top, a, j) == shared_entry(
                nodes,
                top,
                b,
                j,
            ),
        forall|j: int|
            0 <= j < k ==> #[trigger] shared_resolves(nodes, top, a, j) == shared_resolves(
                nodes,
                top,
                b,
                j,
            ),
        shared_upto(nodes, top, a, k) == shared_upto(nodes, top, b, k),
    decreases k,
{
    if k > 0 {
        lemma_later_answers(nodes, top, a, b, k - 1);
        let i = k - 1;
        assert(count_new(a, k) == count_new(b, k));
        assert(resolved(a, i) == resolved(b, i));
        assert(nodes[i].inner.left() matches Some(c) ==> c < i);
        assert(nodes[i].inner.right() matches Some(c) ==> c < i);
        match nodes[i].inner.left() {
            Some(c) => {
                assert(resolved(a, c as int) == resolved(b, c as int));
            },
            None => {},
        }
        match nodes[i].inner.right() {
            Some(c) => {
                assert(resolved(a, c as int) == resolved(b, c as int));
            },
            None => {},
        }
        assert(shared_entry(nodes, top, a, i) == shared_entry(nodes, top, b, i));
        assert(shared_resolves(nodes, top, a, i) == shared_resolves(nodes, top, b, i));
    }
}

/// The numbers rise with the nodes, and by one at least to a node behind one
/// that was called new.
pub proof fn lemma_count_new_rises(answers: Seq<Option<usize>>, c: int, i: int)
    requires
        0 <= c < i,
    ensures
        count_new(answers, c) <= count_new(answers, i),
        answers[c] is None ==> count_new(answers, c) < count_new(answers, i),
    decreases i,
{
    if c < i - 1 {
        lemma_count_new_rises(answers, c, i - 1);
    }
}

/// Whatever the tracker answers, each rendered node stands at its number,
/// and every edge goes to a number that was given before that of the node
/// that the edge leaves.
pub proof fn lemma_shared_targets_come_first(
    nodes: Seq<Node>,
    top: Map<u64, Value>,
    answers: Seq<Option<usize>>,
    k: int,
)
    requires
        well_formed(nodes),
        0 <= k <= nodes.len(),
    ensures
        forall|a: int|
            0 <= a < shared_upto(nodes, top, answers, k).len() ==> {
                let e = #[trigger] shared_upto(nodes, top, answers, k)[a];
                &&& e.index == a
                &&& e.left matches Some(c) ==> c < a
                &&& e.right matches Some(c) ==> c < a
            },
    decreases k,
{
    if k > 0 {
        lemma_shared_targets_come_first(nodes, top, answers, k - 1);
        lemma_shared_len(nodes, top, answers, k - 1);
        lemma_count_new_bound(answers, k - 1);
        let i = k - 1;
        assert(nodes[i].inner.left() matches Some(c) ==> c < i);
        assert(nodes[i].inner.right() matches Some(c) ==> c < i);
        match nodes[i].inner.left() {
            Some(c) => {
                lemma_count_new_rises(answers, c as int, i);
                lemma_count_new_bound(answers, c as int);
            },
            None => {},
        }
        match nodes[i].inner.right() {
            Some(c) => {
                lemma_count_new_rises(answers, c as int, i);
                lemma_count_new_bound(answers, c as int);
            },
            None => {},
        }
    }
}

/// Renders a program under a sharing policy.
///
/// The nodes are taken in the order of the program, each recorded with the
/// tracker under the number that the next rendered node gets. A node that
/// the tracker calls new is rendered under that number: folded into one
/// node that shows its value where its identity is that of one of the given
/// scribe expressions, and else with edges to the numbers of its children.
/// A node that the tracker has seen before stands under the number that the
/// tracker answers with; a node that it answers for with a number that was
/// not given yet is not drawn.
///
/// There is no graph where a node that is drawn with its children has a
/// child that is not drawn.
#[verifier::rlimit(40)]
pub fn render_shared<T: SharingTracker>(
    program: &Dag,
    top: &HashMap<u64, Value>,
    tracker: T,
) -> (graph: Option<RenderGraph>)
    ensures
        exists|trace: Seq<T>, answers: Seq<Option<usize>>|
            is_rendering(program@, top@, tracker, trace, answers, graph),
{
    broadcast use vstd::std_specs::hash::group_hash_axioms;

    let n = program.len();
    let ghost nodes = program@;
    let ghost first = tracker;
    let mut tracker = tracker;
    let ghost mut trace: Seq<T> = seq![tracker];
    let ghost mut answers: Seq<Option<usize>> = Seq::empty();
    let mut assigned: Vec<Option<usize>> = Vec::new();
    let mut entries: Vec<RenderNode> = Vec::new();
    let mut complete = true;
    let mut i: usize = 0;
    assert(views(entries@) =~= Seq::empty());
    while i < n
        invariant
            nodes == program@,
            n == nodes.len(),
            well_formed(nodes),
            i <= n,
            trace.len() == i + 1,
            trace[0] == first,
            trace[i as int] == tracker,
            answers.len() == i,
            is_run_upto(nodes, trace, answers, i as int),
            assigned@.len() == i,
            forall|j: int| 0 <= j < i ==> #[trigger] assigned@[j] == resolved(answers, j),
            entries@.len() == count_new(answers, i as int),
            complete ==> views(entries@) == shared_upto(nodes, top@, answers, i as int),
            complete <==> shared_resolves_upto(nodes, top@, answers, i as int),
        decreases n - i,
    {
        let node = program.node(i);
        let next = entries.len();
        let ghost before = entries@;
        let ghost old_answers = answers;
        let ghost old_trace = trace;
        let answer = tracker.record(node, next);
        proof {
            answers = answers.push(answer);
            trace = trace.push(tracker);
            lemma_later_answers(nodes, top@, old_answers, answers, i as int);
            lemma_count_new_bound(answers, i as int);
            assert forall|j: int| 0 <= j < i + 1 implies {
                &&& #[trigger] answers[j] == trace[j].answer(
                    &nodes[j],
                    count_new(answers, j) as usize,
                )
                &&& trace[j].follows(&nodes[j], count_new(answers, j) as usize, &trace[j + 1])
            } by {
                if j < i {
                    assert(old_answers[j] == old_trace[j].answer(
                        &nodes[j],
                        count_new(old_answers, j) as usize,
                    ));
                    assert(trace[j] == old_trace[j]);
                    assert(trace[j + 1] == old_trace[j + 1]);
                    assert(count_new(answers, j) == count_new(old_answers, j));
                }
            }
            assert(nodes[i as int].inner.left() matches Some(c) ==> c < i);
            assert(nodes[i as int].inner.right() matches Some(c) ==> c < i);
            assert forall|j: int| 0 <= j < i implies #[trigger] assigned@[j] == resolved(
                answers,
                j,
            ) by {
                assert(resolved(old_answers, j) == resolved(answers, j));
            }
            assert forall|j: int| 0 <= j < i implies #[trigger] shared_resolves(
                nodes,
                top@,
                answers,
                j,
            ) == shared_resolves(nodes, top@, old_answers, j) by {}
        }
        match answer {
            Some(at) => {
                assigned.push(
                    if at < next {
                        Some(at)
                    } else {
                        None
                    },
                );
                assert(shared_resolves(nodes, top@, answers, i as int));
            },
            None => {
                let folded = match node.id {
                    Some(id) => match top.get(&id) {
                        Some(value) => Some(scribe_node(value, next)),
                        None => None,
                    },
                    None => None,
                };
                let entry = match folded {
                    Some(entry) => entry,
                    None => {
                        let left = match node.inner.left_child() {
                            Some(c) => assigned[c],
                            None => None,
                        };
                        let right = match node.inner.right_child() {
                            Some(c) => assigned[c],
                            None => None,
                        };
                        if (node.inner.left_child().is_some() && left.is_none()) || (
                        node.inner.right_child().is_some() && right.is_none()) {
                            complete = false;
                            assert(!shared_resolves(nodes, top@, answers, i as int));
                        } else {
                            assert(shared_resolves(nodes, top@, answers, i as int));
                        }
                        RenderNode {
                            index: next,
                            label: node.label.clone(),
                            annotation: node.arrow.clone(),
                            literal: false,
                            left,
                            right,
                        }
                    },
                };
                assert(entry@ == shared_entry(nodes, top@, answers, i as int));
                entries.push(entry);
                assigned.push(Some(next));
                assert(views(entries@) =~= views(before).push(entry@));
            },
        }
        i += 1;
    }
    let graph = if complete {
        Some(RenderGraph { nodes: entries })
    } else {
        None
    };
    assert(is_rendering(nodes, top@, first, trace, answers, graph));
    graph
}

/// Whether node `i` gets a number of its own when the nodes with the given
/// identities are hidden.
pub open spec fn is_numbered(nodes: Seq<Node>, hidden: Set<u64>, i: int) -> bool {
    !is_among(&nodes[i], hidden)
}

/// The number of the nodes before node `i` that get a number of their own:
/// the number that node `i` gets, if it gets one.
pub open spec fn rank(nodes: Seq<Node>, hidden: Set<u64>, i: int) -> nat
    decreases i,
{
    if i <= 0 {
        0
    } else if is_numbered(nodes, hidden, i - 1) {
        rank(nodes, hidden, i - 1) + 1
    } else {
        rank(nodes, hidden, i - 1)
    }
}

/// The number of a child, if there is a child.
pub open spec fn child_rank(nodes: Seq<Node>, hidden: Set<u64>, child: Option<usize>) -> Option<
    usize,
> {
    match child {
        Some(c) => Some(rank(nodes, hidden, c as int) as usize),
        None => None,
    }
}

/// The rendered node of node `i` by its number, its children by theirs.
pub open spec fn numbered_entry(
    nodes: Seq<Node>,
    top: Map<u64, Value>,
    hidden: Set<u64>,
    i: int,
) -> RenderNodeView {
    if is_folded(nodes, top, i) {
        scribe_entry(top[nodes[i].id->0].bits(), rank(nodes, hidden, i) as usize)
    } else {
        RenderNodeView {
            index: rank(nodes, hidden, i) as usize,
            label: nodes[i].label@,
            annotation: nodes[i].arrow@,
            literal: false,
            left: child_rank(nodes, hidden, nodes[i].inner.left()),
            right: child_rank(nodes, hidden, nodes[i].inner.right()),
        }
    }
}

/// Whether a child has a number, if there is a child.
pub open spec fn child_resolves(nodes: Seq<Node>, hidden: Set<u64>, child: Option<usize>) -> bool {
    child matches Some(c) ==> c < nodes.len() && is_numbered(nodes, hidden, c as int)
}

/// Whether the children of node `i` have numbers, if the node needs them:
/// if it has a number and is not folded.
pub open spec fn resolves(nodes: Seq<Node>, top: Map<u64, Value>, hidden: Set<u64>, i: int) -> bool {
    is_numbered(nodes, hidden, i) && !is_folded(nodes, top, i) ==> child_resolves(
        nodes,
        hidden,
        nodes[i].inner.left(),
    ) && child_resolves(nodes, hidden, nodes[i].inner.right())
}

/// Whether the children of the first `k` nodes have numbers where the nodes
/// need them.
pub open spec fn resolves_upto(
    nodes: Seq<Node>,
    top: Map<u64, Value>,
    hidden: Set<u64>,
    k: int,
) -> bool {
    forall|i: int| 0 <= i < k ==> #[trigger] resolves(nodes, top, hidden, i)
}

/// The rendered nodes of the first `k` nodes of a program by their numbers.
pub open spec fn numbered_upto(
    nodes: Seq<Node>,
    top: Map<u64, Value>,
    hidden: Set<u64>,
    k: int,
) -> Seq<RenderNodeView>
    decreases k,
{
    if k <= 0 {
        Seq::empty()
    } else if is_numbered(nodes, hidden, k - 1) {
        numbered_upto(nodes, top, hidden, k - 1).push(numbered_entry(nodes, top, hidden, k - 1))
    } else {
        numbered_upto(nodes, top, hidden, k - 1)
    }
}

/// There are as many rendered nodes by number as there are numbers given.
pub proof fn lemma_numbered_len(nodes: Seq<Node>, top: Map<u64, Value>, hidden: Set<u64>, k: int)
    ensures
        numbered_upto(nodes, top, hidden, k).len() == rank(nodes, hidden, k),
        k >= 0 ==> rank(nodes, hidden, k) <= k,
    decreases k,
{
    if k > 0 {
        lemma_numbered_len(nodes, top, hidden, k - 1);
    }
}

/// The numbers rise with the nodes, and by one at least to a node behind one
/// that has a number.
pub proof fn lemma_rank_rises(nodes: Seq<Node>, hidden: Set<u64>, c: int, i: int)
    requires
        0 <= c < i,
    ensures
        rank(nodes, hidden, c) <= rank(nodes, hidden, i),
        is_numbered(nodes, hidden, c) ==> rank(nodes, hidden, c) < rank(nodes, hidden, i),
    decreases i,
{
    if c < i - 1 {
        lemma_rank_rises(nodes, hidden, c, i - 1);
    }
}

/// What holds while a tracker that hides the given identities and shares
/// maximally below, starting with nothing seen, records the first `k` nodes
/// of a program: it calls a node new exactly if the node is not hidden, and
/// a hidden node is not drawn.
#[verifier::rlimit(40)]
pub proof fn lemma_compressed_run(
    nodes: Seq<Node>,
    hidden: Set<u64>,
    trace: Seq<CompressScribe<MaxSharing>>,
    answers: Seq<Option<usize>>,
    k: int,
)
    requires
        well_formed(nodes),
        0 <= k <= nodes.len(),
        trace.len() == nodes.len() + 1,
        answers.len() == nodes.len(),
        is_run_upto(nodes, trace, answers, k),
        trace[0].hidden() == hidden,
        trace[0].inner()@ == Map::<u64, usize>::empty(),
    ensures
        trace[k].hidden() == hidden,
        forall|id: u64| #[trigger]
            trace[k].inner()@.contains_key(id) ==> exists|j: int|
                0 <= j < k && nodes[j].id == Some(id),
        forall|j: int|
            0 <= j < k ==> (#[trigger] answers[j] is None) == is_numbered(nodes, hidden, j),
        forall|j: int|
            0 <= j < k ==> #[trigger] resolved(answers, j) == if is_numbered(nodes, hidden, j) {
                Some(rank(nodes, hidden, j) as usize)
            } else {
                None
            },
        forall|j: int| 0 <= j <= k ==> #[trigger] count_new(answers, j) == rank(nodes, hidden, j),
    decreases k,
{
    if k > 0 {
        let i = k - 1;
        lemma_compressed_run(nodes, hidden, trace, answers, i);
        lemma_run_step(nodes, trace, answers, k, i);
        lemma_count_new_bound(answers, i);
        let index = count_new(answers, i) as usize;
        let table = trace[i].inner()@;
        if nodes[i].id is Some && table.contains_key(nodes[i].id->0) {
            let j = choose|j: int| 0 <= j < i && nodes[j].id == Some(nodes[i].id->0);
            assert(false);
        }
        lemma_compressed_step(&trace[i], &trace[i + 1], &nodes[i], index, answers[i]);
        assert((answers[i] is None) == is_numbered(nodes, hidden, i));
        assert(count_new(answers, i) == rank(nodes, hidden, i));
        assert(count_new(answers, k) == rank(nodes, hidden, k));
        assert(resolved(answers, i) == if is_numbered(nodes, hidden, i) {
            Some(rank(nodes, hidden, i) as usize)
        } else {
            None
        });
        assert forall|id: u64| #[trigger]
            trace[k].inner()@.contains_key(id) implies exists|j: int|
            0 <= j < k && nodes[j].id == Some(id) by {
            if table.contains_key(id) {
                let j = choose|j: int| 0 <= j < i && nodes[j].id == Some(id);
                assert(0 <= j < k && nodes[j].id == Some(id));
            } else {
                assert(0 <= i < k && nodes[i].id == Some(id));
            }
        }
        assert forall|j: int| 0 <= j < k implies (#[trigger] answers[j] is None) == is_numbered(
            nodes,
            hidden,
            j,
        ) by {}
        assert forall|j: int| 0 <= j < k implies #[trigger] resolved(answers, j) == if is_numbered(
            nodes,
            hidden,
            j,
        ) {
            Some(rank(nodes, hidden, j) as usize)
        } else {
            None
        } by {}
        assert forall|j: int| 0 <= j <= k implies #[trigger] count_new(answers, j) == rank(
            nodes,
            hidden,
            j,
        ) by {}
    }
}

/// One step of a tracker that hides identities and shares maximally below,
/// on a node whose identity it has not seen: it calls the node new exactly
/// if the node is not hidden, answers with the index at hand if it is, and
/// has seen nothing more than before but the node.
pub proof fn lemma_compressed_step(
    before: &CompressScribe<MaxSharing>,
    after: &CompressScribe<MaxSharing>,
    d: &Node,
    index: usize,
    answer: Option<usize>,
)
    requires
        answer == before.answer(d, index),
        before.follows(d, index, after),
        !(d.id is Some && before.inner()@.contains_key(d.id->0)),
    ensures
        after.hidden() == before.hidden(),
        (answer is None) == !is_among(d, before.hidden()),
        is_among(d, before.hidden()) ==> answer == Some(index),
        forall|id: u64| #[trigger]
            after.inner()@.contains_key(id) ==> before.inner()@.contains_key(id) || d.id == Some(
                id,
            ),
{
}

/// What a run says of one of its steps.
proof fn lemma_run_step<T: SharingTracker>(
    nodes: Seq<Node>,
    trace: Seq<T>,
    answers: Seq<Option<usize>>,
    k: int,
    i: int,
)
    requires
        is_run_upto(nodes, trace, answers, k),
        0 <= i < k,
    ensures
        is_run_upto(nodes, trace, answers, i),
        answers[i] == trace[i].answer(&nodes[i], count_new(answers, i) as usize),
        trace[i].follows(&nodes[i], count_new(answers, i) as usize, &trace[i + 1]),
{
    assert(answers[i] == answers[i]);
}

/// Under a tracker that hides the given identities and shares maximally
/// below, the rendered nodes of the first `k` nodes are those by rank, as
/// far as the children of the nodes that need them are drawn.
#[verifier::rlimit(40)]
pub proof fn lemma_compressed_rendering(
    nodes: Seq<Node>,
    top: Map<u64, Value>,
    hidden: Set<u64>,
    trace: Seq<CompressScribe<MaxSharing>>,
    answers: Seq<Option<usize>>,
    k: int,
)
    requires
        well_formed(nodes),
        0 <= k <= nodes.len(),
        trace.len() == nodes.len() + 1,
        answers.len() == nodes.len(),
        is_run_upto(nodes, trace, answers, nodes.len() as int),
        trace[0].hidden() == hidden,
        trace[0].inner()@ == Map::<u64, usize>::empty(),
    ensures
        shared_resolves_upto(nodes, top, answers, k) == resolves_upto(nodes, top, hidden, k),
        resolves_upto(nodes, top, hidden, k) ==> shared_upto(nodes, top, answers, k)
            == numbered_upto(nodes, top, hidden, k),
    decreases k,
{
    lemma_compressed_run(nodes, hidden, trace, answers, nodes.len() as int);
    assert forall|i: int| 0 <= i < nodes.len() implies #[trigger] shared_resolves(
        nodes,
        top,
        answers,
        i,
    ) == resolves(nodes, top, hidden, i) by {
        assert((answers[i] is None) == is_numbered(nodes, hidden, i));
        assert(nodes[i].inner.left() matches Some(c) ==> c < i);
        assert(nodes[i].inner.right() matches Some(c) ==> c < i);
        match nodes[i].inner.left() {
            Some(c) => {
                assert(resolved(answers, c as int) is Some == is_numbered(nodes, hidden, c as int));
            },
            None => {},
        }
        match nodes[i].inner.right() {
            Some(c) => {
                assert(resolved(answers, c as int) is Some == is_numbered(nodes, hidden, c as int));
            },
            None => {},
        }
    }
    if k > 0 {
        lemma_compressed_rendering(nodes, top, hidden, trace, answers, k - 1);
        let i = k - 1;
        assert(shared_resolves(nodes, top, answers, i) == resolves(nodes, top, hidden, i));
        if resolves_upto(nodes, top, hidden, k) {
            assert(resolves(nodes, top, hidden, i));
            assert((answers[i] is None) == is_numbered(nodes, hidden, i));
            assert(count_new(answers, i) == rank(nodes, hidden, i));
            assert(nodes[i].inner.left() matches Some(c) ==> c < i);
            assert(nodes[i].inner.right() matches Some(c) ==> c < i);
            if is_numbered(nodes, hidden, i) && !is_folded(nodes, top, i) {
                match nodes[i].inner.left() {
                    Some(c) => {
                        assert(resolved(answers, c as int) == Some(
                            rank(nodes, hidden, c as int) as usize,
                        ));
                    },
                    None => {},
                }
                match nodes[i].inner.right() {
                    Some(c) => {
                        assert(resolved(answers, c as int) == Some(
                            rank(nodes, hidden, c as int) as usize,
                        ));
                    },
                    None => {},
                }
                assert(shared_entry(nodes, top, answers, i) == numbered_entry(
                    nodes,
                    top,
                    hidden,
                    i,
                ));
            }
        }
    }
}

/// Renders a program with compressed scribe expressions: each of the given
/// scribe expressions is folded into one node, the nodes with the hidden
/// identities get no node of their own, and the rendered nodes are numbered
/// in the order of the program without gaps, their children by the same
/// numbers.
///
/// There is no graph where a node that is to be drawn with its children has
/// a hidden child.
pub fn render_compressed(program: &Dag, top: &HashMap<u64, Value>, hidden: HashSet<u64>) -> (graph:
    Option<RenderGraph>)
    ensures
        graph is Some <==> resolves_upto(program@, top@, hidden@, program@.len() as int),
        graph matches Some(g) ==> g@ == numbered_upto(
            program@,
            top@,
            hidden@,
            program@.len() as int,
        ),
{
    let n = program.len();
    let tracker: CompressScribe<MaxSharing> = CompressScribe::new(hidden);
    let ghost start = tracker;
    let graph = render_shared(program, top, tracker);
    proof {
        let (trace, answers) = choose|trace: Seq<CompressScribe<MaxSharing>>, answers: Seq<Option<usize>>|
            is_rendering(program@, top@, start, trace, answers, graph);
        lemma_compressed_rendering(program@, top@, hidden@, trace, answers, n as int);
    }
    graph
}

/// With the maximal scribe expressions to fold and the other scribe
/// expressions hidden, every node that is drawn with its children has
/// children that are drawn: the rendering with compressed scribe
/// expressions gives a graph.
pub proof fn lemma_compressed_resolves(nodes: Seq<Node>)
    requires
        well_formed(nodes),
    ensures
        resolves_upto(nodes, top_scribe_map(nodes), hidden_set(nodes), nodes.len() as int),
{
    let top = top_scribe_map(nodes);
    let hidden = hidden_set(nodes);
    assert forall|i: int| 0 <= i < nodes.len() implies #[trigger] resolves(
        nodes,
        top,
        hidden,
        i,
    ) by {
        if is_numbered(nodes, hidden, i) && !is_folded(nodes, top, i) {
            lemma_visible_iff_not_hidden(nodes, i);
            if nodes[i].id is Some {
                lemma_top_scribe_map_at(nodes, i);
            }
            assert(!is_scribe(nodes, i));
            match nodes[i].inner.left() {
                Some(c) => {
                    assert(is_child(nodes, i, c as int));
                    lemma_reaches_child(nodes, nodes.len() - 1, i, c as int);
                    lemma_visible_iff_not_hidden(nodes, c as int);
                },
                None => {},
            }
            match nodes[i].inner.right() {
                Some(c) => {
                    assert(is_child(nodes, i, c as int));
                    lemma_reaches_child(nodes, nodes.len() - 1, i, c as int);
                    lemma_visible_iff_not_hidden(nodes, c as int);
                },
                None => {},
            }
        }
    }
}

/// What holds of the rendered nodes by number of the first `k` nodes: each
/// stands at its number, and the number of a child that was needed is below
/// the number of its parent.
pub proof fn lemma_numbered_entries(
    nodes: Seq<Node>,
    top: Map<u64, Value>,
    hidden: Set<u64>,
    k: int,
)
    requires
        well_formed(nodes),
        0 <= k <= nodes.len(),
        resolves_upto(nodes, top, hidden, k),
    ensures
        forall|a: int|
            0 <= a < numbered_upto(nodes, top, hidden, k).len() ==> {
                let e = #[trigger] numbered_upto(nodes, top, hidden, k)[a];
                &&& e.index == a
                &&& e.left matches Some(c) ==> c < a
                &&& e.right matches Some(c) ==> c < a
            },
    decreases k,
{
    if k > 0 {
        lemma_numbered_entries(nodes, top, hidden, k - 1);
        lemma_numbered_len(nodes, top, hidden, k - 1);
        let i = k - 1;
        assert(resolves(nodes, top, hidden, i));
        if is_numbered(nodes, hidden, i) && !is_folded(nodes, top, i) {
            match nodes[i].inner.left() {
                Some(c) => {
                    lemma_rank_rises(nodes, hidden, c as int, i);
                },
                None => {},
            }
            match nodes[i].inner.right() {
                Some(c) => {
                    lemma_rank_rises(nodes, hidden, c as int, i);
                },
                None => {},
            }
        }
    }
}

/// The rendering with compressed scribe expressions draws the nodes that the
/// rendering by reachability draws, with the same labels, in the same order.
pub proof fn lemma_compressed_draws_the_same(nodes: Seq<Node>, k: int)
    requires
        well_formed(nodes),
        0 <= k <= nodes.len(),
    ensures
        numbered_upto(nodes, top_scribe_map(nodes), hidden_set(nodes), k).len() == rendered_upto(
            nodes,
            k,
        ).len(),
        forall|a: int|
            0 <= a < rendered_upto(nodes, k).len() ==> {
                let e = #[trigger] numbered_upto(nodes, top_scribe_map(nodes), hidden_set(nodes), k)[a];
                let r = rendered_upto(nodes, k)[a];
                e.label == r.label && e.annotation == r.annotation && e.literal == r.literal
            },
    decreases k,
{
    if k > 0 {
        lemma_compressed_draws_the_same(nodes, k - 1);
        lemma_visible_iff_not_hidden(nodes, k - 1);
        if nodes[k - 1].id is Some {
            lemma_top_scribe_map_at(nodes, k - 1);
        }
    }
}

} // verus!
