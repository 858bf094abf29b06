//! Scribe expressions: the parts of a program that spell out a constant.

use vstd::prelude::*;
use std::collections::HashMap;
use std::collections::HashSet;
use std::sync::Arc;
use crate::dag::{has_parent, is_child, well_formed, Dag, Inner, Node};
use crate::sharing::{MaxSharing, SharingTracker};
use crate::value::Value;

verus! {

/// The value that the expression rooted at node `i` spells out, if it is a
/// scribe expression: `unit`, a word, or an injection or a pair of scribe
/// expressions. A node without an identity is never one.
pub open spec fn value_at(nodes: Seq<Node>, i: int) -> Option<Value>
    decreases i,
{
    if i < 0 || i >= nodes.len() || nodes[i].id is None {
        None
    } else {
        match nodes[i].inner {
            Inner::Unit => Some(Value::Unit),
            Inner::InjL(c) => if c < i && value_at(nodes, c as int) is Some {
                Some(Value::SumL(Arc::new(value_at(nodes, c as int)->0)))
            } else {
                None
            },
            Inner::InjR(c) => if c < i && value_at(nodes, c as int) is Some {
                Some(Value::SumR(Arc::new(value_at(nodes, c as int)->0)))
            } else {
                None
            },
            Inner::Pair(l, r) => if l < i && r < i && value_at(nodes, l as int) is Some
                && value_at(nodes, r as int) is Some {
                Some(
                    Value::Prod(
                        Arc::new(value_at(nodes, l as int)->0),
                        Arc::new(value_at(nodes, r as int)->0),
                    ),
                )
            } else {
                None
            },
            Inner::Word(v) => Some(v),
            _ => None,
        }
    }
}

/// Whether node `i` is the root of a scribe expression.
pub open spec fn is_scribe(nodes: Seq<Node>, i: int) -> bool {
    0 <= i < nodes.len() && value_at(nodes, i) is Some
}

/// Whether node `i` is the root of a scribe expression with identity `id`.
pub open spec fn is_scribe_with_id(nodes: Seq<Node>, i: int, id: u64) -> bool {
    is_scribe(nodes, i) && nodes[i].id == Some(id)
}

/// The scribe expressions of a program: each identity of one, with the value
/// that it spells out.
pub open spec fn scribe_map(nodes: Seq<Node>) -> Map<u64, Value> {
    Map::new(
        |id: u64| exists|i: int| is_scribe_with_id(nodes, i, id),
        |id: u64| value_at(nodes, choose|i: int| is_scribe_with_id(nodes, i, id))->0,
    )
}

/// In a program, the scribe expression with a given identity is at one node
/// only, so the map holds that node's value.
pub proof fn lemma_scribe_map_at(nodes: Seq<Node>, i: int)
    requires
        well_formed(nodes),
        0 <= i < nodes.len(),
        nodes[i].id is Some,
    ensures
        scribe_map(nodes).contains_key(nodes[i].id->0) <==> is_scribe(nodes, i),
        is_scribe(nodes, i) ==> scribe_map(nodes)[nodes[i].id->0] == value_at(nodes, i)->0,
{
    let id = nodes[i].id->0;
    if is_scribe(nodes, i) {
        assert(is_scribe_with_id(nodes, i, id));
        let k = choose|k: int| is_scribe_with_id(nodes, k, id);
        assert(k == i);
    }
    if scribe_map(nodes).contains_key(id) {
        let k = choose|k: int| is_scribe_with_id(nodes, k, id);
        assert(k == i);
    }
}

/// A copy of the value that a map holds under a key.
fn lookup(values: &HashMap<u64, Value>, id: u64) -> (found: Option<Value>)
    ensures
        found == if values@.contains_key(id) {
            Some(values@[id])
        } else {
            None
        },
{
    broadcast use vstd::std_specs::hash::group_hash_axioms;

    match values.get(&id) {
        Some(value) => Some(value.share()),
        None => None,
    }
}

/// Compute a mapping of scribe expressions to the value that they encode.
///
/// Nodes are visited in dependency order, each once; a node gets a value
/// exactly when its shape calls for one and its children have theirs.
#[verifier::rlimit(40)]
pub fn scribe_values(program: &Dag) -> (values: HashMap<u64, Value>)
    ensures
        values@ == scribe_map(program@),
{
    broadcast use vstd::std_specs::hash::group_hash_axioms;

    let n = program.len();
    let ghost nodes = program@;
    let mut values: HashMap<u64, Value> = HashMap::new();
    let mut i: usize = 0;
    while i < n
        invariant
            nodes == program@,
            n == nodes.len(),
            well_formed(nodes),
            i <= n,
            forall|k: int|
                0 <= k < i && nodes[k].id is Some ==> (values@.contains_key(nodes[k].id->0)
                    <==> #[trigger] is_scribe(nodes, k)),
            forall|k: int|
                0 <= k < i && #[trigger] is_scribe(nodes, k) ==> values@[nodes[k].id->0]
                    == value_at(nodes, k)->0,
            forall|id: u64|
                values@.contains_key(id) ==> exists|k: int|
                    0 <= k < i && #[trigger] is_scribe_with_id(nodes, k, id),
        decreases n - i,
    {
        let node = program.node(i);
        let ghost before = values@;
        i += 1;
        let id = match node.id {
            Some(id) => id,
            None => {
                continue ;
            },
        };
        match &node.inner {
            Inner::Unit => {
                values.insert(id, Value::Unit);
            },
            Inner::InjL(left) => {
                let left_id = program.node(*left).id.unwrap();
                assert(values@.contains_key(left_id) <==> is_scribe(nodes, *left as int));
                if let Some(value) = lookup(&values, left_id) {
                    values.insert(id, Value::SumL(Arc::new(value)));
                }
            },
            Inner::InjR(left) => {
                let left_id = program.node(*left).id.unwrap();
                assert(values@.contains_key(left_id) <==> is_scribe(nodes, *left as int));
                if let Some(value) = lookup(&values, left_id) {
                    values.insert(id, Value::SumR(Arc::new(value)));
                }
            },
            Inner::Pair(left, right) => {
                let left_id = program.node(*left).id.unwrap();
                assert(values@.contains_key(left_id) <==> is_scribe(nodes, *left as int));
                if let Some(value_left) = lookup(&values, left_id) {
                    let right_id = program.node(*right).id.unwrap();
                    assert(values@.contains_key(right_id) <==> is_scribe(nodes, *right as int));
                    if let Some(value_right) = lookup(&values, right_id) {
                        values.insert(
                            id,
                            Value::Prod(Arc::new(value_left), Arc::new(value_right)),
                        );
                    }
                }
            },
            Inner::Word(value) => {
                values.insert(id, value.share());
            },
            _ => {},
        }
        proof {
            let me = (i - 1) as int;
            assert(forall|k: int| 0 <= k < me && nodes[k].id is Some ==> nodes[k].id->0 != id);
            assert(values@.contains_key(id) <==> is_scribe(nodes, me));
            assert(is_scribe(nodes, me) ==> values@[id] == value_at(nodes, me)->0);
            assert forall|j: u64| values@.contains_key(j) implies exists|k: int|
                0 <= k < i && #[trigger] is_scribe_with_id(nodes, k, j) by {
                if j == id {
                    assert(is_scribe_with_id(nodes, me, j));
                } else {
                    assert(before.contains_key(j));
                    let k = choose|k: int| 0 <= k < me && #[trigger] is_scribe_with_id(nodes, k, j);
                    assert(is_scribe_with_id(nodes, k, j));
                }
            }
        }
    }
    proof {
        assert forall|id: u64| values@.contains_key(id) <==> scribe_map(nodes).contains_key(
            id,
        ) by {
            if values@.contains_key(id) {
                let k = choose|k: int| 0 <= k < n && #[trigger] is_scribe_with_id(nodes, k, id);
                assert(is_scribe_with_id(nodes, k, id));
            }
            if scribe_map(nodes).contains_key(id) {
                let k = choose|k: int| is_scribe_with_id(nodes, k, id);
                assert(is_scribe(nodes, k));
            }
        }
        assert forall|id: u64| values@.contains_key(id) implies values@[id] == scribe_map(
            nodes,
        )[id] by {
            let k = choose|k: int| 0 <= k < n && #[trigger] is_scribe_with_id(nodes, k, id);
            lemma_scribe_map_at(nodes, k);
            assert(is_scribe(nodes, k));
        }
        assert(values@ =~= scribe_map(nodes));
    }
    values
}

/// Whether node `i` is reached from node `s` by going from a node to its
/// children, never going below a scribe expression.
pub open spec fn reaches(nodes: Seq<Node>, s: int, i: int) -> bool
    decreases s,
{
    i == s || (0 <= s < nodes.len() && !is_scribe(nodes, s) && (match nodes[s].inner.left() {
        Some(c) => c < s && reaches(nodes, c as int, i),
        None => false,
    } || match nodes[s].inner.right() {
        Some(c) => c < s && reaches(nodes, c as int, i),
        None => false,
    }))
}

/// Whether node `i` is reached from the root without going below a scribe
/// expression.
pub open spec fn visible(nodes: Seq<Node>, i: int) -> bool {
    0 <= i < nodes.len() && reaches(nodes, nodes.len() - 1, i)
}

/// Whether node `i` is a maximal scribe expression with identity `id`: a
/// scribe expression that is reached without going below another.
pub open spec fn is_top_scribe(nodes: Seq<Node>, i: int, id: u64) -> bool {
    visible(nodes, i) && is_scribe_with_id(nodes, i, id)
}

/// The maximal scribe expressions of a program, each with its value.
pub open spec fn top_scribe_map(nodes: Seq<Node>) -> Map<u64, Value> {
    Map::new(
        |id: u64| exists|i: int| is_top_scribe(nodes, i, id),
        |id: u64| scribe_map(nodes)[id],
    )
}

/// The identities of the scribe expressions that are not maximal.
pub open spec fn hidden_set(nodes: Seq<Node>) -> Set<u64> {
    Set::new(
        |id: u64| scribe_map(nodes).contains_key(id) && !top_scribe_map(nodes).contains_key(id),
    )
}

/// The number of nodes of the tree that unfolds from node `i`.
pub open spec fn tree_size(nodes: Seq<Node>, i: int) -> nat
    decreases i,
{
    if i < 0 || i >= nodes.len() {
        0
    } else {
        1 + match nodes[i].inner.left() {
            Some(c) => if c < i {
                tree_size(nodes, c as int)
            } else {
                0
            },
            None => 0,
        } + match nodes[i].inner.right() {
            Some(c) => if c < i {
                tree_size(nodes, c as int)
            } else {
                0
            },
            None => 0,
        }
    }
}

/// The sizes of the trees that unfold from the nodes of a stack, summed.
pub open spec fn stack_size(nodes: Seq<Node>, stack: Seq<usize>) -> nat
    decreases stack.len(),
{
    if stack.len() == 0 {
        0
    } else {
        stack_size(nodes, stack.drop_last()) + tree_size(nodes, stack.last() as int)
    }
}

/// Pushing a node on a stack adds the size of its tree.
pub proof fn lemma_stack_size_push(nodes: Seq<Node>, stack: Seq<usize>, c: usize)
    ensures
        stack_size(nodes, stack.push(c)) == stack_size(nodes, stack) + tree_size(nodes, c as int),
{
    assert(stack.push(c).drop_last() =~= stack);
}

/// What is reached from a node that is no scribe expression includes what is
/// reached from its children.
pub proof fn lemma_reaches_child(nodes: Seq<Node>, r: int, s: int, c: int)
    requires
        reaches(nodes, r, s),
        0 <= s < nodes.len(),
        !is_scribe(nodes, s),
        c < s,
        is_child(nodes, s, c),
    ensures
        reaches(nodes, r, c),
    decreases r,
{
    if r == s {
        assert(reaches(nodes, c, c));
    } else {
        match nodes[r].inner.left() {
            Some(l) => {
                if l < r && reaches(nodes, l as int, s) {
                    lemma_reaches_child(nodes, l as int, s, c);
                }
            },
            None => {},
        }
        match nodes[r].inner.right() {
            Some(l) => {
                if l < r && reaches(nodes, l as int, s) {
                    lemma_reaches_child(nodes, l as int, s, c);
                }
            },
            None => {},
        }
    }
}

/// Compute a mapping of scribe expressions to the value that they encode.
/// These expressions are maximal, so one expression is never contained in another expression.
///
/// Also return the set of subexpressions that are hidden inside a larger scribe.
#[verifier::rlimit(40)]
pub fn scribe_values_hidden(program: &Dag) -> (maps: (HashMap<u64, Value>, HashSet<u64>))
    ensures
        maps.0@ == top_scribe_map(program@),
        maps.1@ == hidden_set(program@),
        maps.0@.dom().disjoint(maps.1@),
        maps.0@.dom().union(maps.1@) == scribe_map(program@).dom(),
{
    broadcast use vstd::std_specs::hash::group_hash_axioms;

    let scribe_values = scribe_values(program);
    let n = program.len();
    let ghost nodes = program@;
    let mut top_scribe_values: HashMap<u64, Value> = HashMap::new();
    let mut scribe_hidden: HashSet<u64> = HashSet::new();
    let mut i: usize = 0;
    while i < n
        invariant
            nodes == program@,
            n == nodes.len(),
            well_formed(nodes),
            scribe_values@ == scribe_map(nodes),
            i <= n,
            forall|id: u64| scribe_hidden@.contains(id) ==> scribe_map(nodes).contains_key(id),
            forall|k: int|
                0 <= k < i && #[trigger] is_scribe(nodes, k) ==> scribe_hidden@.contains(
                    nodes[k].id->0,
                ),
        decreases n - i,
    {
        if let Some(id) = program.node(i).id {
            proof {
                lemma_scribe_map_at(nodes, i as int);
            }
            if scribe_values.contains_key(&id) {
                scribe_hidden.insert(id);
            }
        }
        i += 1;
    }
    proof {
        assert forall|id: u64| scribe_map(nodes).contains_key(id) implies scribe_hidden@.contains(
            id,
        ) by {
            let k = choose|k: int| is_scribe_with_id(nodes, k, id);
            assert(is_scribe(nodes, k));
        }
    }
    let mut stack: Vec<usize> = Vec::new();
    stack.push(program.root());
    proof {
        assert(reaches(nodes, n - 1, n - 1));
        assert forall|j: int| visible(nodes, j) && #[trigger] is_scribe(nodes, j) implies exists|
            k: int,
        |
            0 <= k < stack@.len() && reaches(nodes, #[trigger] stack@[k] as int, j) by {
            assert(reaches(nodes, stack@[0] as int, j));
        }
    }
    while stack.len() > 0
        invariant
            nodes == program@,
            n == nodes.len(),
            well_formed(nodes),
            scribe_values@ == scribe_map(nodes),
            forall|k: int| 0 <= k < stack@.len() ==> visible(nodes, #[trigger] stack@[k] as int),
            forall|id: u64| #[trigger]
                top_scribe_values@.contains_key(id) ==> top_scribe_map(nodes).contains_key(id)
                    && top_scribe_values@[id] == scribe_map(nodes)[id],
            forall|id: u64| #[trigger]
                scribe_hidden@.contains(id) <==> scribe_map(nodes).contains_key(id)
                    && !top_scribe_values@.contains_key(id),
            forall|j: int|
                visible(nodes, j) && #[trigger] is_scribe(nodes, j)
                    ==> top_scribe_values@.contains_key(nodes[j].id->0) || exists|k: int|
                    0 <= k < stack@.len() && reaches(nodes, #[trigger] stack@[k] as int, j),
        decreases stack_size(nodes, stack@),
    {
        let ghost old_stack = stack@;
        let ghost old_top = top_scribe_values@;
        let top = stack.pop().unwrap();
        let ghost rest = stack@;
        assert(rest =~= old_stack.drop_last());
        assert(visible(nodes, old_stack[old_stack.len() - 1] as int));
        let node = program.node(top);
        let mut found: Option<Value> = None;
        if let Some(id) = node.id {
            proof {
                lemma_scribe_map_at(nodes, top as int);
            }
            found = lookup(&scribe_values, id);
        }
        if let Some(value) = found {
            let id = node.id.unwrap();
            top_scribe_values.insert(id, value);
            scribe_hidden.remove(&id);
            proof {
                assert(is_top_scribe(nodes, top as int, id));
                assert forall|j: int| visible(nodes, j) && #[trigger] is_scribe(nodes, j) implies (
                top_scribe_values@.contains_key(nodes[j].id->0) || exists|k: int|
                    0 <= k < stack@.len() && reaches(nodes, #[trigger] stack@[k] as int, j)) by {
                    if !old_top.contains_key(nodes[j].id->0) {
                        let k = choose|k: int|
                            0 <= k < old_stack.len() && reaches(
                                nodes,
                                #[trigger] old_stack[k] as int,
                                j,
                            );
                        if k == old_stack.len() - 1 {
                            assert(j == top);
                        } else {
                            assert(reaches(nodes, stack@[k] as int, j));
                        }
                    }
                }
            }
            continue ;
        }
        proof {
            assert(!is_scribe(nodes, top as int));
        }
        if let Some(right) = node.inner.right_child() {
            proof {
                lemma_reaches_child(nodes, n - 1, top as int, right as int);
                lemma_stack_size_push(nodes, stack@, right);
            }
            stack.push(right);
        }
        if let Some(left) = node.inner.left_child() {
            proof {
                lemma_reaches_child(nodes, n - 1, top as int, left as int);
                lemma_stack_size_push(nodes, stack@, left);
            }
            stack.push(left);
        }
        proof {
            assert forall|j: int| visible(nodes, j) && #[trigger] is_scribe(nodes, j) implies (
            top_scribe_values@.contains_key(nodes[j].id->0) || exists|k: int|
                0 <= k < stack@.len() && reaches(nodes, #[trigger] stack@[k] as int, j)) by {
                if !old_top.contains_key(nodes[j].id->0) {
                    let k = choose|k: int|
                        0 <= k < old_stack.len() && reaches(
                            nodes,
                            #[trigger] old_stack[k] as int,
                            j,
                        );
                    if k == old_stack.len() - 1 {
                        assert(j != top);
                        let via_right = match nodes[top as int].inner.right() {
                            Some(c) => c < top && reaches(nodes, c as int, j),
                            None => false,
                        };
                        if via_right {
                            assert(stack@[rest.len() as int] == nodes[top as int].inner.right()->0);
                            assert(reaches(nodes, stack@[rest.len() as int] as int, j));
                        } else {
                            let last = stack@.len() - 1;
                            assert(stack@[last] == nodes[top as int].inner.left()->0);
                            assert(reaches(nodes, stack@[last] as int, j));
                        }
                    } else {
                        assert(stack@[k] == old_stack[k]);
                        assert(reaches(nodes, stack@[k] as int, j));
                    }
                }
            }
        }
    }
    proof {
        assert forall|id: u64| top_scribe_map(nodes).contains_key(id) implies top_scribe_values@.contains_key(
            id,
        ) by {
            let j = choose|j: int| is_top_scribe(nodes, j, id);
            assert(is_scribe(nodes, j));
        }
        assert(top_scribe_values@ =~= top_scribe_map(nodes));
        assert(scribe_hidden@ =~= hidden_set(nodes));
        lemma_top_and_hidden_partition(nodes);
    }
    (top_scribe_values, scribe_hidden)
}

/// Whether node `d` lies below node `a`: whether it is a child of `a`, or a
/// child of a child, and so on.
pub open spec fn is_below(nodes: Seq<Node>, a: int, d: int) -> bool
    decreases a,
{
    0 <= a < nodes.len() && (match nodes[a].inner.left() {
        Some(c) => c < a && (c == d || is_below(nodes, c as int, d)),
        None => false,
    } || match nodes[a].inner.right() {
        Some(c) => c < a && (c == d || is_below(nodes, c as int, d)),
        None => false,
    })
}

/// The children of a scribe expression are scribe expressions.
pub proof fn lemma_child_of_scribe(nodes: Seq<Node>, p: int, c: int)
    requires
        is_scribe(nodes, p),
        0 <= c < p,
        is_child(nodes, p, c),
    ensures
        is_scribe(nodes, c),
{
}

/// All that lies below a scribe expression is a scribe expression, and comes
/// before it.
pub proof fn lemma_below_scribe(nodes: Seq<Node>, a: int, d: int)
    requires
        well_formed(nodes),
        is_scribe(nodes, a),
        is_below(nodes, a, d),
    ensures
        is_scribe(nodes, d),
        d < a,
    decreases a,
{
    match nodes[a].inner.left() {
        Some(c) => {
            if c < a && (c == d || is_below(nodes, c as int, d)) {
                assert(nodes[a].inner.left() matches Some(x) ==> x < a);
                assert(is_child(nodes, a, c as int));
                lemma_child_of_scribe(nodes, a, c as int);
                if c != d {
                    lemma_below_scribe(nodes, c as int, d);
                }
            }
        },
        None => {},
    }
    match nodes[a].inner.right() {
        Some(c) => {
            if c < a && (c == d || is_below(nodes, c as int, d)) {
                assert(is_child(nodes, a, c as int));
                lemma_child_of_scribe(nodes, a, c as int);
                if c != d {
                    lemma_below_scribe(nodes, c as int, d);
                }
            }
        },
        None => {},
    }
}

/// A node that is reached from another without going below a scribe
/// expression is the child of a node that is reached so and is no scribe
/// expression.
pub proof fn lemma_reached_through_parent(nodes: Seq<Node>, r: int, j: int) -> (p: int)
    requires
        reaches(nodes, r, j),
        j != r,
    ensures
        0 <= p < nodes.len(),
        0 <= j < p,
        is_child(nodes, p, j),
        !is_scribe(nodes, p),
        reaches(nodes, r, p),
    decreases r,
{
    let via_left = match nodes[r].inner.left() {
        Some(c) => c < r && reaches(nodes, c as int, j),
        None => false,
    };
    let c = if via_left {
        nodes[r].inner.left()->0
    } else {
        nodes[r].inner.right()->0
    };
    if c == j {
        r
    } else {
        let p = lemma_reached_through_parent(nodes, c as int, j);
        p
    }
}

/// In a program every node that is no scribe expression is reached from the
/// root without going below a scribe expression.
pub proof fn lemma_others_are_visible(nodes: Seq<Node>, i: int)
    requires
        well_formed(nodes),
        0 <= i < nodes.len(),
        !is_scribe(nodes, i),
    ensures
        visible(nodes, i),
    decreases nodes.len() - i,
{
    if i < nodes.len() - 1 {
        assert(has_parent(nodes, i));
        let p = choose|p: int| i < p < nodes.len() && #[trigger] is_child(nodes, p, i);
        if is_scribe(nodes, p) {
            lemma_child_of_scribe(nodes, p, i);
        }
        lemma_others_are_visible(nodes, p);
        lemma_reaches_child(nodes, nodes.len() - 1, p, i);
    }
}

/// A scribe expression is maximal exactly if it is the root or the child of
/// a node that is no scribe expression.
pub proof fn lemma_maximal_scribes(nodes: Seq<Node>, j: int)
    requires
        well_formed(nodes),
        is_scribe(nodes, j),
    ensures
        visible(nodes, j) <==> (j == nodes.len() - 1 || exists|p: int|
            0 <= p < nodes.len() && #[trigger] is_child(nodes, p, j) && !is_scribe(nodes, p)),
{
    if visible(nodes, j) && j != nodes.len() - 1 {
        let p = lemma_reached_through_parent(nodes, nodes.len() - 1, j);
        assert(is_child(nodes, p, j) && !is_scribe(nodes, p));
    }
    if j != nodes.len() - 1 && exists|p: int|
        0 <= p < nodes.len() && #[trigger] is_child(nodes, p, j) && !is_scribe(nodes, p) {
        let p = choose|p: int|
            0 <= p < nodes.len() && #[trigger] is_child(nodes, p, j) && !is_scribe(nodes, p);
        lemma_others_are_visible(nodes, p);
        assert(nodes[p].inner.left() matches Some(c) ==> c < p);
        assert(nodes[p].inner.right() matches Some(c) ==> c < p);
        lemma_reaches_child(nodes, nodes.len() - 1, p, j);
    }
}

/// The identity of a node is among the maximal scribe expressions exactly
/// if the node is one.
pub proof fn lemma_top_scribe_map_at(nodes: Seq<Node>, i: int)
    requires
        well_formed(nodes),
        0 <= i < nodes.len(),
        nodes[i].id is Some,
    ensures
        top_scribe_map(nodes).contains_key(nodes[i].id->0) <==> visible(nodes, i) && is_scribe(
            nodes,
            i,
        ),
        visible(nodes, i) && is_scribe(nodes, i) ==> top_scribe_map(nodes)[nodes[i].id->0]
            == value_at(nodes, i)->0,
{
    let id = nodes[i].id->0;
    lemma_scribe_map_at(nodes, i);
    if visible(nodes, i) && is_scribe(nodes, i) {
        assert(is_top_scribe(nodes, i, id));
    }
    if top_scribe_map(nodes).contains_key(id) {
        let k = choose|k: int| is_top_scribe(nodes, k, id);
        assert(k == i);
    }
}

/// Maximality: a node that lies below a maximal scribe expression, and
/// whose parents are all scribe expressions, is not itself among the maximal
/// ones.
pub proof fn lemma_top_is_maximal(nodes: Seq<Node>, i: int, j: int)
    requires
        well_formed(nodes),
        0 <= i < nodes.len(),
        nodes[i].id is Some,
        top_scribe_map(nodes).contains_key(nodes[i].id->0),
        is_below(nodes, i, j),
        forall|p: int| 0 <= p < nodes.len() && #[trigger] is_child(nodes, p, j) ==> is_scribe(nodes, p),
    ensures
        0 <= j < i,
        nodes[j].id is Some,
        !top_scribe_map(nodes).contains_key(nodes[j].id->0),
{
    lemma_top_scribe_map_at(nodes, i);
    lemma_below_scribe(nodes, i, j);
    lemma_maximal_scribes(nodes, j);
    lemma_top_scribe_map_at(nodes, j);
}

/// Partition: every scribe expression is either maximal or hidden, never
/// both, and the maximal ones have the values of the scribe map.
pub proof fn lemma_top_and_hidden_partition(nodes: Seq<Node>)
    ensures
        top_scribe_map(nodes).dom().disjoint(hidden_set(nodes)),
        top_scribe_map(nodes).dom().union(hidden_set(nodes)) == scribe_map(nodes).dom(),
        top_scribe_map(nodes).submap_of(scribe_map(nodes)),
{
    assert forall|id: u64| top_scribe_map(nodes).contains_key(id) implies scribe_map(
        nodes,
    ).contains_key(id) by {
        let i = choose|i: int| is_top_scribe(nodes, i, id);
        assert(is_scribe_with_id(nodes, i, id));
    }
    assert(top_scribe_map(nodes).dom().union(hidden_set(nodes)) =~= scribe_map(nodes).dom());
}

/// Every hidden scribe expression lies below a maximal one.
pub proof fn lemma_hidden_lies_below_top(nodes: Seq<Node>, j: int) -> (i: int)
    requires
        well_formed(nodes),
        is_scribe(nodes, j),
        !visible(nodes, j),
    ensures
        visible(nodes, i),
        is_scribe(nodes, i),
        is_below(nodes, i, j),
    decreases nodes.len() - j,
{
    assert(reaches(nodes, nodes.len() - 1, nodes.len() - 1));
    assert(has_parent(nodes, j));
    let p = choose|p: int| j < p < nodes.len() && #[trigger] is_child(nodes, p, j);
    if !is_scribe(nodes, p) {
        lemma_maximal_scribes(nodes, j);
    }
    assert(nodes[p].inner.left() matches Some(c) ==> c < p);
    assert(nodes[p].inner.right() matches Some(c) ==> c < p);
    assert(is_below(nodes, p, j));
    if visible(nodes, p) {
        p
    } else {
        let i = lemma_hidden_lies_below_top(nodes, p);
        lemma_below_trans(nodes, i, p, j);
        i
    }
}

/// What lies below a node that lies below another lies below that other.
pub proof fn lemma_below_trans(nodes: Seq<Node>, a: int, b: int, c: int)
    requires
        is_below(nodes, a, b),
        is_below(nodes, b, c),
    ensures
        is_below(nodes, a, c),
    decreases a,
{
    match nodes[a].inner.left() {
        Some(x) => {
            if x < a && x != b && is_below(nodes, x as int, b) {
                lemma_below_trans(nodes, x as int, b, c);
            }
        },
        None => {},
    }
    match nodes[a].inner.right() {
        Some(x) => {
            if x < a && x != b && is_below(nodes, x as int, b) {
                lemma_below_trans(nodes, x as int, b, c);
            }
        },
        None => {},
    }
}

/// Whether the shape of node `i` makes a scribe expression of scribe
/// expressions: `unit` and a word need nothing, an injection needs its
/// child to be one, a pair both of its children.
pub open spec fn children_make_scribe(nodes: Seq<Node>, i: int) -> bool {
    match nodes[i].inner {
        Inner::Unit | Inner::Word(_) => true,
        Inner::InjL(c) | Inner::InjR(c) => is_scribe(nodes, c as int),
        Inner::Pair(l, r) => is_scribe(nodes, l as int) && is_scribe(nodes, r as int),
        _ => false,
    }
}

/// A node with an identity has an entry in the scribe map exactly if its
/// shape makes a scribe expression of its children.
pub proof fn lemma_scribe_iff_children(nodes: Seq<Node>, i: int)
    requires
        well_formed(nodes),
        0 <= i < nodes.len(),
        nodes[i].id is Some,
    ensures
        scribe_map(nodes).contains_key(nodes[i].id->0) <==> children_make_scribe(nodes, i),
{
    lemma_scribe_map_at(nodes, i);
    assert(nodes[i].inner.left() matches Some(c) ==> c < i);
    assert(nodes[i].inner.right() matches Some(c) ==> c < i);
}

/// Whether nodes are a path from the root: each the child of the one before.
pub open spec fn is_path(nodes: Seq<Node>, path: Seq<int>) -> bool {
    &&& path.len() > 0
    &&& path[0] == nodes.len() - 1
    &&& forall|k: int| 0 <= k < path.len() ==> 0 <= #[trigger] path[k] < nodes.len()
    &&& forall|k: int| 0 <= k < path.len() - 1 ==> is_child(nodes, path[k], #[trigger] path[k + 1])
}

/// On every path from the root to a scribe expression, the first scribe
/// expression is a maximal one; so a hidden scribe expression is met only
/// behind a maximal one.
pub proof fn lemma_path_meets_top_first(nodes: Seq<Node>, path: Seq<int>) -> (t: int)
    requires
        well_formed(nodes),
        is_path(nodes, path),
        is_scribe(nodes, path.last()),
    ensures
        0 <= t < path.len(),
        visible(nodes, path[t]),
        is_scribe(nodes, path[t]),
        forall|k: int| 0 <= k < t ==> !is_scribe(nodes, #[trigger] path[k]),
        !visible(nodes, path.last()) ==> t < path.len() - 1,
    decreases path.len(),
{
    let root = nodes.len() - 1;
    assert(reaches(nodes, root, root));
    if path.len() == 1 {
        0
    } else {
        let before = path.drop_last();
        let last = path.len() - 1;
        assert(before[0] == path[0]);
        assert forall|k: int| 0 <= k < before.len() - 1 implies is_child(
            nodes,
            before[k],
            #[trigger] before[k + 1],
        ) by {
            assert(is_child(nodes, path[k], path[k + 1]));
        }
        assert(is_child(nodes, path[last - 1], path[last - 1 + 1]));
        if is_scribe(nodes, before.last()) {
            let t = lemma_path_meets_top_first(nodes, before);
            assert(path[t] == before[t]);
            assert forall|k: int| 0 <= k < t implies !is_scribe(nodes, #[trigger] path[k]) by {
                assert(path[k] == before[k]);
            }
            t
        } else {
            lemma_others_are_visible(nodes, before.last());
            assert(nodes[before.last()].inner.left() matches Some(c) ==> c < before.last());
            assert(nodes[before.last()].inner.right() matches Some(c) ==> c < before.last());
            lemma_reaches_child(nodes, root, before.last(), path.last());
            assert forall|k: int| 0 <= k < last implies !is_scribe(nodes, #[trigger] path[k]) by {
                lemma_no_scribe_above(nodes, path, k, last - 1);
            }
            last
        }
    }
}

/// On a path, the nodes before one that is no scribe expression are none
/// either.
pub proof fn lemma_no_scribe_above(nodes: Seq<Node>, path: Seq<int>, k: int, m: int)
    requires
        well_formed(nodes),
        is_path(nodes, path),
        0 <= k <= m < path.len(),
        !is_scribe(nodes, path[m]),
    ensures
        !is_scribe(nodes, path[k]),
    decreases m - k,
{
    if k < m {
        lemma_no_scribe_above(nodes, path, k + 1, m);
        assert(is_child(nodes, path[k], path[k + 1]));
        if is_scribe(nodes, path[k]) {
            assert(nodes[path[k]].inner.left() matches Some(c) ==> c < path[k]);
            assert(nodes[path[k]].inner.right() matches Some(c) ==> c < path[k]);
            lemma_child_of_scribe(nodes, path[k], path[k + 1]);
        }
    }
}

/// Sharing with compressed scribe expressions:
///
/// If a subgraph encodes scribe, then only the root is visible and the nodes below are invisible.
/// For all other nodes, the DAG is shared according to the tracker `T`.
#[derive(Debug)]
pub struct CompressScribe<T> {
    tracker: T,
    scribe_hidden: HashSet<u64>,
}

/// Whether the identity of a node is one of a set.
pub open spec fn is_among(d: &Node, ids: Set<u64>) -> bool {
    d.id is Some && ids.contains(d.id->0)
}

impl<T> CompressScribe<T> {
    /// The identities that the tracker hides.
    pub closed spec fn hidden(&self) -> Set<u64> {
        self.scribe_hidden@
    }

    /// The tracker that shares the nodes that are not hidden.
    pub closed spec fn inner(&self) -> T {
        self.tracker
    }
}

impl<T: Default> CompressScribe<T> {
    /// Create a new sharing tracker from the set of subexpressions that are hidden inside scribe.
    pub fn new(scribe_hidden: HashSet<u64>) -> (tracker: Self)
        ensures
            tracker.hidden() == scribe_hidden@,
            call_ensures(T::default, (), tracker.inner()),
    {
        Self { tracker: T::default(), scribe_hidden }
    }
}

impl<T: SharingTracker> SharingTracker for CompressScribe<T> {
    /// A hidden node is never handed to the tracker below, so what was seen
    /// is what that tracker has seen.
    open spec fn seen(&self, d: &Node) -> Option<usize> {
        self.inner().seen(d)
    }

    /// A hidden node is not to be numbered: it is answered with the index at
    /// hand. Any other node is answered by the tracker below.
    open spec fn answer(&self, d: &Node, index: usize) -> Option<usize> {
        if is_among(d, self.hidden()) {
            Some(index)
        } else {
            self.inner().answer(d, index)
        }
    }

    /// The hidden identities stay; the tracker below stays as it is for a
    /// hidden node, and records any other.
    open spec fn follows(&self, d: &Node, index: usize, next: &Self) -> bool {
        &&& next.hidden() == self.hidden()
        &&& if is_among(d, self.hidden()) {
            next.inner() == self.inner()
        } else {
            self.inner().follows(d, index, &next.inner())
        }
    }

    fn record(&mut self, d: &Node, index: usize) -> (r: Option<usize>) {
        broadcast use vstd::std_specs::hash::group_hash_axioms;

        let hidden = match d.id {
            Some(id) => self.scribe_hidden.contains(&id),
            None => false,
        };
        if hidden {
            Some(index)
        } else {
            self.tracker.record(d, index)
        }
    }

    fn seen_before(&self, d: &Node) -> (r: Option<usize>) {
        self.tracker.seen_before(d)
    }
}

/// Whether a tracker with maximal sharing below holds no hidden identity.
pub open spec fn keeps_hidden_out(tracker: &CompressScribe<MaxSharing>) -> bool {
    tracker.inner()@.dom().disjoint(tracker.hidden())
}

/// A tracker with maximal sharing below that holds no hidden identity holds
/// none after it recorded a node, and it has never seen a hidden node: a
/// hidden node cannot stand in for a node that is drawn.
pub proof fn lemma_hidden_is_never_shared(
    before: &CompressScribe<MaxSharing>,
    d: &Node,
    index: usize,
    after: &CompressScribe<MaxSharing>,
    hidden: &Node,
)
    requires
        keeps_hidden_out(before),
        before.follows(d, index, after),
        is_among(hidden, before.hidden()),
    ensures
        keeps_hidden_out(after),
        before.seen(hidden) is None,
        after.seen(hidden) is None,
{
}

} // verus!
