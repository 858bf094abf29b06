//! What the combinators of a program compute, as far as that is a function
//! of the input alone, and that a scribe expression computes its value.

use vstd::prelude::*;
use std::sync::Arc;
use crate::compress::{is_scribe, lemma_top_scribe_map_at, top_scribe_map, value_at};
use crate::dag::{well_formed, Inner, Node};
use crate::value::Value;

verus! {

/// The output of the expression rooted at node `i` on an input. There is
/// none where the input does not fit the expression, and none for `witness`,
/// `fail`, `disconnect` and the jets, whose output is not given by the
/// program and its input alone.
pub open spec fn eval(nodes: Seq<Node>, i: int, input: Value) -> Option<Value>
    decreases i,
{
    if i < 0 || i >= nodes.len() {
        None
    } else {
        match nodes[i].inner {
            Inner::Iden => Some(input),
            Inner::Unit => Some(Value::Unit),
            Inner::InjL(c) => if c < i && eval(nodes, c as int, input) is Some {
                Some(Value::SumL(Arc::new(eval(nodes, c as int, input)->0)))
            } else {
                None
            },
            Inner::InjR(c) => if c < i && eval(nodes, c as int, input) is Some {
                Some(Value::SumR(Arc::new(eval(nodes, c as int, input)->0)))
            } else {
                None
            },
            Inner::Take(c) => match input {
                Value::Prod(a, _) => if c < i {
                    eval(nodes, c as int, *a)
                } else {
                    None
                },
                _ => None,
            },
            Inner::Drop(c) => match input {
                Value::Prod(_, b) => if c < i {
                    eval(nodes, c as int, *b)
                } else {
                    None
                },
                _ => None,
            },
            Inner::Comp(l, r) => if l < i && r < i && eval(nodes, l as int, input) is Some {
                eval(nodes, r as int, eval(nodes, l as int, input)->0)
            } else {
                None
            },
            Inner::Case(l, r) => match input {
                Value::Prod(s, c) => match *s {
                    Value::SumL(a) => if l < i {
                        eval(nodes, l as int, Value::Prod(a, c))
                    } else {
                        None
                    },
                    Value::SumR(b) => if r < i {
                        eval(nodes, r as int, Value::Prod(b, c))
                    } else {
                        None
                    },
                    _ => None,
                },
                _ => None,
            },
            Inner::AssertL(l) => match input {
                Value::Prod(s, c) => match *s {
                    Value::SumL(a) => if l < i {
                        eval(nodes, l as int, Value::Prod(a, c))
                    } else {
                        None
                    },
                    _ => None,
                },
                _ => None,
            },
            Inner::AssertR(r) => match input {
                Value::Prod(s, c) => match *s {
                    Value::SumR(b) => if r < i {
                        eval(nodes, r as int, Value::Prod(b, c))
                    } else {
                        None
                    },
                    _ => None,
                },
                _ => None,
            },
            Inner::Pair(l, r) => if l < i && r < i && eval(nodes, l as int, input) is Some
                && eval(nodes, r as int, input) is Some {
                Some(
                    Value::Prod(
                        Arc::new(eval(nodes, l as int, input)->0),
                        Arc::new(eval(nodes, r as int, input)->0),
                    ),
                )
            } else {
                None
            },
            Inner::Word(v) => Some(v),
            Inner::Disconnect(_, _) | Inner::Witness | Inner::Fail | Inner::Jet => None,
        }
    }
}

/// A scribe expression returns its value on every input.
pub proof fn lemma_scribe_evaluates_to_value(nodes: Seq<Node>, i: int, input: Value)
    requires
        is_scribe(nodes, i),
    ensures
        eval(nodes, i, input) == value_at(nodes, i),
    decreases i,
{
    match nodes[i].inner {
        Inner::InjL(c) => {
            lemma_scribe_evaluates_to_value(nodes, c as int, input);
        },
        Inner::InjR(c) => {
            lemma_scribe_evaluates_to_value(nodes, c as int, input);
        },
        Inner::Pair(l, r) => {
            lemma_scribe_evaluates_to_value(nodes, l as int, input);
            lemma_scribe_evaluates_to_value(nodes, r as int, input);
        },
        _ => {},
    }
}

/// Soundness: the expression rooted at a maximal scribe expression returns,
/// on every input, the value that the map of maximal scribe expressions
/// holds for its identity.
pub proof fn lemma_top_values_are_sound(nodes: Seq<Node>, i: int, input: Value)
    requires
        well_formed(nodes),
        0 <= i < nodes.len(),
        nodes[i].id is Some,
        top_scribe_map(nodes).contains_key(nodes[i].id->0),
    ensures
        eval(nodes, i, input) == Some(top_scribe_map(nodes)[nodes[i].id->0]),
{
    lemma_top_scribe_map_at(nodes, i);
    lemma_scribe_evaluates_to_value(nodes, i, input);
}

} // verus!
