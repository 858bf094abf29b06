//! Sharing policies: how a traversal that numbers the nodes of a program
//! decides whether a node was numbered before.

use vstd::prelude::*;
use std::collections::HashMap;
use crate::dag::Node;

verus! {

/// How much sharing to do when numbering the nodes of a program.
///
/// A tracker records nodes as they are numbered and looks them up again. If
/// it says that a node has been seen before, the node gets no number of its
/// own.
pub trait SharingTracker: Sized {
    /// What `seen_before` answers for a node.
    spec fn seen(&self, d: &Node) -> Option<usize>;

    /// What `record` answers for a node and the index at hand.
    spec fn answer(&self, d: &Node, index: usize) -> Option<usize>;

    /// Whether `next` is the tracker that `record` leaves behind.
    spec fn follows(&self, d: &Node, index: usize, next: &Self) -> bool;

    /// Marks a node as having been seen, and records the index when it was
    /// seen. The answer is `None` where the node is new, and an index where
    /// it is not to be numbered.
    fn record(&mut self, d: &Node, index: usize) -> (r: Option<usize>)
        ensures
            r == old(self).answer(d, index),
            old(self).follows(d, index, final(self)),
    ;

    /// Checks whether a node has been seen before; if so, gives the index it
    /// was recorded at.
    fn seen_before(&self, d: &Node) -> (r: Option<usize>)
        ensures
            r == self.seen(d),
    ;
}

/// Do not share at all: every node is new.
#[derive(Clone, Debug)]
pub struct NoSharing;

impl SharingTracker for NoSharing {
    open spec fn seen(&self, d: &Node) -> Option<usize> {
        None
    }

    open spec fn answer(&self, d: &Node, index: usize) -> Option<usize> {
        None
    }

    open spec fn follows(&self, d: &Node, index: usize, next: &Self) -> bool {
        true
    }

    fn record(&mut self, d: &Node, index: usize) -> (r: Option<usize>) {
        None
    }

    fn seen_before(&self, d: &Node) -> (r: Option<usize>) {
        None
    }
}

impl Default for NoSharing {
    fn default() -> (tracker: NoSharing) {
        NoSharing
    }
}

/// Maximal sharing: share every node that has an identity, by its identity.
/// A node without an identity is never shared.
#[derive(Debug)]
pub struct MaxSharing {
    map: HashMap<u64, usize>,
}

impl View for MaxSharing {
    type V = Map<u64, usize>;

    closed spec fn view(&self) -> Map<u64, usize> {
        self.map@
    }
}

/// The index that a table of identities holds for a node.
pub open spec fn lookup(table: Map<u64, usize>, d: &Node) -> Option<usize> {
    if d.id is Some && table.contains_key(d.id->0) {
        Some(table[d.id->0])
    } else {
        None
    }
}

/// The table of identities after a node was recorded: the node is entered
/// where it has an identity that the table does not hold.
pub open spec fn entered(table: Map<u64, usize>, d: &Node, index: usize) -> Map<u64, usize> {
    if d.id is Some && !table.contains_key(d.id->0) {
        table.insert(d.id->0, index)
    } else {
        table
    }
}

impl MaxSharing {
    /// A tracker that has seen nothing.
    pub fn new() -> (tracker: MaxSharing)
        ensures
            tracker@ == Map::<u64, usize>::empty(),
    {
        MaxSharing { map: HashMap::new() }
    }
}

impl Default for MaxSharing {
    fn default() -> (tracker: MaxSharing)
        ensures
            tracker@ == Map::<u64, usize>::empty(),
    {
        MaxSharing::new()
    }
}

impl SharingTracker for MaxSharing {
    open spec fn seen(&self, d: &Node) -> Option<usize> {
        lookup(self@, d)
    }

    open spec fn answer(&self, d: &Node, index: usize) -> Option<usize> {
        lookup(self@, d)
    }

    open spec fn follows(&self, d: &Node, index: usize, next: &Self) -> bool {
        next@ == entered(self@, d, index)
    }

    fn record(&mut self, d: &Node, index: usize) -> (r: Option<usize>) {
        broadcast use vstd::std_specs::hash::group_hash_axioms;

        let id = match d.id {
            Some(id) => id,
            None => {
                return None;
            },
        };
        let found = match self.map.get(&id) {
            Some(at) => Some(*at),
            None => None,
        };
        if found.is_none() {
            self.map.insert(id, index);
        }
        found
    }

    fn seen_before(&self, d: &Node) -> (r: Option<usize>) {
        broadcast use vstd::std_specs::hash::group_hash_axioms;

        match d.id {
            Some(id) => match self.map.get(&id) {
                Some(at) => Some(*at),
                None => None,
            },
            None => None,
        }
    }
}

} // verus!
