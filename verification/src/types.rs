//! The numbers by which nodes, terms, log entries and revisions are named.

use std::collections::HashMap;
use vstd::prelude::*;
use vstd::std_specs::iter::IteratorSpec;

verus! {

broadcast use vstd::std_specs::hash::group_hash_axioms;

/// Names a node of the cluster.
pub type NodeId = u64;

/// An election period; terms only grow.
pub type Term = u64;

/// The place of an entry in the log, counted from one.
pub type LogIndex = u64;

/// The number of a write; revisions only grow.
pub type Revision = u64;

/// The nodes that addresses are known of, each once, in no particular order.
pub fn node_ids(nodes: &HashMap<NodeId, String>) -> (r: Vec<NodeId>)
    ensures
        r@.no_duplicates(),
        r@.to_set() == nodes@.dom(),
{
    let mut ids: Vec<NodeId> = Vec::new();
    let iter = nodes.keys();
    let ghost all = iter.remaining();
    for id in it: iter
        invariant
            it.seq() == all,
            ids@ == all.unref().take(it.index()),
    {
        ids.push(*id);
        assert(ids@ =~= all.unref().take(it.index() + 1));
    }
    proof {
        assert(ids@ =~= all.unref());
        assert forall|i: int, j: int| 0 <= i < ids@.len() && 0 <= j < ids@.len() && i != j implies
            ids@[i] != ids@[j] by {
            assert(all[i] != all[j]);
        }
    }
    ids
}

} // verus!
