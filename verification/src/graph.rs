//! The graph of nodes and edges that the editor works on.
use std::collections::HashMap;
use vstd::prelude::*;

use crate::error::Error;
use crate::ids::{has_inner_hyphen, random_name, random_uuid, NodeId};
use crate::node::{same_kind, NodeSettings};

verus! {

broadcast use vstd::std_specs::hash::group_hash_axioms;

/// A node: its display name, its settings, and the outcome of its last
/// computation. A successful outcome carries the frame it produced and the
/// cache key it was produced under.
pub struct NodeState<F> {
    pub name: String,
    pub settings: NodeSettings,
    pub results: Option<Result<(F, u64), Error>>,
}

/// The graph. `edges` maps each destination node to the one node it reads
/// from.
pub struct State<F> {
    pub nodes: HashMap<NodeId, NodeState<F>>,
    pub edges: HashMap<NodeId, NodeId>,
}

impl<F> State<F> {
    /// An empty graph.
    pub fn new() -> (s: Self)
        ensures
            s.nodes@ == Map::<NodeId, NodeState<F>>::empty(),
            s.edges@ == Map::<NodeId, NodeId>::empty(),
    {
        State { nodes: HashMap::new(), edges: HashMap::new() }
    }

    /// Puts a node with the given identifier, name and settings, and no
    /// results, into the graph (replacing any node with that identifier).
    pub fn insert_node(&mut self, id: NodeId, name: String, settings: NodeSettings)
        ensures
            final(self).nodes@ == old(self).nodes@.insert(
                id,
                NodeState { name, settings, results: None },
            ),
            final(self).edges@ == old(self).edges@,
    {
        self.nodes.insert(id, NodeState { name, settings, results: None });
    }

    /// Adds a node with the given settings under a fresh random UUID and a
    /// random name, and returns its identifier.
    pub fn add_node(&mut self, settings: NodeSettings) -> (id: NodeId)
        ensures
            final(self).nodes@ == old(self).nodes@.insert(id, final(self).nodes@[id]),
            final(self).nodes@[id].settings == settings,
            final(self).nodes@[id].results is None,
            has_inner_hyphen(final(self).nodes@[id].name@),
            final(self).edges@ == old(self).edges@,
            id & 0xF000_C000_0000_0000_0000u128 == 0x4000_8000_0000_0000_0000u128,
    {
        let id = random_uuid();
        let name = random_name();
        self.insert_node(id, name, settings);
        id
    }

    /// Makes `destination` read from `source` (replacing any source it had).
    pub fn add_edge(&mut self, destination: NodeId, source: NodeId)
        ensures
            final(self).edges@ == old(self).edges@.insert(destination, source),
            final(self).nodes@ == old(self).nodes@,
    {
        self.edges.insert(destination, source);
    }

    /// Replaces the results of node `id`, which must be in the graph.
    pub(crate) fn set_results(&mut self, id: NodeId, results: Option<Result<(F, u64), Error>>)
        requires
            old(self).nodes@.contains_key(id),
        ensures
            final(self).nodes@ == old(self).nodes@.insert(
                id,
                NodeState { results, ..old(self).nodes@[id] },
            ),
            final(self).edges@ == old(self).edges@,
    {
        match self.nodes.remove(&id) {
            Some(node) => {
                self.nodes.insert(id, NodeState { results, ..node });
            },
            None => {},
        }
        assert(self.nodes@ =~= old(self).nodes@.insert(
            id,
            NodeState { results, ..old(self).nodes@[id] },
        ));
    }

    /// Replaces the settings of node `node_id` by `settings` if both are of
    /// the same kind; otherwise leaves the graph as it is and reports the
    /// mismatch.
    pub fn update_node(&mut self, node_id: NodeId, settings: NodeSettings) -> (r: Result<(), Error>)
        requires
            old(self).nodes@.contains_key(node_id),
        ensures
            final(self).edges@ == old(self).edges@,
            same_kind(old(self).nodes@[node_id].settings, settings) ==> {
                &&& r is Ok
                &&& final(self).nodes@ == old(self).nodes@.insert(
                    node_id,
                    NodeState { settings, ..old(self).nodes@[node_id] },
                )
            },
            !same_kind(old(self).nodes@[node_id].settings, settings) ==> {
                &&& r == Err::<(), Error>(Error::SettingsUpdateKindMismatch { node_id, settings })
                &&& final(self).nodes@ == old(self).nodes@
            },
    {
        let matches = match self.nodes.get(&node_id) {
            Some(node) => node.settings.matches_kind(&settings),
            None => false,
        };
        if matches {
            match self.nodes.remove(&node_id) {
                Some(node) => {
                    let updated = NodeState { settings, ..node };
                    self.nodes.insert(node_id, updated);
                    assert(self.nodes@ =~= old(self).nodes@.insert(
                        node_id,
                        NodeState { settings, ..old(self).nodes@[node_id] },
                    ));
                },
                None => {},
            }
            Ok(())
        } else {
            Err(Error::SettingsUpdateKindMismatch { node_id, settings })
        }
    }
}

} // verus!
