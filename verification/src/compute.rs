//! What computing one node takes: the cache key it would be stored under,
//! whether its stored results are still good, and the work (or the error)
//! that its settings and its source call for.
use vstd::prelude::*;

use crate::cache_key::{cache_key, compute_cache_key};
use crate::error::Error;
use crate::graph::{NodeState, State};
use crate::ids::NodeId;
use crate::node::NodeSettings;

verus! {

broadcast use vstd::std_specs::hash::group_hash_axioms;

/// The frame work that a node's computation needs, with everything it is
/// parameterised by. `input` names the node whose frame is read.
#[derive(Debug)]
pub enum Plan {
    /// Read the CSV file at `path`, with a header row, splitting fields at
    /// `delimiter` (`None` when the separator text is empty).
    Load { path: String, delimiter: Option<u8> },
    /// Multiply the first column of the input frame by `times`.
    Multiply { input: NodeId, times: i64 },
    /// Sum each column of the input frame.
    Sum { input: NodeId },
    /// Keep the last rows of the input frame (the frame library's default
    /// count when `row_count` is `None`).
    Tail { input: NodeId, row_count: Option<usize> },
    /// Keep the first rows of the input frame (the frame library's default
    /// count when `row_count` is `None`).
    Head { input: NodeId, row_count: Option<usize> },
}

/// The byte that the first character of `s` stands for as a field
/// delimiter: its code point cut down to eight bits.
pub open spec fn first_byte(s: Seq<char>) -> Option<u8> {
    if s.len() == 0 {
        None
    } else {
        Some((s[0] as u32) as u8)
    }
}

/// `r` reports that node `id` lacks the field called `name`.
pub open spec fn missing_field<T>(r: Result<T, Error>, id: NodeId, name: Seq<char>) -> bool {
    r matches Err(Error::MissingFieldData { node_id, field }) && (node_id == id && field@ == name)
}

/// Node `id` has a source, the source is in the graph, and it holds a frame.
pub open spec fn source_usable<F>(
    nodes: Map<NodeId, NodeState<F>>,
    edges: Map<NodeId, NodeId>,
    id: NodeId,
) -> bool {
    &&& edges.contains_key(id)
    &&& nodes.contains_key(edges[id])
    &&& nodes[edges[id]].results matches Some(Ok(_))
}

/// `r` is the error reported for a node whose source is not usable.
pub open spec fn source_failure<F, T>(
    nodes: Map<NodeId, NodeState<F>>,
    edges: Map<NodeId, NodeId>,
    id: NodeId,
    r: Result<T, Error>,
) -> bool {
    if !edges.contains_key(id) {
        missing_field(r, id, "source"@)
    } else if !nodes.contains_key(edges[id]) {
        r == Err::<T, Error>(Error::InternalError)
    } else {
        r == Err::<T, Error>(Error::MissingResults { node_id: edges[id] })
    }
}

/// `r` is the outcome of planning node `id`'s computation: for a loader the
/// path is checked, then the separator; for any other node the source is
/// checked (present, in the graph, holding a frame), then the node's own
/// parameter. The first check that fails gives the error.
pub open spec fn plans<F>(
    nodes: Map<NodeId, NodeState<F>>,
    edges: Map<NodeId, NodeId>,
    id: NodeId,
    r: Result<Plan, Error>,
) -> bool {
    match nodes[id].settings {
        NodeSettings::LoadData(d) => match d.path {
            None => missing_field(r, id, "path"@),
            Some(p) => match d.separator {
                None => missing_field(r, id, "separator"@),
                Some(sep) => r == Ok::<Plan, Error>(
                    Plan::Load { path: p, delimiter: first_byte(sep@) },
                ),
            },
        },
        NodeSettings::Multiply(m) => if !source_usable(nodes, edges, id) {
            source_failure(nodes, edges, id, r)
        } else {
            match m.times {
                None => missing_field(r, id, "times"@),
                Some(t) => r == Ok::<Plan, Error>(Plan::Multiply { input: edges[id], times: t }),
            }
        },
        NodeSettings::Sum(_) => if !source_usable(nodes, edges, id) {
            source_failure(nodes, edges, id, r)
        } else {
            r == Ok::<Plan, Error>(Plan::Sum { input: edges[id] })
        },
        NodeSettings::Tail(t) => if !source_usable(nodes, edges, id) {
            source_failure(nodes, edges, id, r)
        } else {
            r == Ok::<Plan, Error>(Plan::Tail { input: edges[id], row_count: t.row_count })
        },
        NodeSettings::Head(h) => if !source_usable(nodes, edges, id) {
            source_failure(nodes, edges, id, r)
        } else {
            r == Ok::<Plan, Error>(Plan::Head { input: edges[id], row_count: h.row_count })
        },
    }
}

/// The cache key of node `id`: its source's settings (when it has a
/// source) and its own, hashed.
pub open spec fn node_key<F>(
    nodes: Map<NodeId, NodeState<F>>,
    edges: Map<NodeId, NodeId>,
    id: NodeId,
) -> u64 {
    cache_key(
        if edges.contains_key(id) {
            Some(nodes[edges[id]].settings)
        } else {
            None
        },
        nodes[id].settings,
    )
}

/// The node holds a frame computed under `key`.
pub open spec fn up_to_date<F>(node: NodeState<F>, key: u64) -> bool {
    node.results matches Some(Ok((_, h))) && h == key
}

/// A node is up to date under a key exactly when it holds a frame stored
/// under that very key, whatever its kind: a node without results, one
/// that failed, and one whose frame was stored under another key all need
/// computing again.
pub proof fn lemma_up_to_date_is_current_key<F>(node: NodeState<F>, key: u64)
    ensures
        up_to_date(node, key) <==> (node.results matches Some(Ok((_, h))) && h == key),
        node.results matches Some(Ok((_, h))) && h != key ==> !up_to_date(node, key),
        node.results is None ==> !up_to_date(node, key),
        node.results matches Some(Err(_)) ==> !up_to_date(node, key),
{
}

/// The work planned for a node is the work its own kind of settings calls
/// for, with its own parameters and its source as input: a loader loads its
/// own path, a multiplier multiplies by its own factor, and a sum, tail or
/// head does that with its own row count.
pub proof fn lemma_plan_follows_settings<F>(
    nodes: Map<NodeId, NodeState<F>>,
    edges: Map<NodeId, NodeId>,
    id: NodeId,
    p: Plan,
)
    requires
        plans(nodes, edges, id, Ok::<Plan, Error>(p)),
    ensures
        match nodes[id].settings {
            NodeSettings::LoadData(d) => p matches Plan::Load { path, delimiter } && (d.path
                == Some(path) && (d.separator matches Some(sep) && delimiter == first_byte(
                sep@,
            ))),
            NodeSettings::Multiply(m) => p == Plan::Multiply {
                input: edges[id],
                times: m.times->0,
            } && m.times is Some,
            NodeSettings::Sum(_) => p == Plan::Sum { input: edges[id] },
            NodeSettings::Tail(t) => p == Plan::Tail { input: edges[id], row_count: t.row_count },
            NodeSettings::Head(h) => p == Plan::Head { input: edges[id], row_count: h.row_count },
        },
        !(nodes[id].settings is LoadData) ==> edges.contains_key(id) && nodes.contains_key(
            edges[id],
        ) && nodes[edges[id]].results matches Some(Ok(_)),
{
}

/// The delimiter byte for a separator text: its first character, cut down
/// to eight bits, or `None` for an empty text.
pub fn delimiter_of(separator: &str) -> (r: Option<u8>)
    ensures
        r == first_byte(separator@),
{
    let mut chars = separator.chars();
    match chars.next() {
        Some(c) => Some((c as u32) as u8),
        None => None,
    }
}

impl<F> State<F> {
    /// The source of node `id` when it is usable; otherwise the error that
    /// stands in the way.
    fn usable_source(&self, id: NodeId) -> (r: Result<NodeId, Error>)
        ensures
            source_usable(self.nodes@, self.edges@, id) ==> r == Ok::<NodeId, Error>(
                self.edges@[id],
            ),
            !source_usable(self.nodes@, self.edges@, id) ==> source_failure(
                self.nodes@,
                self.edges@,
                id,
                r,
            ),
    {
        match self.edges.get(&id) {
            None => Err(Error::MissingFieldData { node_id: id, field: "source".to_owned() }),
            Some(src) => {
                let src = *src;
                match self.nodes.get(&src) {
                    None => Err(Error::InternalError),
                    Some(node) => match &node.results {
                        Some(Ok(_)) => Ok(src),
                        _ => Err(Error::MissingResults { node_id: src }),
                    },
                }
            },
        }
    }

    /// Decides what computing node `node_id` takes: the frame work to run,
    /// or the error its settings or its source call for.
    pub fn compute_plan(&self, node_id: NodeId) -> (r: Result<Plan, Error>)
        requires
            self.nodes@.contains_key(node_id),
        ensures
            plans(self.nodes@, self.edges@, node_id, r),
    {
        let node = match self.nodes.get(&node_id) {
            Some(node) => node,
            None => return Err(Error::InternalError),
        };
        match &node.settings {
            NodeSettings::LoadData(d) => match &d.path {
                None => Err(Error::MissingFieldData { node_id, field: "path".to_owned() }),
                Some(p) => match &d.separator {
                    None => Err(Error::MissingFieldData { node_id, field: "separator".to_owned() }),
                    Some(sep) => Ok(
                        Plan::Load { path: p.clone(), delimiter: delimiter_of(sep.as_str()) },
                    ),
                },
            },
            NodeSettings::Multiply(m) => match self.usable_source(node_id) {
                Err(e) => Err(e),
                Ok(input) => match m.times {
                    None => Err(Error::MissingFieldData { node_id, field: "times".to_owned() }),
                    Some(times) => Ok(Plan::Multiply { input, times }),
                },
            },
            NodeSettings::Sum(_) => match self.usable_source(node_id) {
                Err(e) => Err(e),
                Ok(input) => Ok(Plan::Sum { input }),
            },
            NodeSettings::Tail(t) => match self.usable_source(node_id) {
                Err(e) => Err(e),
                Ok(input) => Ok(Plan::Tail { input, row_count: t.row_count }),
            },
            NodeSettings::Head(h) => match self.usable_source(node_id) {
                Err(e) => Err(e),
                Ok(input) => Ok(Plan::Head { input, row_count: h.row_count }),
            },
        }
    }

    /// The cache key of node `node_id`, or `InternalError` when its source
    /// is not in the graph.
    pub fn input_key(&self, node_id: NodeId) -> (r: Result<u64, Error>)
        requires
            self.nodes@.contains_key(node_id),
        ensures
            self.edges@.contains_key(node_id) && !self.nodes@.contains_key(self.edges@[node_id])
                ==> r == Err::<u64, Error>(Error::InternalError),
            !(self.edges@.contains_key(node_id) && !self.nodes@.contains_key(
                self.edges@[node_id],
            )) ==> r == Ok::<u64, Error>(node_key(self.nodes@, self.edges@, node_id)),
    {
        let source: Option<&NodeSettings> = match self.edges.get(&node_id) {
            None => None,
            Some(src) => match self.nodes.get(src) {
                None => return Err(Error::InternalError),
                Some(input) => Some(&input.settings),
            },
        };
        match self.nodes.get(&node_id) {
            Some(node) => Ok(compute_cache_key(source, &node.settings)),
            None => Err(Error::InternalError),
        }
    }

    /// Whether node `node_id` holds a frame computed under `key`.
    pub fn has_up_to_date_results(&self, node_id: NodeId, key: u64) -> (r: bool)
        requires
            self.nodes@.contains_key(node_id),
        ensures
            r == up_to_date(self.nodes@[node_id], key),
            r == (self.nodes@[node_id].results matches Some(Ok((_, h))) && h == key),
    {
        match self.nodes.get(&node_id) {
            Some(node) => match &node.results {
                Some(Ok((_, prev))) => *prev == key,
                _ => false,
            },
            None => false,
        }
    }

    /// The frame that node `node_id` last produced, or why there is none:
    /// `InternalError` for an unknown node or one never computed, and the
    /// error of its last computation otherwise.
    pub fn output(&self, node_id: NodeId) -> (r: Result<&F, Error>)
        ensures
            !self.nodes@.contains_key(node_id) ==> r == Err::<&F, Error>(Error::InternalError),
            self.nodes@.contains_key(node_id) ==> match self.nodes@[node_id].results {
                None => r == Err::<&F, Error>(Error::InternalError),
                Some(Err(e)) => r == Err::<&F, Error>(e),
                Some(Ok((f, _))) => r matches Ok(g) && *g == f,
            },
    {
        match self.nodes.get(&node_id) {
            None => Err(Error::InternalError),
            Some(node) => match &node.results {
                None => Err(Error::InternalError),
                Some(Err(e)) => Err(e.duplicate()),
                Some(Ok((f, _))) => Ok(f),
            },
        }
    }
}

} // verus!
