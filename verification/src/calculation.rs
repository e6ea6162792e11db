//! Bringing a node up to date, one frame computation at a time.
//!
//! A calculation visits the chain of nodes that its target reads from,
//! farthest source first. A node whose stored frame was computed under its
//! current cache key is kept as it is. For any other node the calculation
//! records the error its settings or source call for, or hands the caller
//! the frame work to run and waits for the frame that comes back.
use vstd::prelude::*;

use crate::compute::{node_key, plans, up_to_date, Plan};
use crate::error::Error;
use crate::graph::{NodeState, State};
use crate::ids::NodeId;
use crate::lineage::{collect_lineage, has_lineage, lemma_lineage_properties, lineage, links};

verus! {

broadcast use vstd::std_specs::hash::group_hash_axioms;

/// Where node `n` stands once the calculation has passed it: a node that
/// was up to date at the start is untouched; any other node keeps its name
/// and settings and holds either a frame stored under its current cache key,
/// for a node whose settings and source call for frame work, or the error
/// that its settings or its source call for. Which frame it is, `settled`
/// does not say: `next_step` stores none, so a frame can only be the one
/// handed back to `finish_step` for that node.
pub open spec fn settled<F>(
    start: Map<NodeId, NodeState<F>>,
    now: Map<NodeId, NodeState<F>>,
    edges: Map<NodeId, NodeId>,
    n: NodeId,
) -> bool {
    let key = node_key(start, edges, n);
    if up_to_date(start[n], key) {
        now[n] == start[n]
    } else {
        &&& now[n].name == start[n].name
        &&& now[n].settings == start[n].settings
        &&& match now[n].results {
            Some(Ok((_, h))) => h == key && exists|p: Plan| #[trigger]
                plans(now, edges, n, Ok::<Plan, Error>(p)),
            Some(Err(e)) => plans(now, edges, n, Err::<Plan, Error>(e)),
            None => false,
        }
    }
}

/// A finished calculation over `order`: the nodes are the same, every node
/// off the order is untouched, and every node on it is settled.
pub open spec fn calculation_complete<F>(
    start: Map<NodeId, NodeState<F>>,
    now: Map<NodeId, NodeState<F>>,
    edges: Map<NodeId, NodeId>,
    order: Seq<NodeId>,
) -> bool {
    &&& now.dom() == start.dom()
    &&& forall|k: NodeId| start.contains_key(k) && !order.contains(k) ==> now[k] == start[k]
    &&& forall|i: int| 0 <= i < order.len() ==> settled(start, now, edges, #[trigger] order[i])
}

/// The progress of bringing one node up to date.
pub struct Calculation<F> {
    target: NodeId,
    order: Vec<NodeId>,
    pos: usize,
    pending: Option<u64>,
    start: Ghost<Map<NodeId, NodeState<F>>>,
    edges: Ghost<Map<NodeId, NodeId>>,
}

impl<F> Calculation<F> {
    /// The node being brought up to date.
    pub closed spec fn target(&self) -> NodeId {
        self.target
    }

    /// The nodes to visit, farthest source first and the target last.
    pub closed spec fn order(&self) -> Seq<NodeId> {
        self.order@
    }

    /// How many nodes of the order have been dealt with.
    pub closed spec fn position(&self) -> int {
        self.pos as int
    }

    /// The node at the current position awaits its frame.
    pub closed spec fn is_waiting(&self) -> bool {
        self.pending is Some
    }

    /// The nodes as they were when the calculation began.
    pub closed spec fn start(&self) -> Map<NodeId, NodeState<F>> {
        self.start@
    }

    /// The edges of the graph, which a calculation never changes.
    pub closed spec fn edges(&self) -> Map<NodeId, NodeId> {
        self.edges@
    }

    /// The calculation is consistent with `state`.
    pub closed spec fn tracks(&self, state: State<F>) -> bool {
        self.consistent(state.nodes@, state.edges@)
    }

    /// The calculation is consistent with a graph of nodes `now` and edges
    /// `edges`.
    closed spec fn consistent(&self, now: Map<NodeId, NodeState<F>>, edges: Map<NodeId, NodeId>) -> bool {
        let o = self.order@;
        let s = self.start@;
        let e = self.edges@;
        &&& edges == e
        &&& has_lineage(e, self.target)
        &&& o == lineage(e, self.target).reverse()
        &&& o.len() > 0
        &&& o.no_duplicates()
        &&& !e.contains_key(o[0])
        &&& forall|i: int| 0 <= i < o.len() - 1 ==> #[trigger] links(e, o[i + 1], o[i])
        &&& forall|i: int| 0 <= i < o.len() ==> s.contains_key(#[trigger] o[i])
        &&& now.dom() == s.dom()
        &&& forall|k: NodeId| #[trigger]
            s.contains_key(k) ==> now[k].name == s[k].name && now[k].settings == s[k].settings
        &&& forall|k: NodeId| s.contains_key(k) && !o.contains(k) ==> #[trigger] now[k] == s[k]
        &&& self.pos <= o.len()
        &&& forall|i: int| self.pos <= i < o.len() ==> now[#[trigger] o[i]] == s[o[i]]
        &&& forall|i: int| 0 <= i < self.pos ==> settled(s, now, e, #[trigger] o[i])
        &&& self.pending matches Some(key) ==> {
            &&& self.pos < o.len()
            &&& key == node_key(s, e, o[self.pos as int])
            &&& !up_to_date(s[o[self.pos as int]], key)
            &&& exists|p: Plan| #[trigger] plans(now, e, o[self.pos as int], Ok::<Plan, Error>(p))
        }
    }
}

impl<F> State<F> {
    /// Starts bringing node `target` up to date. There is nothing to start
    /// (`None`) when the edges from `target` loop back on themselves, or
    /// when a node on its chain is not in the graph.
    pub fn begin_calculation(&self, target: NodeId) -> (r: Option<Calculation<F>>)
        ensures
            r is Some <==> has_lineage(self.edges@, target) && forall|i: int|
                0 <= i < lineage(self.edges@, target).len() ==> self.nodes@.contains_key(
                    #[trigger] lineage(self.edges@, target)[i],
                ),
            r matches Some(c) ==> {
                &&& c.tracks(*self)
                &&& c.target() == target
                &&& c.order() == lineage(self.edges@, target).reverse()
                &&& c.position() == 0
                &&& !c.is_waiting()
                &&& c.start() == self.nodes@
                &&& c.edges() == self.edges@
            },
    {
        let chain = match collect_lineage(&self.edges, target) {
            None => return None,
            Some(v) => v,
        };
        let ghost l = lineage(self.edges@, target);
        proof {
            lemma_lineage_properties(self.edges@, target);
        }
        let mut i: usize = 0;
        while i < chain.len()
            invariant
                chain@ == l,
                l == lineage(self.edges@, target),
                i <= chain.len(),
                forall|k: int| 0 <= k < i ==> self.nodes@.contains_key(#[trigger] l[k]),
            decreases chain.len() - i,
        {
            if !self.nodes.contains_key(&chain[i]) {
                assert(!self.nodes@.contains_key(l[i as int]));
                return None;
            }
            i = i + 1;
        }
        let mut order: Vec<NodeId> = Vec::new();
        let mut j: usize = chain.len();
        while j > 0
            invariant
                chain@ == l,
                j <= chain.len(),
                order.len() == chain.len() - j,
                forall|k: int| 0 <= k < order.len() ==> order@[k] == l[l.len() - 1 - k],
            decreases j,
        {
            j = j - 1;
            order.push(chain[j]);
        }
        let ghost o = order@;
        proof {
            assert(o =~= l.reverse());
            assert forall|a: int, b: int| 0 <= a < o.len() && 0 <= b < o.len() && a != b implies o[a]
                != o[b] by {
                assert(o[a] == l[l.len() - 1 - a]);
                assert(o[b] == l[l.len() - 1 - b]);
            }
            assert forall|k: int| 0 <= k < o.len() - 1 implies #[trigger] links(
                self.edges@,
                o[k + 1],
                o[k],
            ) by {
                let m = l.len() - 2 - k;
                assert(links(self.edges@, l[m], l[m + 1]));
            }
            assert forall|k: int| 0 <= k < o.len() implies self.nodes@.contains_key(#[trigger] o[k]) by {
                assert(self.nodes@.contains_key(l[l.len() - 1 - k]));
            }
        }
        Some(
            Calculation {
                target,
                order,
                pos: 0,
                pending: None,
                start: Ghost(self.nodes@),
                edges: Ghost(self.edges@),
            },
        )
    }
}

/// Whether a node is up to date, and the work or error its settings call
/// for, depend only on its own settings and results and on its source.
proof fn lemma_plans_frame<F>(
    a: Map<NodeId, NodeState<F>>,
    b: Map<NodeId, NodeState<F>>,
    e: Map<NodeId, NodeId>,
    n: NodeId,
    r: Result<Plan, Error>,
)
    requires
        a.dom() == b.dom(),
        a.contains_key(n),
        a[n].settings == b[n].settings,
        e.contains_key(n) && a.contains_key(e[n]) ==> a[e[n]] == b[e[n]],
    ensures
        plans(a, e, n, r) == plans(b, e, n, r),
{
}

impl<F> Calculation<F> {
    proof fn lemma_keys_stable(&self, state: State<F>, i: int)
        requires
            self.tracks(state),
            0 <= i < self.order@.len(),
        ensures
            node_key(state.nodes@, self.edges@, self.order@[i]) == node_key(
                self.start@,
                self.edges@,
                self.order@[i],
            ),
            self.edges@.contains_key(self.order@[i]) ==> i > 0 && self.edges@[self.order@[i]]
                == self.order@[i - 1],
    {
        let o = self.order@;
        assert(self.start@.contains_key(o[i]));
        if self.edges@.contains_key(o[i]) {
            assert(i > 0);
            assert(links(self.edges@, o[(i - 1) + 1], o[i - 1]));
            assert(self.start@.contains_key(o[i - 1]));
        }
    }

    /// After the node at the current position gets `results`, everything
    /// behind it stays settled and the plans for it stay the same.
    proof fn lemma_record(&self, state: State<F>, results: Option<Result<(F, u64), Error>>)
        requires
            self.tracks(state),
            self.pos < self.order@.len(),
        ensures
            ({
                let id = self.order@[self.pos as int];
                let now2 = state.nodes@.insert(id, NodeState { results, ..state.nodes@[id] });
                &&& forall|i: int|
                    0 <= i < self.pos ==> settled(self.start@, now2, self.edges@, #[trigger] self.order@[i])
                &&& forall|r: Result<Plan, Error>| #[trigger]
                    plans(now2, self.edges@, id, r) == plans(state.nodes@, self.edges@, id, r)
            }),
    {
        let o = self.order@;
        let e = self.edges@;
        let s = self.start@;
        let now = state.nodes@;
        let id = o[self.pos as int];
        let now2 = now.insert(id, NodeState { results, ..now[id] });
        assert(s.contains_key(id));
        assert(now2.dom() =~= now.dom());
        self.lemma_keys_stable(state, self.pos as int);
        assert forall|r: Result<Plan, Error>| #[trigger]
            plans(now2, e, id, r) == plans(now, e, id, r) by {
            if e.contains_key(id) {
                assert(o[self.pos - 1] != id);
            }
            lemma_plans_frame(now2, now, e, id, r);
        }
        assert forall|i: int| 0 <= i < self.pos implies settled(s, now2, e, #[trigger] o[i]) by {
            let n = o[i];
            assert(settled(s, now, e, n));
            assert(n != id);
            assert(s.contains_key(n));
            self.lemma_keys_stable(state, i);
            if e.contains_key(n) {
                assert(o[i - 1] != id);
            }
            assert forall|r: Result<Plan, Error>| plans(now2, e, n, r) == plans(now, e, n, r) by {
                lemma_plans_frame(now2, now, e, n, r);
            }
            if !up_to_date(s[n], node_key(s, e, n)) {
                match now[n].results {
                    Some(Ok((_, h))) => {
                        let p = choose|p: Plan| #[trigger] plans(now, e, n, Ok::<Plan, Error>(p));
                        assert(plans(now2, e, n, Ok::<Plan, Error>(p)));
                    },
                    _ => {},
                }
            }
        }
    }

    /// Once the node at the current position is settled with `results`, the
    /// calculation one position further on, waiting for nothing, is
    /// consistent with the new nodes.
    proof fn lemma_advance(&self, state: State<F>, results: Option<Result<(F, u64), Error>>)
        requires
            self.tracks(state),
            self.pos < self.order@.len(),
            ({
                let id = self.order@[self.pos as int];
                let now2 = state.nodes@.insert(id, NodeState { results, ..state.nodes@[id] });
                &&& settled(self.start@, now2, self.edges@, id)
                &&& forall|i: int|
                    0 <= i < self.pos ==> settled(self.start@, now2, self.edges@, #[trigger] self.order@[i])
            }),
        ensures
            ({
                let id = self.order@[self.pos as int];
                let advanced = Calculation { pos: (self.pos + 1) as usize, pending: None, ..*self };
                advanced.consistent(
                    state.nodes@.insert(id, NodeState { results, ..state.nodes@[id] }),
                    self.edges@,
                )
            }),
    {
        let o = self.order@;
        let s = self.start@;
        let id = o[self.pos as int];
        let now = state.nodes@;
        let now2 = now.insert(id, NodeState { results, ..now[id] });
        assert(s.contains_key(id));
        assert(now2.dom() =~= now.dom());
        assert forall|k: NodeId| s.contains_key(k) && !o.contains(k) implies #[trigger] now2[k]
            == s[k] by {
            assert(k != o[self.pos as int]);
        }
        assert forall|i: int| self.pos + 1 <= i < o.len() implies now2[#[trigger] o[i]] == s[o[i]] by {
            assert(o[i] != id);
        }
        assert(self.pos < self.order.len());
        let advanced = Calculation { pos: (self.pos + 1) as usize, pending: None, ..*self };
        assert(advanced.pos == self.pos + 1);
        assert forall|i: int| 0 <= i < advanced.pos implies settled(s, now2, self.edges@, #[trigger] o[i]) by {
            if i == self.pos {
                assert(o[i] == id);
            }
        }
        assert forall|k: NodeId| #[trigger] s.contains_key(k) implies now2[k].name == s[k].name
            && now2[k].settings == s[k].settings by {
            if k == id {
                assert(now2[k].settings == now[k].settings);
            }
        }
    }
}

/// The node's last computation ended in an error.
pub open spec fn holds_error<F>(node: NodeState<F>) -> bool {
    node.results matches Some(Err(_))
}

/// What one step over `order` did, from position `from` to position `to`,
/// leaving the nodes `now` and handing out `r`: every node behind `to` is
/// settled, every node from `to` on is as it was at the start, and the step
/// stored no frame of its own: each node it passed is as it was at the
/// start or holds an error. When it hands out work, that is for the node at
/// `to`, which was not up to date, and the work is what that node's
/// settings and source call for; otherwise it has passed every node.
pub open spec fn step_result<F>(
    start: Map<NodeId, NodeState<F>>,
    edges: Map<NodeId, NodeId>,
    order: Seq<NodeId>,
    from: int,
    to: int,
    now: Map<NodeId, NodeState<F>>,
    r: Option<(NodeId, Plan)>,
) -> bool {
    &&& now.dom() == start.dom()
    &&& 0 <= from <= to <= order.len()
    &&& forall|k: NodeId| start.contains_key(k) && !order.contains(k) ==> now[k] == start[k]
    &&& forall|i: int| 0 <= i < to ==> settled(start, now, edges, #[trigger] order[i])
    &&& forall|i: int| to <= i < order.len() ==> now[#[trigger] order[i]] == start[order[i]]
    &&& forall|i: int|
        from <= i < to ==> now[#[trigger] order[i]] == start[order[i]] || holds_error(
            now[order[i]],
        )
    &&& match r {
        Some((id, plan)) => {
            &&& to < order.len()
            &&& id == order[to]
            &&& !up_to_date(start[id], node_key(start, edges, id))
            &&& plans(now, edges, id, Ok::<Plan, Error>(plan))
        },
        None => to == order.len(),
    }
}

impl<F> Calculation<F> {
    /// The parts of the consistency of a calculation that `step_result`
    /// speaks of.
    proof fn lemma_step_facts(&self, state: State<F>)
        requires
            self.tracks(state),
        ensures
            state.nodes@.dom() == self.start@.dom(),
            self.pos <= self.order@.len(),
            forall|k: NodeId|
                self.start@.contains_key(k) && !self.order@.contains(k) ==> state.nodes@[k]
                    == self.start@[k],
            forall|i: int|
                0 <= i < self.pos ==> settled(
                    self.start@,
                    state.nodes@,
                    self.edges@,
                    #[trigger] self.order@[i],
                ),
            forall|i: int|
                self.pos <= i < self.order@.len() ==> state.nodes@[#[trigger] self.order@[i]]
                    == self.start@[self.order@[i]],
    {
    }

    /// Moves the calculation on to the next node that needs frame work and
    /// returns that node with its work; nodes that are up to date are kept,
    /// and nodes whose settings or source call for an error get it. `None`
    /// means that every node on the order has been dealt with. A frame only
    /// ever enters the graph through `finish_step`.
    pub fn next_step(&mut self, state: &mut State<F>) -> (r: Option<(NodeId, Plan)>)
        requires
            old(self).tracks(*old(state)),
            !old(self).is_waiting(),
        ensures
            final(self).tracks(*final(state)),
            final(self).target() == old(self).target(),
            final(self).order() == old(self).order(),
            final(self).start() == old(self).start(),
            final(self).edges() == old(self).edges(),
            final(self).position() >= old(self).position(),
            final(state).edges@ == old(state).edges@,
            step_result(
                final(self).start(),
                final(self).edges(),
                final(self).order(),
                old(self).position(),
                final(self).position(),
                final(state).nodes@,
                r,
            ),
            forall|i: int|
                old(self).position() <= i < final(self).position() ==> {
                    let n = #[trigger] final(self).order()[i];
                    final(state).nodes@[n] == final(self).start()[n] || holds_error(final(state).nodes@[n])
                },
            match r {
                Some((id, plan)) => {
                    &&& final(self).is_waiting()
                    &&& final(self).position() < final(self).order().len()
                    &&& id == final(self).order()[final(self).position()]
                    &&& !up_to_date(
                        final(self).start()[id],
                        node_key(final(self).start(), final(self).edges(), id),
                    )
                    &&& final(state).nodes@[id] == final(self).start()[id]
                    &&& plans(final(state).nodes@, final(state).edges@, id, Ok::<Plan, Error>(plan))
                },
                None => {
                    &&& !final(self).is_waiting()
                    &&& final(self).position() == final(self).order().len()
                    &&& calculation_complete(
                        final(self).start(),
                        final(state).nodes@,
                        final(self).edges(),
                        final(self).order(),
                    )
                },
            },
    {
        while self.pos < self.order.len()
            invariant
                self.tracks(*state),
                self.pending is None,
                self.target == old(self).target,
                self.order@ == old(self).order@,
                self.start@ == old(self).start@,
                self.edges@ == old(self).edges@,
                self.pos >= old(self).pos,
                state.edges@ == old(state).edges@,
                forall|i: int|
                    old(self).pos <= i < self.pos ==> state.nodes@[#[trigger] self.order@[i]]
                        == self.start@[self.order@[i]] || holds_error(state.nodes@[self.order@[i]]),
            decreases self.order.len() - self.pos,
        {
            let id = self.order[self.pos];
            proof {
                assert(self.start@.contains_key(self.order@[self.pos as int]));
                self.lemma_keys_stable(*state, self.pos as int);
            }
            let key = match state.input_key(id) {
                Ok(k) => k,
                Err(_) => {
                    // Never taken: the source of a node on the order is the
                    // node before it, and every node on the order is in the
                    // graph.
                    proof {
                        assert(self.start@.contains_key(self.order@[self.pos - 1]));
                    }
                    return None;
                },
            };
            let ghost now = state.nodes@;
            let ghost pos = self.pos as int;
            proof {
                assert(now[self.order@[pos]] == self.start@[self.order@[pos]]);
            }
            if state.has_up_to_date_results(id, key) {
                proof {
                    assert(now.insert(id, NodeState { results: now[id].results, ..now[id] }) =~= now);
                    self.lemma_advance(*state, now[id].results);
                }
                self.pos = self.pos + 1;
            } else {
                match state.compute_plan(id) {
                    Err(e) => {
                        proof {
                            self.lemma_record(*state, Some(Err(e)));
                            self.lemma_advance(*state, Some(Err(e)));
                        }
                        state.set_results(id, Some(Err(e)));
                        self.pos = self.pos + 1;
                    },
                    Ok(plan) => {
                        proof {
                            self.lemma_step_facts(*state);
                        }
                        self.pending = Some(key);
                        return Some((id, plan));
                    },
                }
            }
        }
        proof {
            self.lemma_step_facts(*state);
        }
        None
    }

    /// Stores `frame` as the result of the node that awaits it, under that
    /// node's cache key, and moves past it.
    pub fn finish_step(&mut self, state: &mut State<F>, frame: F)
        requires
            old(self).tracks(*old(state)),
            old(self).is_waiting(),
        ensures
            final(self).tracks(*final(state)),
            !final(self).is_waiting(),
            final(self).target() == old(self).target(),
            final(self).order() == old(self).order(),
            final(self).start() == old(self).start(),
            final(self).edges() == old(self).edges(),
            final(self).position() == old(self).position() + 1,
            final(state).edges@ == old(state).edges@,
            ({
                let id = old(self).order()[old(self).position()];
                final(state).nodes@ == old(state).nodes@.insert(
                    id,
                    NodeState {
                        results: Some(
                            Ok((frame, node_key(old(self).start(), old(self).edges(), id))),
                        ),
                        ..old(state).nodes@[id]
                    },
                )
            }),
    {
        match self.pending {
            Some(key) => {
                let id = self.order[self.pos];
                proof {
                    let now = state.nodes@;
                    let e = self.edges@;
                    let now2 = now.insert(id, NodeState { results: Some(Ok((frame, key))), ..now[id] });
                    assert(self.start@.contains_key(id));
                    assert(now[id] == self.start@[id]);
                    self.lemma_record(*state, Some(Ok((frame, key))));
                    let p = choose|p: Plan| #[trigger] plans(now, e, id, Ok::<Plan, Error>(p));
                    assert(plans(now2, e, id, Ok::<Plan, Error>(p)));
                    self.lemma_advance(*state, Some(Ok((frame, key))));
                }
                assert(self.pos < self.order.len());
                let next_pos = self.pos + 1;
                state.set_results(id, Some(Ok((frame, key))));
                self.pending = None;
                self.pos = next_pos;
            },
            None => {},
        }
    }
}

/// Once a calculation has brought every node on a chain to a frame, every
/// one of them is up to date under its current cache key: calculating the
/// same node again finds no frame work to do.
pub proof fn lemma_complete_chain_is_cached<F>(
    start: Map<NodeId, NodeState<F>>,
    now: Map<NodeId, NodeState<F>>,
    edges: Map<NodeId, NodeId>,
    target: NodeId,
)
    requires
        has_lineage(edges, target),
        forall|i: int|
            0 <= i < lineage(edges, target).len() ==> start.contains_key(
                #[trigger] lineage(edges, target)[i],
            ),
        calculation_complete(start, now, edges, lineage(edges, target).reverse()),
        forall|i: int|
            0 <= i < lineage(edges, target).len() ==> (#[trigger] now[lineage(
                edges,
                target,
            )[i]]).results matches Some(Ok(_)),
    ensures
        forall|i: int|
            0 <= i < lineage(edges, target).len() ==> up_to_date(
                now[lineage(edges, target)[i]],
                node_key(now, edges, #[trigger] lineage(edges, target)[i]),
            ),
{
    let l = lineage(edges, target);
    let o = l.reverse();
    lemma_lineage_properties(edges, target);
    assert forall|i: int| 0 <= i < l.len() implies up_to_date(
        now[l[i]],
        node_key(now, edges, #[trigger] l[i]),
    ) by {
        let n = l[i];
        assert(o[l.len() - 1 - i] == n);
        assert(settled(start, now, edges, o[l.len() - 1 - i]));
        assert(now[n].results matches Some(Ok(_)));
        if edges.contains_key(n) {
            assert(i < l.len() - 1);
            assert(links(edges, l[i], l[i + 1]));
            assert(o[l.len() - 1 - (i + 1)] == l[i + 1]);
            assert(settled(start, now, edges, o[l.len() - 1 - (i + 1)]));
        }
        assert(node_key(now, edges, n) == node_key(start, edges, n));
    }
}

/// Two errors that say the same: equal, or both a missing field of the
/// same node with the same field text.
pub open spec fn errors_agree(x: Error, y: Error) -> bool {
    match (x, y) {
        (
            Error::MissingFieldData { node_id: a, field: f },
            Error::MissingFieldData { node_id: b, field: g },
        ) => a == b && f@ == g@,
        _ => x == y,
    }
}

/// Two states of a node that say the same: equal, or with the same name and
/// settings and errors that say the same.
pub open spec fn node_states_agree<F>(a: NodeState<F>, b: NodeState<F>) -> bool {
    ||| a == b
    ||| {
        &&& a.name == b.name
        &&& a.settings == b.settings
        &&& match (a.results, b.results) {
            (Some(Err(x)), Some(Err(y))) => errors_agree(x, y),
            _ => false,
        }
    }
}

/// The source of `n` (when it has one in the graph) holds a frame.
pub open spec fn source_holds_frame<F>(
    nodes: Map<NodeId, NodeState<F>>,
    edges: Map<NodeId, NodeId>,
    n: NodeId,
) -> bool {
    edges.contains_key(n) && nodes.contains_key(edges[n]) && nodes[edges[n]].results matches Some(
        Ok(_),
    )
}

/// A node whose plan in one graph is an error cannot have work for its
/// plan in another graph where it has the same settings and whose source
/// holds a frame in both or in neither; and two such errors say the same.
proof fn lemma_plans_alike<F>(
    a: Map<NodeId, NodeState<F>>,
    b: Map<NodeId, NodeState<F>>,
    e: Map<NodeId, NodeId>,
    n: NodeId,
    x: Error,
)
    requires
        a.dom() == b.dom(),
        a.contains_key(n),
        a[n].settings == b[n].settings,
        source_holds_frame(a, e, n) == source_holds_frame(b, e, n),
        plans(a, e, n, Err::<Plan, Error>(x)),
    ensures
        forall|p: Plan| !plans(b, e, n, Ok::<Plan, Error>(p)),
        forall|y: Error| plans(b, e, n, Err::<Plan, Error>(y)) ==> errors_agree(x, y),
{
}

/// The facts about a chain's reversal that calculations rely on.
proof fn lemma_order_facts(edges: Map<NodeId, NodeId>, target: NodeId)
    requires
        has_lineage(edges, target),
    ensures
        ({
            let o = lineage(edges, target).reverse();
            &&& o.len() > 0
            &&& o.no_duplicates()
            &&& !edges.contains_key(o[0])
            &&& forall|i: int|
                0 < i < o.len() && edges.contains_key(#[trigger] o[i]) ==> edges[o[i]] == o[i - 1]
            &&& forall|k: NodeId| o.contains(k) <==> lineage(edges, target).contains(k)
        }),
{
    let l = lineage(edges, target);
    let o = l.reverse();
    lemma_lineage_properties(edges, target);
    assert forall|a: int, b: int| 0 <= a < o.len() && 0 <= b < o.len() && a != b implies o[a]
        != o[b] by {
        assert(o[a] == l[l.len() - 1 - a]);
        assert(o[b] == l[l.len() - 1 - b]);
    }
    assert forall|i: int| 0 < i < o.len() && edges.contains_key(#[trigger] o[i]) implies edges[o[i]]
        == o[i - 1] by {
        let m = l.len() - 1 - i;
        assert(links(edges, l[m], l[m + 1]));
    }
    assert forall|k: NodeId| o.contains(k) <==> l.contains(k) by {
        if o.contains(k) {
            let i = choose|i: int| 0 <= i < o.len() && o[i] == k;
            assert(l[l.len() - 1 - i] == k);
        }
        if l.contains(k) {
            let i = choose|i: int| 0 <= i < l.len() && l[i] == k;
            assert(o[l.len() - 1 - i] == k);
        }
    }
}

/// After a complete calculation of a chain, each node on it is up to date
/// under its current cache key, or holds the error that its settings and
/// source call for in the graph as it now stands.
pub proof fn lemma_complete_chain_outcomes<F>(
    start: Map<NodeId, NodeState<F>>,
    now: Map<NodeId, NodeState<F>>,
    edges: Map<NodeId, NodeId>,
    target: NodeId,
)
    requires
        has_lineage(edges, target),
        forall|i: int|
            0 <= i < lineage(edges, target).len() ==> start.contains_key(
                #[trigger] lineage(edges, target)[i],
            ),
        calculation_complete(start, now, edges, lineage(edges, target).reverse()),
    ensures
        forall|i: int|
            0 <= i < lineage(edges, target).len() ==> {
                let n = #[trigger] lineage(edges, target)[i];
                ||| up_to_date(now[n], node_key(now, edges, n))
                ||| now[n].results matches Some(Err(x)) && plans(now, edges, n, Err::<Plan, Error>(x))
            },
{
    let l = lineage(edges, target);
    let o = l.reverse();
    lemma_lineage_properties(edges, target);
    assert forall|i: int| 0 <= i < l.len() implies {
        let n = #[trigger] l[i];
        ||| up_to_date(now[n], node_key(now, edges, n))
        ||| now[n].results matches Some(Err(x)) && plans(now, edges, n, Err::<Plan, Error>(x))
    } by {
        let n = l[i];
        assert(o[l.len() - 1 - i] == n);
        assert(settled(start, now, edges, o[l.len() - 1 - i]));
        if edges.contains_key(n) {
            assert(i < l.len() - 1);
            assert(links(edges, l[i], l[i + 1]));
            assert(o[l.len() - 1 - (i + 1)] == l[i + 1]);
            assert(settled(start, now, edges, o[l.len() - 1 - (i + 1)]));
        }
        assert(node_key(now, edges, n) == node_key(start, edges, n));
    }
}

/// Calculating a node again, right after a complete calculation of it,
/// hands out no frame work, and leaves every node as it found it, except
/// that an error may be stored again as an error that says the same.
pub proof fn lemma_recalculation_changes_nothing<F>(
    start: Map<NodeId, NodeState<F>>,
    done: Map<NodeId, NodeState<F>>,
    edges: Map<NodeId, NodeId>,
    target: NodeId,
    to: int,
    after: Map<NodeId, NodeState<F>>,
    r: Option<(NodeId, Plan)>,
)
    requires
        has_lineage(edges, target),
        forall|i: int|
            0 <= i < lineage(edges, target).len() ==> start.contains_key(
                #[trigger] lineage(edges, target)[i],
            ),
        calculation_complete(start, done, edges, lineage(edges, target).reverse()),
        step_result(done, edges, lineage(edges, target).reverse(), 0, to, after, r),
    ensures
        r is None,
        after.dom() == done.dom(),
        forall|k: NodeId| done.contains_key(k) ==> node_states_agree(done[k], #[trigger] after[k]),
{
    let l = lineage(edges, target);
    let o = l.reverse();
    lemma_order_facts(edges, target);
    lemma_complete_chain_outcomes(start, done, edges, target);
    lemma_lineage_properties(edges, target);
    assert forall|j: int| 0 <= j < o.len() implies done.contains_key(#[trigger] o[j]) by {
        assert(start.contains_key(l[l.len() - 1 - j]));
    }
    // What a node of the order holds in `done` and in `after` is alike.
    assert forall|j: int| 0 <= j < o.len() implies {
        &&& (done[#[trigger] o[j]].results matches Some(Ok(_))) == (after[o[j]].results matches Some(
            Ok(_),
        ))
        &&& after[o[j]].settings == done[o[j]].settings
        &&& (after[o[j]] == done[o[j]] || (!up_to_date(done[o[j]], node_key(done, edges, o[j]))
            && holds_error(after[o[j]])))
    } by {
        let n = o[j];
        assert(l[l.len() - 1 - j] == n);
        if j < to {
            assert(settled(done, after, edges, o[j]));
        }
    }
    assert forall|j: int| 0 <= j < o.len() implies source_holds_frame(done, edges, #[trigger] o[j])
        == source_holds_frame(after, edges, o[j]) by {
        if edges.contains_key(o[j]) {
            assert(j > 0);
            assert(edges[o[j]] == o[j - 1]);
        }
    }
    match r {
        Some((id, plan)) => {
            assert(o[to] == id);
            assert(l[l.len() - 1 - to] == id);
            lemma_plans_alike(done, after, edges, id, done[id].results->0->Err_0);
        },
        None => {},
    }
    assert forall|k: NodeId| done.contains_key(k) implies node_states_agree(
        done[k],
        #[trigger] after[k],
    ) by {
        if o.contains(k) {
            let j = choose|j: int| 0 <= j < o.len() && o[j] == k;
            assert(l[l.len() - 1 - j] == k);
            if after[k] != done[k] {
                assert(settled(done, after, edges, o[j]));
                lemma_plans_alike(done, after, edges, k, done[k].results->0->Err_0);
            }
        } else {
            assert(start.contains_key(k));
        }
    }
}

/// A frame stored under a key other than the node's current cache key is
/// never kept: once a calculation has passed the node, the node holds an
/// error or a frame stored under its current key, and so differs from what
/// it held, whatever its kind.
pub proof fn lemma_stale_frame_is_replaced<F>(
    start: Map<NodeId, NodeState<F>>,
    now: Map<NodeId, NodeState<F>>,
    edges: Map<NodeId, NodeId>,
    n: NodeId,
)
    requires
        settled(start, now, edges, n),
        start[n].results matches Some(Ok((_, h))) && h != node_key(start, edges, n),
    ensures
        now[n] != start[n],
        now[n].results matches Some(Err(_)) || (now[n].results matches Some(Ok((_, h2))) && h2
            == node_key(start, edges, n)),
{
}

} // verus!
