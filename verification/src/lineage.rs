//! The chain of nodes that a node reads from, directly or not.
//!
//! Each destination has at most one source, so following the edges from a
//! node gives a single chain: the node, its source, the source's source,
//! and so on, up to a node that has no source. When the edges loop back
//! instead, the node has no such chain.
use std::collections::HashMap;
use vstd::prelude::*;
use vstd::set_lib::lemma_len_subset;

use crate::ids::NodeId;

verus! {

broadcast use vstd::std_specs::hash::group_hash_axioms;

/// `a` reads from `b`.
pub open spec fn links(edges: Map<NodeId, NodeId>, a: NodeId, b: NodeId) -> bool {
    edges.contains_key(a) && edges[a] == b
}

/// `s` starts at `n`, each of its nodes reads from the next one, and its
/// last node reads from nothing.
pub open spec fn is_lineage(edges: Map<NodeId, NodeId>, n: NodeId, s: Seq<NodeId>) -> bool {
    &&& s.len() > 0
    &&& s[0] == n
    &&& forall|i: int| 0 <= i < s.len() - 1 ==> #[trigger] links(edges, s[i], s[i + 1])
    &&& !edges.contains_key(s.last())
}

/// Following the edges from `n` reaches a node without a source.
pub open spec fn has_lineage(edges: Map<NodeId, NodeId>, n: NodeId) -> bool {
    exists|s: Seq<NodeId>| is_lineage(edges, n, s)
}

/// The chain from `n` to the node without a source that it ends at.
pub open spec fn lineage(edges: Map<NodeId, NodeId>, n: NodeId) -> Seq<NodeId> {
    choose|s: Seq<NodeId>| is_lineage(edges, n, s)
}

proof fn lemma_lineages_agree_up_to(
    edges: Map<NodeId, NodeId>,
    n: NodeId,
    s: Seq<NodeId>,
    t: Seq<NodeId>,
    i: int,
)
    requires
        is_lineage(edges, n, s),
        is_lineage(edges, n, t),
        0 <= i < s.len(),
        i < t.len(),
    ensures
        s[i] == t[i],
    decreases i,
{
    if i > 0 {
        lemma_lineages_agree_up_to(edges, n, s, t, i - 1);
        assert(links(edges, s[i - 1], s[(i - 1) + 1]));
        assert(links(edges, t[i - 1], t[(i - 1) + 1]));
    }
}

/// There is one chain at most from a node: the edges decide it.
pub proof fn lemma_lineage_unique(
    edges: Map<NodeId, NodeId>,
    n: NodeId,
    s: Seq<NodeId>,
    t: Seq<NodeId>,
)
    requires
        is_lineage(edges, n, s),
        is_lineage(edges, n, t),
    ensures
        s == t,
{
    if s.len() < t.len() {
        lemma_lineages_agree_up_to(edges, n, s, t, s.len() - 1);
        assert(links(edges, t[s.len() - 1], t[(s.len() - 1) + 1]));
    } else if t.len() < s.len() {
        lemma_lineages_agree_up_to(edges, n, s, t, t.len() - 1);
        assert(links(edges, s[t.len() - 1], s[(t.len() - 1) + 1]));
    }
    assert forall|i: int| 0 <= i < s.len() implies s[i] == t[i] by {
        lemma_lineages_agree_up_to(edges, n, s, t, i);
    }
    assert(s =~= t);
}

/// The part of a chain that starts at its `i`-th node is that node's chain.
pub proof fn lemma_lineage_suffix(edges: Map<NodeId, NodeId>, n: NodeId, s: Seq<NodeId>, i: int)
    requires
        is_lineage(edges, n, s),
        0 <= i < s.len(),
    ensures
        is_lineage(edges, s[i], s.subrange(i, s.len() as int)),
{
    let t = s.subrange(i, s.len() as int);
    assert forall|k: int| 0 <= k < t.len() - 1 implies #[trigger] links(edges, t[k], t[k + 1]) by {
        assert(links(edges, s[i + k], s[i + k + 1]));
    }
}

/// A node's chain is the one the edges give, and it never visits a node
/// twice.
pub proof fn lemma_lineage_properties(edges: Map<NodeId, NodeId>, n: NodeId)
    requires
        has_lineage(edges, n),
    ensures
        is_lineage(edges, n, lineage(edges, n)),
        lineage(edges, n).no_duplicates(),
        forall|s: Seq<NodeId>| is_lineage(edges, n, s) ==> s == lineage(edges, n),
{
    let s = lineage(edges, n);
    assert forall|t: Seq<NodeId>| is_lineage(edges, n, t) implies t == s by {
        lemma_lineage_unique(edges, n, s, t);
    }
    assert forall|i: int, j: int| 0 <= i < s.len() && 0 <= j < s.len() && i != j implies s[i]
        != s[j] by {
        if s[i] == s[j] {
            lemma_lineage_suffix(edges, n, s, i);
            lemma_lineage_suffix(edges, n, s, j);
            lemma_lineage_unique(
                edges,
                s[i],
                s.subrange(i, s.len() as int),
                s.subrange(j, s.len() as int),
            );
        }
    }
}

proof fn lemma_walk_stays_in(
    edges: Map<NodeId, NodeId>,
    v: Seq<NodeId>,
    s: Seq<NodeId>,
    i: int,
)
    requires
        v.len() > 0,
        forall|k: int| 0 <= k < v.len() - 1 ==> #[trigger] links(edges, v[k], v[k + 1]),
        edges.contains_key(v.last()),
        v.contains(edges[v.last()]),
        is_lineage(edges, v[0], s),
        0 <= i < s.len(),
    ensures
        v.contains(s[i]),
    decreases i,
{
    if i == 0 {
        assert(v[0] == s[0]);
    } else {
        lemma_walk_stays_in(edges, v, s, i - 1);
        assert(links(edges, s[i - 1], s[(i - 1) + 1]));
        let k = choose|k: int| 0 <= k < v.len() && v[k] == s[i - 1];
        if k < v.len() - 1 {
            assert(links(edges, v[k], v[k + 1]));
        }
    }
}

/// A walk along the edges that comes back to a node it has visited goes
/// round for ever: its start has no chain.
pub proof fn lemma_cycle_has_no_lineage(edges: Map<NodeId, NodeId>, v: Seq<NodeId>)
    requires
        v.len() > 0,
        forall|k: int| 0 <= k < v.len() - 1 ==> #[trigger] links(edges, v[k], v[k + 1]),
        edges.contains_key(v.last()),
        v.contains(edges[v.last()]),
    ensures
        !has_lineage(edges, v[0]),
{
    if has_lineage(edges, v[0]) {
        let s = choose|s: Seq<NodeId>| is_lineage(edges, v[0], s);
        lemma_walk_stays_in(edges, v, s, s.len() - 1);
        let k = choose|k: int| 0 <= k < v.len() && v[k] == s.last();
        if k < v.len() - 1 {
            assert(links(edges, v[k], v[k + 1]));
        }
    }
}

/// A node's chain is the node itself followed by its source's chain; a
/// node without a source is its own chain.
pub proof fn lemma_lineage_step(edges: Map<NodeId, NodeId>, n: NodeId)
    ensures
        !edges.contains_key(n) ==> has_lineage(edges, n) && lineage(edges, n) == seq![n],
        edges.contains_key(n) ==> (has_lineage(edges, n) <==> has_lineage(edges, edges[n])),
        edges.contains_key(n) && has_lineage(edges, edges[n]) ==> lineage(edges, n) == seq![n]
            + lineage(edges, edges[n]),
{
    if !edges.contains_key(n) {
        assert(is_lineage(edges, n, seq![n]));
        lemma_lineage_properties(edges, n);
    } else {
        let m = edges[n];
        if has_lineage(edges, m) {
            lemma_lineage_properties(edges, m);
            let t = lineage(edges, m);
            let s = seq![n] + t;
            assert forall|i: int| 0 <= i < s.len() - 1 implies #[trigger] links(
                edges,
                s[i],
                s[i + 1],
            ) by {
                if i > 0 {
                    assert(links(edges, t[i - 1], t[(i - 1) + 1]));
                }
            }
            assert(is_lineage(edges, n, s));
            lemma_lineage_properties(edges, n);
        }
        if has_lineage(edges, n) {
            lemma_lineage_properties(edges, n);
            lemma_lineage_suffix(edges, n, lineage(edges, n), 1);
            assert(links(edges, lineage(edges, n)[0], lineage(edges, n)[0int + 1]));
        }
    }
}

fn contains_id(v: &Vec<NodeId>, x: NodeId) -> (r: bool)
    ensures
        r == v@.contains(x),
{
    let mut i: usize = 0;
    while i < v.len()
        invariant
            i <= v.len(),
            forall|k: int| 0 <= k < i ==> v@[k] != x,
        decreases v.len() - i,
    {
        if v[i] == x {
            return true;
        }
        i = i + 1;
    }
    false
}

/// The chain of nodes that `n` reads from, `n` first, or `None` when the
/// edges from `n` loop back on themselves.
pub fn collect_lineage(edges: &HashMap<NodeId, NodeId>, n: NodeId) -> (r: Option<Vec<NodeId>>)
    ensures
        r is Some <==> has_lineage(edges@, n),
        r matches Some(v) ==> v@ == lineage(edges@, n),
{
    let mut v: Vec<NodeId> = Vec::new();
    v.push(n);
    let mut cur = n;
    loop
        invariant
            v.len() > 0,
            v@[0] == n,
            cur == v@.last(),
            forall|k: int| 0 <= k < v.len() - 1 ==> #[trigger] links(edges@, v@[k], v@[k + 1]),
            v@.no_duplicates(),
            v.len() <= edges@.dom().len() + 1,
        decreases edges@.dom().len() + 1 - v.len(),
    {
        match edges.get(&cur) {
            None => {
                proof {
                    assert(is_lineage(edges@, n, v@));
                    lemma_lineage_properties(edges@, n);
                }
                return Some(v);
            },
            Some(next) => {
                let next = *next;
                if contains_id(&v, next) {
                    proof {
                        lemma_cycle_has_no_lineage(edges@, v@);
                    }
                    return None;
                }
                proof {
                    assert forall|x: NodeId| v@.to_set().contains(x) implies edges@.dom().contains(
                        x,
                    ) by {
                        let k = choose|k: int| 0 <= k < v.len() && v@[k] == x;
                        if k < v.len() - 1 {
                            assert(links(edges@, v@[k], v@[k + 1]));
                        }
                    }
                    v@.unique_seq_to_set();
                    lemma_len_subset(v@.to_set(), edges@.dom());
                }
                let ghost old_v = v@;
                v.push(next);
                cur = next;
                proof {
                    assert forall|k: int| 0 <= k < v.len() - 1 implies #[trigger] links(
                        edges@,
                        v@[k],
                        v@[k + 1],
                    ) by {
                        if k < v.len() - 2 {
                            assert(links(edges@, old_v[k], old_v[k + 1]));
                        }
                    }
                }
            },
        }
    }
}

} // verus!
