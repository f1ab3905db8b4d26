//! The directed transition graph over state digests.
//!
//! Nodes carry state digests; an edge from one node to another carries the
//! digest of its transition label and the bit pattern of its probability.
//! There is at most one edge for each ordered pair of nodes: emitting a pair
//! again replaces the edge's payload.
use vstd::prelude::*;
use crate::digest_map::{DigestMap, digest_map_contents};

verus! {

#[verifier::external_type_specification]
#[verifier::external_body]
#[verifier::reject_recursive_types(N)]
#[verifier::reject_recursive_types(E)]
#[verifier::reject_recursive_types(Ty)]
#[verifier::reject_recursive_types(Ix)]
pub struct ExGraph<N, E, Ty, Ix>(petgraph::graph::Graph<N, E, Ty, Ix>);

#[verifier::external_type_specification]
#[verifier::external_body]
pub struct ExDirected(petgraph::Directed);

/// The node weights of a petgraph graph, by node index.
pub uninterp spec fn graph_nodes(g: petgraph::graph::Graph<u64, (u64, u64)>) -> Seq<u64>;

/// The edges of a petgraph graph, by edge index: source index, target index,
/// and the two halves of the edge weight.
pub uninterp spec fn graph_edges(g: petgraph::graph::Graph<u64, (u64, u64)>) -> Seq<
    (usize, usize, u64, u64),
>;

/// The largest number of nodes or edges that a graph with `u32` indices holds.
pub const INDEX_LIMIT: usize = 4294967295;

/// Relies on petgraph's `Graph::new`: a graph with no nodes and no edges.
#[verifier::external_body]
fn graph_new() -> (r: petgraph::graph::Graph<u64, (u64, u64)>)
    ensures
        graph_nodes(r).len() == 0,
        graph_edges(r).len() == 0,
{
    petgraph::graph::Graph::new()
}

/// Relies on petgraph's `Graph::add_node`: the weight becomes a new last node,
/// whose index is returned; it panics only once the `u32` indices run out.
#[verifier::external_body]
fn graph_add_node(g: &mut petgraph::graph::Graph<u64, (u64, u64)>, weight: u64) -> (r: usize)
    requires
        graph_nodes(*old(g)).len() < INDEX_LIMIT,
    ensures
        graph_nodes(*final(g)) == graph_nodes(*old(g)).push(weight),
        graph_edges(*final(g)) == graph_edges(*old(g)),
        r == graph_nodes(*old(g)).len(),
{
    g.add_node(weight).index()
}

/// Relies on petgraph's `Graph::update_edge`: where an edge from `a` to `b`
/// exists its weight is replaced, else a new last edge is added; it panics
/// only on a missing node or once the `u32` indices run out.
#[verifier::external_body]
fn graph_update_edge(
    g: &mut petgraph::graph::Graph<u64, (u64, u64)>,
    a: usize,
    b: usize,
    transition: u64,
    probability: u64,
)
    requires
        a < graph_nodes(*old(g)).len(),
        b < graph_nodes(*old(g)).len(),
        graph_edges(*old(g)).len() < INDEX_LIMIT,
    ensures
        graph_nodes(*final(g)) == graph_nodes(*old(g)),
        (exists|i: int|
            0 <= i < graph_edges(*old(g)).len() && graph_edges(*old(g))[i].0 == a && graph_edges(
                *old(g),
            )[i].1 == b) ==> exists|i: int|
            0 <= i < graph_edges(*old(g)).len() && graph_edges(*old(g))[i].0 == a && graph_edges(
                *old(g),
            )[i].1 == b && graph_edges(*final(g)) == graph_edges(*old(g)).update(
                i,
                (a, b, transition, probability),
            ),
        !(exists|i: int|
            0 <= i < graph_edges(*old(g)).len() && graph_edges(*old(g))[i].0 == a && graph_edges(
                *old(g),
            )[i].1 == b) ==> graph_edges(*final(g)) == graph_edges(*old(g)).push(
            (a, b, transition, probability),
        ),
{
    g.update_edge(
        petgraph::graph::NodeIndex::new(a),
        petgraph::graph::NodeIndex::new(b),
        (transition, probability),
    );
}

/// Relies on petgraph's `Graph::raw_nodes`: each node's weight, by index.
#[verifier::external_body]
fn graph_node_weights(g: &petgraph::graph::Graph<u64, (u64, u64)>) -> (r: Vec<u64>)
    ensures
        r@ == graph_nodes(*g),
{
    g.raw_nodes().iter().map(|n| n.weight).collect()
}

/// Relies on petgraph's `Graph::raw_edges`: each edge's endpoints and weight,
/// by index.
#[verifier::external_body]
fn graph_edge_records(g: &petgraph::graph::Graph<u64, (u64, u64)>) -> (r: Vec<
    (usize, usize, u64, u64),
>)
    ensures
        r@ == graph_edges(*g),
{
    g.raw_edges().iter().map(|e| (e.source().index(), e.target().index(), e.weight.0, e.weight.1)).collect()
}

/// Relies on the `Clone` impl of petgraph's `Graph`: the same nodes and edges.
#[verifier::external_body]
fn graph_clone(g: &petgraph::graph::Graph<u64, (u64, u64)>) -> (r: petgraph::graph::Graph<
    u64,
    (u64, u64),
>)
    ensures
        graph_nodes(r) == graph_nodes(*g) && graph_edges(r) == graph_edges(*g),
{
    g.clone()
}

/// The transition graph: a petgraph graph whose node weights are distinct
/// state digests, with an index from digest to node.
pub struct TransitionGraph {
    graph: petgraph::graph::Graph<u64, (u64, u64)>,
    index: DigestMap,
    weights: Ghost<Map<(u64, u64), (u64, u64)>>,
}

impl TransitionGraph {
    /// The state digests of the nodes, in the order in which they were added.
    pub closed spec fn nodes(&self) -> Seq<u64> {
        graph_nodes(self.graph)
    }

    /// The payload `(transition digest, probability bits)` of each edge, keyed
    /// by `(source digest, target digest)`.
    pub closed spec fn edge_weights(&self) -> Map<(u64, u64), (u64, u64)> {
        self.weights@
    }

    spec fn edge_key(&self, i: int) -> (u64, u64) {
        let e = graph_edges(self.graph)[i];
        (graph_nodes(self.graph)[e.0 as int], graph_nodes(self.graph)[e.1 as int])
    }

    pub closed spec fn wf(&self) -> bool {
        let nodes = graph_nodes(self.graph);
        let edges = graph_edges(self.graph);
        let index = digest_map_contents(self.index);
        &&& nodes.len() <= INDEX_LIMIT
        &&& edges.len() <= INDEX_LIMIT
        &&& forall|i: int|
            0 <= i < nodes.len() ==> #[trigger] index.contains_key(nodes[i]) && index[nodes[i]]
                == i
        &&& forall|d: u64|
            #[trigger] index.contains_key(d) ==> index[d] < nodes.len() && nodes[index[d] as int]
                == d
        &&& forall|i: int|
            0 <= i < edges.len() ==> (#[trigger] edges[i]).0 < nodes.len() && edges[i].1
                < nodes.len()
        &&& forall|i: int|
            0 <= i < edges.len() ==> #[trigger] self.weights@.contains_key(self.edge_key(i))
                && self.weights@[self.edge_key(i)] == (edges[i].2, edges[i].3)
        &&& forall|k: (u64, u64)|
            #[trigger] self.weights@.contains_key(k) ==> exists|i: int|
                0 <= i < edges.len() && self.edge_key(i) == k
        &&& forall|i: int, j: int|
            0 <= i < edges.len() && 0 <= j < edges.len() && i != j ==> self.edge_key(i)
                != self.edge_key(j)
        &&& self.weights@.dom().finite()
        &&& self.weights@.dom().len() == edges.len()
    }

    /// A graph with no nodes and no edges.
    pub fn new() -> (r: TransitionGraph)
        ensures
            r.wf(),
            r.nodes().len() == 0,
            r.edge_weights() == Map::<(u64, u64), (u64, u64)>::empty(),
    {
        let g = TransitionGraph {
            graph: graph_new(),
            index: DigestMap::new(),
            weights: Ghost(Map::empty()),
        };
        proof {
            assert(digest_map_contents(g.index) =~= Map::empty());
        }
        g
    }

    /// The index of the node that carries `digest`, if there is one.
    pub fn node_index(&self, digest: u64) -> (r: Option<usize>)
        requires
            self.wf(),
        ensures
            match r {
                Some(i) => i < self.nodes().len() && self.nodes()[i as int] == digest,
                None => !self.nodes().contains(digest),
            },
    {
        match self.index.get(digest) {
            Some(i) => Some(i as usize),
            None => {
                proof {
                    if self.nodes().contains(digest) {
                        let i = choose|i: int| 0 <= i < self.nodes().len() && self.nodes()[i] == digest;
                        assert(digest_map_contents(self.index).contains_key(self.nodes()[i]));
                    }
                }
                None
            },
        }
    }

    /// Adds a node for `digest` unless one is there; returns the node's index.
    pub fn add_node(&mut self, digest: u64) -> (r: usize)
        requires
            old(self).wf(),
            old(self).nodes().len() < INDEX_LIMIT,
        ensures
            final(self).wf(),
            final(self).nodes() == (if old(self).nodes().contains(digest) {
                old(self).nodes()
            } else {
                old(self).nodes().push(digest)
            }),
            r < final(self).nodes().len(),
            final(self).nodes()[r as int] == digest,
            final(self).edge_weights() == old(self).edge_weights(),
            final(self).nodes().len() >= old(self).nodes().len(),
            final(self).nodes().take(old(self).nodes().len() as int) == old(self).nodes(),
            forall|y: u64| #[trigger]
                final(self).nodes().contains(y) <==> old(self).nodes().contains(y) || y == digest,
    {
        proof {
            assert(self.nodes().take(self.nodes().len() as int) =~= self.nodes());
            assert(self.nodes().push(digest).take(self.nodes().len() as int) =~= self.nodes());
            assert forall|y: u64| #[trigger] self.nodes().push(digest).contains(y) <==> self.nodes().contains(y) || y == digest by {
                if self.nodes().contains(y) {
                    let w = choose|w: int| 0 <= w < self.nodes().len() && self.nodes()[w] == y;
                    assert(self.nodes().push(digest)[w] == y);
                }
                if y == digest {
                    assert(self.nodes().push(digest)[self.nodes().len() as int] == y);
                }
                if self.nodes().push(digest).contains(y) && y != digest {
                    let w = choose|w: int| 0 <= w < self.nodes().push(digest).len() && self.nodes().push(digest)[w] == y;
                    assert(self.nodes()[w] == y);
                }
            }
        }
        match self.node_index(digest) {
            Some(i) => i,
            None => {
                let ghost old_self = *self;
                let i = graph_add_node(&mut self.graph, digest);
                self.index.insert(digest, i as u64);
                proof {
                    let nodes = graph_nodes(self.graph);
                    let index = digest_map_contents(self.index);
                    assert(nodes == graph_nodes(old_self.graph).push(digest));
                    assert forall|j: int| 0 <= j < nodes.len() implies #[trigger] index.contains_key(
                        nodes[j],
                    ) && index[nodes[j]] == j by {
                        if j < i {
                            assert(nodes[j] == graph_nodes(old_self.graph)[j]);
                            assert(nodes[j] != digest);
                        }
                    }
                    assert forall|d: u64| #[trigger] index.contains_key(d) implies index[d]
                        < nodes.len() && nodes[index[d] as int] == d by {
                        if d != digest {
                            assert(digest_map_contents(old_self.index).contains_key(d));
                        }
                    }
                    assert forall|j: int| 0 <= j < graph_edges(self.graph).len() implies self.edge_key(j)
                        == old_self.edge_key(j) by {
                        let e = graph_edges(self.graph)[j];
                        assert(e == graph_edges(old_self.graph)[j]);
                        assert(e.0 < graph_nodes(old_self.graph).len());
                        assert(e.1 < graph_nodes(old_self.graph).len());
                    }
                    assert forall|k: (u64, u64)| #[trigger] self.weights@.contains_key(k) implies exists|j: int|
                        0 <= j < graph_edges(self.graph).len() && self.edge_key(j) == k by {
                        let j = choose|j: int| 0 <= j < graph_edges(old_self.graph).len() && old_self.edge_key(j) == k;
                        assert(self.edge_key(j) == k);
                    }
                    assert forall|j: int| 0 <= j < graph_edges(self.graph).len() implies #[trigger] self.weights@.contains_key(self.edge_key(j))
                        && self.weights@[self.edge_key(j)] == (graph_edges(self.graph)[j].2, graph_edges(self.graph)[j].3) by {
                        assert(old_self.weights@.contains_key(old_self.edge_key(j)));
                    }
                    assert forall|x: int, y: int|
                        0 <= x < graph_edges(self.graph).len() && 0 <= y < graph_edges(self.graph).len() && x != y implies self.edge_key(x)
                            != self.edge_key(y) by {
                        assert(old_self.edge_key(x) != old_self.edge_key(y));
                    }
                }
                i
            },
        }
    }

    /// Sets the payload of the edge from `source` to `target`, adding the edge
    /// where there is none.
    pub fn upsert_edge(&mut self, source: u64, target: u64, transition: u64, probability: u64)
        requires
            old(self).wf(),
            old(self).nodes().contains(source),
            old(self).nodes().contains(target),
            old(self).edge_weights().dom().len() < INDEX_LIMIT,
        ensures
            final(self).wf(),
            final(self).nodes() == old(self).nodes(),
            final(self).edge_weights() == old(self).edge_weights().insert(
                (source, target),
                (transition, probability),
            ),
    {
        let ghost old_self = *self;
        let a = self.node_index(source).unwrap();
        let b = self.node_index(target).unwrap();
        let ghost key = (source, target);
        let ghost edges = graph_edges(self.graph);
        proof {
            assert forall|i: int| 0 <= i < edges.len() implies (edges[i].0 == a && edges[i].1 == b)
                == (self.edge_key(i) == key) by {
                let e = edges[i];
                assert(e == edges[i]);
                if self.edge_key(i) == key {
                    let nodes = graph_nodes(self.graph);
                    let index = digest_map_contents(self.index);
                    assert(index.contains_key(nodes[e.0 as int]));
                    assert(index.contains_key(nodes[e.1 as int]));
                    assert(index.contains_key(nodes[a as int]));
                    assert(index.contains_key(nodes[b as int]));
                }
            }
        }
        graph_update_edge(&mut self.graph, a, b, transition, probability);
        self.weights = Ghost(self.weights@.insert(key, (transition, probability)));
        proof {
            let new_edges = graph_edges(self.graph);
            assert(graph_nodes(self.graph) == graph_nodes(old_self.graph));
            if exists|i: int| 0 <= i < edges.len() && edges[i].0 == a && edges[i].1 == b {
                let i = choose|i: int|
                    0 <= i < edges.len() && edges[i].0 == a && edges[i].1 == b && new_edges
                        == edges.update(i, (a, b, transition, probability));
                assert(old_self.edge_key(i) == key);
                assert(old_self.weights@.contains_key(key));
                assert(self.weights@.dom() =~= old_self.weights@.dom());
                assert forall|j: int| 0 <= j < new_edges.len() implies self.edge_key(j)
                    == old_self.edge_key(j) by {}
                assert forall|j: int| 0 <= j < new_edges.len() implies #[trigger] self.weights@.contains_key(self.edge_key(j))
                    && self.weights@[self.edge_key(j)] == (new_edges[j].2, new_edges[j].3) by {
                    if j != i {
                        assert(old_self.edge_key(j) != old_self.edge_key(i));
                    }
                }
                assert forall|k: (u64, u64)| #[trigger] self.weights@.contains_key(k) implies exists|j: int|
                    0 <= j < new_edges.len() && self.edge_key(j) == k by {
                    let j = choose|j: int| 0 <= j < edges.len() && old_self.edge_key(j) == k;
                    assert(self.edge_key(j) == k);
                }
                assert forall|x: int, y: int|
                    0 <= x < new_edges.len() && 0 <= y < new_edges.len() && x != y implies self.edge_key(x)
                        != self.edge_key(y) by {
                    assert(old_self.edge_key(x) != old_self.edge_key(y));
                }
                assert forall|j: int| 0 <= j < new_edges.len() implies (#[trigger] new_edges[j]).0
                    < graph_nodes(self.graph).len() && new_edges[j].1 < graph_nodes(self.graph).len() by {
                    if j != i {
                        assert(new_edges[j] == edges[j]);
                    }
                }
            } else {
                assert(new_edges == edges.push((a, b, transition, probability)));
                assert(!old_self.weights@.contains_key(key)) by {
                    if old_self.weights@.contains_key(key) {
                        let j = choose|j: int| 0 <= j < edges.len() && old_self.edge_key(j) == key;
                        assert(edges[j].0 == a && edges[j].1 == b);
                    }
                }
                let n = edges.len() as int;
                assert(self.edge_key(n) == key);
                assert forall|j: int| 0 <= j < edges.len() implies self.edge_key(j)
                    == old_self.edge_key(j) by {}
                assert forall|j: int| 0 <= j < new_edges.len() implies #[trigger] self.weights@.contains_key(self.edge_key(j))
                    && self.weights@[self.edge_key(j)] == (new_edges[j].2, new_edges[j].3) by {
                    if j < n {
                        assert(old_self.weights@.contains_key(old_self.edge_key(j)));
                    }
                }
                assert forall|k: (u64, u64)| #[trigger] self.weights@.contains_key(k) implies exists|j: int|
                    0 <= j < new_edges.len() && self.edge_key(j) == k by {
                    if k != key {
                        let j = choose|j: int| 0 <= j < edges.len() && old_self.edge_key(j) == k;
                        assert(self.edge_key(j) == k);
                    } else {
                        assert(self.edge_key(n) == k);
                    }
                }
                assert forall|j: int| 0 <= j < new_edges.len() implies (#[trigger] new_edges[j]).0
                    < graph_nodes(self.graph).len() && new_edges[j].1 < graph_nodes(self.graph).len() by {
                    if j < n {
                        assert(new_edges[j] == edges[j]);
                    }
                }
                assert(self.weights@.dom() =~= old_self.weights@.dom().insert(key));
                assert(self.weights@.dom().len() == new_edges.len());
                assert forall|i: int, j: int|
                    0 <= i < new_edges.len() && 0 <= j < new_edges.len() && i != j implies self.edge_key(i)
                        != self.edge_key(j) by {
                    if i < n && j < n {
                        assert(old_self.edge_key(i) != old_self.edge_key(j));
                    } else if i < n {
                        assert(old_self.weights@.contains_key(old_self.edge_key(i)));
                    } else {
                        assert(old_self.weights@.contains_key(old_self.edge_key(j)));
                    }
                }
            }
        }
    }

    /// The number of nodes.
    pub fn node_count(&self) -> (r: usize)
        requires
            self.wf(),
        ensures
            r == self.nodes().len(),
    {
        graph_node_weights(&self.graph).len()
    }

    /// The number of edges.
    pub fn edge_count(&self) -> (r: usize)
        requires
            self.wf(),
        ensures
            r == self.edge_weights().dom().len(),
    {
        graph_edge_records(&self.graph).len()
    }

    /// The state digests of the nodes, by node index.
    pub fn node_digests(&self) -> (r: Vec<u64>)
        requires
            self.wf(),
        ensures
            r@ == self.nodes(),
    {
        graph_node_weights(&self.graph)
    }

    /// Each edge as `(source, target, transition, probability bits)`, each
    /// ordered pair of nodes once.
    pub fn edge_list(&self) -> (r: Vec<(u64, u64, u64, u64)>)
        requires
            self.wf(),
        ensures
            r@.len() == self.edge_weights().dom().len(),
            forall|i: int|
                0 <= i < r@.len() ==> #[trigger] self.edge_weights().contains_key((r@[i].0, r@[i].1))
                    && self.edge_weights()[(r@[i].0, r@[i].1)] == (r@[i].2, r@[i].3),
            forall|i: int, j: int|
                0 <= i < j < r@.len() ==> (r@[i].0, r@[i].1) != (r@[j].0, r@[j].1),
            forall|k: (u64, u64)|
                #[trigger] self.edge_weights().contains_key(k) ==> exists|i: int|
                    0 <= i < r@.len() && (r@[i].0, r@[i].1) == k,
    {
        let nodes = graph_node_weights(&self.graph);
        let records = graph_edge_records(&self.graph);
        let mut out: Vec<(u64, u64, u64, u64)> = Vec::new();
        let mut i: usize = 0;
        while i < records.len()
            invariant
                self.wf(),
                nodes@ == graph_nodes(self.graph),
                records@ == graph_edges(self.graph),
                0 <= i <= records@.len(),
                out@.len() == i,
                forall|j: int|
                    0 <= j < i ==> ((#[trigger] out@[j]).0, out@[j].1) == self.edge_key(j)
                        && out@[j].2 == records@[j].2 && out@[j].3 == records@[j].3,
            decreases records@.len() - i,
        {
            let e = records[i];
            assert(records@[i as int] == e);
            let entry = (nodes[e.0], nodes[e.1], e.2, e.3);
            let ghost prev = out@;
            out.push(entry);
            proof {
                assert((entry.0, entry.1) == self.edge_key(i as int));
                assert forall|j: int| 0 <= j < i + 1 implies ((#[trigger] out@[j]).0, out@[j].1)
                    == self.edge_key(j) && out@[j].2 == records@[j].2 && out@[j].3 == records@[j].3 by {
                    if j < i {
                        assert(out@[j] == prev[j]);
                    } else {
                        assert(out@[j] == entry);
                    }
                }
            }
            i = i + 1;
        }
        proof {
            assert forall|j: int|
                0 <= j < out@.len() implies #[trigger] self.edge_weights().contains_key(
                (out@[j].0, out@[j].1),
            ) && self.edge_weights()[(out@[j].0, out@[j].1)] == (out@[j].2, out@[j].3) by {
                assert((out@[j].0, out@[j].1) == self.edge_key(j));
            }
            assert forall|x: int, y: int| 0 <= x < y < out@.len() implies (out@[x].0, out@[x].1) != (
            out@[y].0,
            out@[y].1,
            ) by {
                assert((out@[x].0, out@[x].1) == self.edge_key(x));
                assert((out@[y].0, out@[y].1) == self.edge_key(y));
            }
            assert forall|k: (u64, u64)| #[trigger] self.edge_weights().contains_key(k) implies exists|
                j: int,
            | 0 <= j < out@.len() && (out@[j].0, out@[j].1) == k by {
                let j = choose|j: int| 0 <= j < graph_edges(self.graph).len() && self.edge_key(j) == k;
                assert((out@[j].0, out@[j].1) == k);
            }
        }
        out
    }

    /// A copy with the same nodes, node order and edges.
    pub fn duplicate(&self) -> (r: TransitionGraph)
        requires
            self.wf(),
        ensures
            r.wf(),
            r.nodes() == self.nodes(),
            r.edge_weights() == self.edge_weights(),
    {
        let r = TransitionGraph {
            graph: graph_clone(&self.graph),
            index: self.index.duplicate(),
            weights: Ghost(self.weights@),
        };
        proof {
            assert forall|j: int| 0 <= j < graph_edges(r.graph).len() implies r.edge_key(j)
                == self.edge_key(j) by {}
            assert forall|k: (u64, u64)| #[trigger] r.weights@.contains_key(k) implies exists|j: int|
                0 <= j < graph_edges(r.graph).len() && r.edge_key(j) == k by {
                let j = choose|j: int| 0 <= j < graph_edges(self.graph).len() && self.edge_key(j) == k;
                assert(r.edge_key(j) == k);
            }
            assert forall|x: int, y: int|
                0 <= x < graph_edges(r.graph).len() && 0 <= y < graph_edges(r.graph).len() && x != y implies r.edge_key(x)
                    != r.edge_key(y) by {
                assert(self.edge_key(x) != self.edge_key(y));
            }
            assert forall|j: int| 0 <= j < graph_edges(r.graph).len() implies #[trigger] r.weights@.contains_key(r.edge_key(j))
                && r.weights@[r.edge_key(j)] == (graph_edges(r.graph)[j].2, graph_edges(r.graph)[j].3) by {
                assert(self.weights@.contains_key(self.edge_key(j)));
            }
        }
        r
    }

    /// Facts that every well-formed graph has: distinct nodes, finitely many
    /// edges, and node and edge counts within the `u32` index space.
    pub proof fn lemma_wf_facts(&self)
        requires
            self.wf(),
        ensures
            self.nodes().no_duplicates(),
            self.nodes().len() <= INDEX_LIMIT,
            self.edge_weights().dom().finite(),
            self.edge_weights().dom().len() <= INDEX_LIMIT,
    {
        let index = digest_map_contents(self.index);
        assert forall|i: int, j: int|
            0 <= i < self.nodes().len() && 0 <= j < self.nodes().len() && i != j implies self.nodes()[i]
                != self.nodes()[j] by {
            assert(index.contains_key(self.nodes()[i]));
            assert(index.contains_key(self.nodes()[j]));
        }
    }
}

} // verus!
