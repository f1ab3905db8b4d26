//! The cached Markov-chain engine over digests.
//!
//! An `Engine` keeps the distribution over state digests at each time step,
//! the registry of known transition digests and the transition graph, whose
//! nodes are the known state digests. A step is computed by the caller, which
//! evaluates the successor rows and folds the probabilities, and is then
//! published here in one call.
use vstd::prelude::*;
use crate::digest_map::{DigestMap, digest_map_contents};
use crate::graph::{TransitionGraph, INDEX_LIMIT};
use crate::grouping::{Grouping, group_by_digest, is_grouping_of, lemma_grouping_keys, lemma_grouping_unique};

verus! {

/// The bit pattern of the IEEE-754 double `1.0`.
pub const PROBABILITY_ONE: u64 = 0x3ff0_0000_0000_0000;

/// One successor of a source state: the target state's digest, the digest of
/// the transition label, and the bit pattern of the transition probability.
#[derive(Clone, Copy, Debug, PartialEq, Eq)]
pub struct Successor {
    pub target: u64,
    pub transition: u64,
    pub probability: u64,
}

/// The successors that the generator gave for one source state.
pub struct Row {
    pub source: u64,
    pub successors: Vec<Successor>,
}

/// Why a query or a step failed.
#[derive(Clone, Copy, Debug, PartialEq, Eq)]
pub enum ChainError {
    /// No distribution is recorded for this time.
    MissingTime { time: u64 },
    /// The successor probabilities of this source do not sum to one.
    NonStochasticRow { source: u64 },
}

/// The map that a sequence of `(digest, value)` pairs gives, a later pair
/// replacing an earlier one with the same digest.
pub open spec fn pairs_map(s: Seq<(u64, u64)>) -> Map<u64, u64>
    decreases s.len(),
{
    if s.len() == 0 {
        Map::empty()
    } else {
        pairs_map(s.drop_last()).insert(s.last().0, s.last().1)
    }
}

/// The edges that one row emits: `(source, target, transition, probability)`.
pub open spec fn row_edges(r: Row) -> Seq<(u64, u64, u64, u64)> {
    r.successors@.map_values(|s: Successor| (r.source, s.target, s.transition, s.probability))
}

/// The edges that a step emits, row after row.
pub open spec fn step_edges(rows: Seq<Row>) -> Seq<(u64, u64, u64, u64)>
    decreases rows.len(),
{
    if rows.len() == 0 {
        Seq::empty()
    } else {
        step_edges(rows.drop_last()) + row_edges(rows.last())
    }
}

/// The target digests of a step's edges, in order.
pub open spec fn step_targets(rows: Seq<Row>) -> Seq<u64> {
    step_edges(rows).map_values(|e: (u64, u64, u64, u64)| e.1)
}

/// An edge map after the edges of `es` were set one after the other.
pub open spec fn upsert_all(
    m: Map<(u64, u64), (u64, u64)>,
    es: Seq<(u64, u64, u64, u64)>,
) -> Map<(u64, u64), (u64, u64)>
    decreases es.len(),
{
    if es.len() == 0 {
        m
    } else {
        upsert_all(m, es.drop_last()).insert((es.last().0, es.last().1), (es.last().2, es.last().3))
    }
}

/// `v` lists each entry of `m` once, as `(key, value)`.
pub open spec fn entries_of(v: Seq<(u64, u64)>, m: Map<u64, u64>) -> bool {
    &&& forall|i: int, j: int| 0 <= i < j < v.len() ==> v[i].0 != v[j].0
    &&& forall|i: int| 0 <= i < v.len() ==> #[trigger] m.contains_key(v[i].0) && m[v[i].0] == v[i].1
    &&& forall|k: u64| #[trigger] m.contains_key(k) ==> exists|i: int| 0 <= i < v.len() && v[i].0 == k
}

/// Each key of `pairs_map(s)` is the digest of some pair of `s`.
pub proof fn lemma_pairs_map_keys(s: Seq<(u64, u64)>, k: u64)
    ensures
        pairs_map(s).contains_key(k) <==> exists|i: int| 0 <= i < s.len() && #[trigger] s[i].0 == k,
    decreases s.len(),
{
    if s.len() > 0 {
        lemma_pairs_map_keys(s.drop_last(), k);
        if exists|i: int| 0 <= i < s.drop_last().len() && #[trigger] s.drop_last()[i].0 == k {
            let i = choose|i: int| 0 <= i < s.drop_last().len() && #[trigger] s.drop_last()[i].0 == k;
            assert(s[i].0 == k);
        }
        if exists|i: int| 0 <= i < s.len() && #[trigger] s[i].0 == k {
            let i = choose|i: int| 0 <= i < s.len() && #[trigger] s[i].0 == k;
            if i < s.len() - 1 {
                assert(s.drop_last()[i].0 == k);
            }
        }
    }
}

/// The edges of the first `i + 1` rows are those of the first `i` rows
/// followed by those of row `i`.
pub proof fn lemma_step_edges_take(rows: Seq<Row>, i: int)
    requires
        0 <= i < rows.len(),
    ensures
        step_edges(rows.take(i + 1)) == step_edges(rows.take(i)) + row_edges(rows[i]),
{
    assert(rows.take(i + 1).drop_last() =~= rows.take(i));
    assert(rows.take(i + 1).last() == rows[i]);
}

/// A prefix of the rows emits no more edges than all of them.
pub proof fn lemma_step_edges_len(rows: Seq<Row>, i: int)
    requires
        0 <= i <= rows.len(),
    ensures
        step_edges(rows.take(i)).len() <= step_edges(rows).len(),
    decreases rows.len() - i,
{
    if i < rows.len() {
        lemma_step_edges_take(rows, i);
        lemma_step_edges_len(rows, i + 1);
    } else {
        assert(rows.take(i) =~= rows);
    }
}

/// A digest is a target, or a transition, of `s.push(e)` exactly where it is
/// one of `s` or of `e`.
pub proof fn lemma_push_edge_exists(s: Seq<(u64, u64, u64, u64)>, e: (u64, u64, u64, u64), d: u64)
    ensures
        (exists|k: int| 0 <= k < s.push(e).len() && #[trigger] s.push(e)[k].1 == d) <==> (
        (exists|k: int| 0 <= k < s.len() && #[trigger] s[k].1 == d) || e.1 == d),
        (exists|k: int| 0 <= k < s.push(e).len() && #[trigger] s.push(e)[k].2 == d) <==> (
        (exists|k: int| 0 <= k < s.len() && #[trigger] s[k].2 == d) || e.2 == d),
{
    let t = s.push(e);
    if exists|k: int| 0 <= k < t.len() && #[trigger] t[k].1 == d {
        let k = choose|k: int| 0 <= k < t.len() && #[trigger] t[k].1 == d;
        if k < s.len() {
            assert(s[k].1 == d);
        }
    }
    if exists|k: int| 0 <= k < s.len() && #[trigger] s[k].1 == d {
        let k = choose|k: int| 0 <= k < s.len() && #[trigger] s[k].1 == d;
        assert(t[k].1 == d);
    }
    if e.1 == d {
        assert(t[s.len() as int].1 == d);
    }
    if exists|k: int| 0 <= k < t.len() && #[trigger] t[k].2 == d {
        let k = choose|k: int| 0 <= k < t.len() && #[trigger] t[k].2 == d;
        if k < s.len() {
            assert(s[k].2 == d);
        }
    }
    if exists|k: int| 0 <= k < s.len() && #[trigger] s[k].2 == d {
        let k = choose|k: int| 0 <= k < s.len() && #[trigger] s[k].2 == d;
        assert(t[k].2 == d);
    }
    if e.2 == d {
        assert(t[s.len() as int].2 == d);
    }
}

/// `list` holds each edge of `edges` once, as `(source, target, transition,
/// probability)`.
pub open spec fn lists_edges(list: Seq<(u64, u64, u64, u64)>, edges: Map<(u64, u64), (u64, u64)>) -> bool {
    &&& forall|q: int|
        0 <= q < list.len() ==> #[trigger] edges.contains_key((list[q].0, list[q].1))
            && edges[(list[q].0, list[q].1)] == (list[q].2, list[q].3)
    &&& forall|x: int, y: int| 0 <= x < y < list.len() ==> (list[x].0, list[x].1) != (list[y].0, list[y].1)
    &&& forall|k: (u64, u64)|
        #[trigger] edges.contains_key(k) ==> exists|q: int|
            0 <= q < list.len() && (list[q].0, list[q].1) == k
}

/// The probability bits of the edge from `a` to `b`, or `0` where there is
/// none.
pub open spec fn matrix_cell(edges: Map<(u64, u64), (u64, u64)>, a: u64, b: u64) -> u64 {
    if edges.contains_key((a, b)) {
        edges[(a, b)].1
    } else {
        0
    }
}

/// The probability bits of the last entry of `list` from `a` to `b`, or `0`.
pub open spec fn cell_in(list: Seq<(u64, u64, u64, u64)>, a: u64, b: u64) -> u64
    decreases list.len(),
{
    if list.len() == 0 {
        0
    } else if list.last().0 == a && list.last().1 == b {
        list.last().3
    } else {
        cell_in(list.drop_last(), a, b)
    }
}

/// Over a list that holds each edge of `edges` once, `cell_in` is
/// `matrix_cell`.
pub proof fn lemma_cell_in(
    list: Seq<(u64, u64, u64, u64)>,
    edges: Map<(u64, u64), (u64, u64)>,
    a: u64,
    b: u64,
)
    requires
        lists_edges(list, edges),
    ensures
        cell_in(list, a, b) == matrix_cell(edges, a, b),
    decreases list.len(),
{
    lemma_cell_in_found(list, a, b);
    if edges.contains_key((a, b)) {
        let q = choose|q: int| 0 <= q < list.len() && (list[q].0, list[q].1) == (a, b);
        assert(edges.contains_key((list[q].0, list[q].1)));
    }
}

/// `cell_in` picks the entry from `a` to `b` where there is exactly one.
proof fn lemma_cell_in_found(list: Seq<(u64, u64, u64, u64)>, a: u64, b: u64)
    requires
        forall|x: int, y: int| 0 <= x < y < list.len() ==> (list[x].0, list[x].1) != (list[y].0, list[y].1),
    ensures
        forall|q: int| 0 <= q < list.len() && list[q].0 == a && list[q].1 == b ==> cell_in(list, a, b) == list[q].3,
        (forall|q: int| 0 <= q < list.len() ==> !(list[q].0 == a && list[q].1 == b)) ==> cell_in(list, a, b) == 0,
    decreases list.len(),
{
    if list.len() > 0 {
        let init = list.drop_last();
        assert forall|x: int, y: int| 0 <= x < y < init.len() implies (init[x].0, init[x].1) != (init[y].0, init[y].1) by {
            assert(init[x] == list[x] && init[y] == list[y]);
        }
        lemma_cell_in_found(init, a, b);
        assert forall|q: int| 0 <= q < list.len() && list[q].0 == a && list[q].1 == b implies cell_in(list, a, b) == list[q].3 by {
            if q < list.len() - 1 {
                assert(init[q] == list[q]);
                assert((list[q].0, list[q].1) != (list[list.len() - 1].0, list[list.len() - 1].1));
            }
        }
        if forall|q: int| 0 <= q < list.len() ==> !(list[q].0 == a && list[q].1 == b) {
            assert forall|q: int| 0 <= q < init.len() implies !(init[q].0 == a && init[q].1 == b) by {
                assert(init[q] == list[q]);
            }
        }
    }
}

/// The Markov-chain engine over digests.
pub struct Engine {
    graph: TransitionGraph,
    transitions: DigestMap,
    history: Vec<DigestMap>,
}

/// `new` is `old` after publishing a step with `rows` and `next`: the history
/// gains `next` as its last distribution; the known states keep their order
/// and gain the step's targets and the digests of `next`; the known
/// transitions gain the step's transitions; each edge of the step is set in
/// turn.
pub open spec fn advanced(old: Engine, new: Engine, rows: Seq<Row>, next: Seq<(u64, u64)>) -> bool {
    &&& new.history() == old.history().push(pairs_map(next))
    &&& new.states().len() >= old.states().len()
    &&& new.states().take(old.states().len() as int) == old.states()
    &&& forall|d: u64|
        #[trigger] new.states().contains(d) <==> old.states().contains(d)
            || step_targets(rows).contains(d) || exists|i: int|
            0 <= i < next.len() && #[trigger] next[i].0 == d
    &&& forall|x: u64|
        #[trigger] new.transitions().contains(x) <==> old.transitions().contains(x)
            || exists|k: int| 0 <= k < step_edges(rows).len() && #[trigger] step_edges(rows)[k].2 == x
    &&& new.edges() == upsert_all(old.edges(), step_edges(rows))
}

impl Engine {
    /// The known state digests, in the order in which they became known.
    pub closed spec fn states(&self) -> Seq<u64> {
        self.graph.nodes()
    }

    /// The known transition digests.
    pub closed spec fn transitions(&self) -> Set<u64> {
        digest_map_contents(self.transitions).dom()
    }

    /// The transition graph's edges: `(source, target)` to
    /// `(transition, probability bits)`.
    pub closed spec fn edges(&self) -> Map<(u64, u64), (u64, u64)> {
        self.graph.edge_weights()
    }

    /// The distribution at each time, from state digest to probability bits.
    pub closed spec fn history(&self) -> Seq<Map<u64, u64>> {
        Seq::new(self.history@.len(), |t: int| self.history@[t]@)
    }

    pub closed spec fn wf(&self) -> bool {
        &&& self.graph.wf()
        &&& self.history@.len() >= 1
        &&& forall|t: int, d: u64|
            0 <= t < self.history@.len() && #[trigger] self.history@[t]@.contains_key(d)
                ==> self.graph.nodes().contains(d)
        &&& forall|k: (u64, u64)|
            #[trigger] self.graph.edge_weights().contains_key(k) ==> self.graph.nodes().contains(
                k.0,
            ) && self.graph.nodes().contains(k.1) && digest_map_contents(
                self.transitions,
            ).contains_key(self.graph.edge_weights()[k].0)
    }

    /// An engine whose initial distribution puts probability one on `initial`.
    pub fn new(initial: u64) -> (r: Engine)
        ensures
            r.wf(),
            r.states() == seq![initial],
            r.transitions().is_empty(),
            r.edges().dom().is_empty(),
            r.history() == seq![map![initial => PROBABILITY_ONE]],
    {
        let mut graph = TransitionGraph::new();
        graph.add_node(initial);
        let mut d = DigestMap::new();
        d.insert(initial, PROBABILITY_ONE);
        let mut history: Vec<DigestMap> = Vec::new();
        history.push(d);
        let r = Engine { graph, transitions: DigestMap::new(), history };
        proof {
            assert(r.states() =~= seq![initial]);
            assert(digest_map_contents(history@[0]) =~= map![initial => PROBABILITY_ONE]);
            assert(r.history() =~= seq![map![initial => PROBABILITY_ONE]]);
            assert forall|t: int, x: u64|
                0 <= t < r.history@.len() && #[trigger] r.history@[t]@.contains_key(x)
                    implies r.graph.nodes().contains(x) by {
                assert(r.graph.nodes()[0] == initial);
            }
        }
        r
    }

    /// An engine whose initial distribution is given by `entries` of
    /// `(state digest, probability bits)`, a later entry replacing an earlier
    /// one with the same digest. Each digest becomes a known state; there are
    /// no edges.
    pub fn with_distribution(entries: &Vec<(u64, u64)>) -> (r: Engine)
        requires
            entries@.len() < INDEX_LIMIT,
        ensures
            r.wf(),
            forall|d: u64|
                r.states().contains(d) <==> exists|i: int|
                    0 <= i < entries@.len() && #[trigger] entries@[i].0 == d,
            r.transitions().is_empty(),
            r.edges() == Map::<(u64, u64), (u64, u64)>::empty(),
            r.history() == seq![pairs_map(entries@)],
    {
        let mut graph = TransitionGraph::new();
        let mut d = DigestMap::new();
        proof {
            assert(digest_map_contents(d) =~= pairs_map(entries@.take(0)));
        }
        let mut i: usize = 0;
        while i < entries.len()
            invariant
                graph.wf(),
                0 <= i <= entries@.len(),
                entries@.len() < INDEX_LIMIT,
                graph.nodes().len() <= i,
                graph.edge_weights() == Map::<(u64, u64), (u64, u64)>::empty(),
                digest_map_contents(d) == pairs_map(entries@.take(i as int)),
                forall|x: u64|
                    graph.nodes().contains(x) <==> exists|j: int|
                        0 <= j < i && #[trigger] entries@[j].0 == x,
            decreases entries@.len() - i,
        {
            let (k, v) = entries[i];
            let ghost before = graph.nodes();
            graph.add_node(k);
            d.insert(k, v);
            proof {
                assert(entries@.take(i + 1).drop_last() =~= entries@.take(i as int));
                assert(entries@.take(i + 1).last() == entries@[i as int]);
                assert forall|x: u64|
                    graph.nodes().contains(x) <==> exists|j: int|
                        0 <= j < i + 1 && #[trigger] entries@[j].0 == x by {
                    if x == k {
                        assert(entries@[i as int].0 == x);
                    } else {
                        if graph.nodes().contains(x) {
                            let j = choose|j: int| 0 <= j < graph.nodes().len() && graph.nodes()[j] == x;
                            if !before.contains(k) {
                                assert(j < before.len());
                                assert(before[j] == x);
                            }
                            assert(before.contains(x));
                        }
                        if before.contains(x) {
                            let j = choose|j: int| 0 <= j < before.len() && before[j] == x;
                            assert(graph.nodes()[j] == x);
                        }
                    }
                }
            }
            i = i + 1;
        }
        let mut history: Vec<DigestMap> = Vec::new();
        history.push(d);
        let r = Engine { graph, transitions: DigestMap::new(), history };
        proof {
            assert(entries@.take(entries@.len() as int) =~= entries@);
            assert(r.history() =~= seq![pairs_map(entries@)]);
            assert forall|t: int, x: u64|
                0 <= t < r.history@.len() && #[trigger] r.history@[t]@.contains_key(x)
                    implies r.graph.nodes().contains(x) by {
                lemma_pairs_map_keys(entries@, x);
            }
        }
        r
    }

    /// The latest time for which a distribution is recorded.
    pub fn time(&self) -> (r: u64)
        requires
            self.wf(),
        ensures
            r == self.history().len() - 1,
    {
        (self.history.len() - 1) as u64
    }

    /// The distribution at time `t`, each `(state digest, probability bits)`
    /// once; fails with `MissingTime` where none is recorded for `t`.
    pub fn distribution(&self, t: u64) -> (r: Result<Vec<(u64, u64)>, ChainError>)
        requires
            self.wf(),
        ensures
            t >= self.history().len() <==> r == Err::<Vec<(u64, u64)>, ChainError>(
                ChainError::MissingTime { time: t },
            ),
            t < self.history().len() ==> r is Ok,
            r is Ok ==> entries_of(r->Ok_0@, self.history()[t as int]),
    {
        if t < self.history.len() as u64 {
            Ok(self.history[t as usize].entries())
        } else {
            Err(ChainError::MissingTime { time: t })
        }
    }

    /// The probability bits of `state` at time `t`: `None` where no
    /// distribution is recorded for `t` or `state` has no mass in it.
    pub fn state_probability(&self, state: u64, t: u64) -> (r: Option<u64>)
        requires
            self.wf(),
        ensures
            r == (if t < self.history().len() && self.history()[t as int].contains_key(state) {
                Some(self.history()[t as int][state])
            } else {
                None::<u64>
            }),
    {
        if t < self.history.len() as u64 {
            self.history[t as usize].get(state)
        } else {
            None
        }
    }

    /// The known state digests, in the order in which they became known.
    pub fn known_states(&self) -> (r: Vec<u64>)
        requires
            self.wf(),
        ensures
            r@ == self.states(),
    {
        self.graph.node_digests()
    }

    /// The known transition digests, each once.
    pub fn known_transitions(&self) -> (r: Vec<u64>)
        requires
            self.wf(),
        ensures
            r@.no_duplicates(),
            r@.to_set() == self.transitions(),
    {
        let entries = self.transitions.entries();
        let mut out: Vec<u64> = Vec::new();
        let mut i: usize = 0;
        while i < entries.len()
            invariant
                0 <= i <= entries@.len(),
                out@ == entries@.take(i as int).map_values(|e: (u64, u64)| e.0),
            decreases entries@.len() - i,
        {
            out.push(entries[i].0);
            proof {
                assert(entries@.take(i + 1).map_values(|e: (u64, u64)| e.0) =~= entries@.take(
                    i as int,
                ).map_values(|e: (u64, u64)| e.0).push(entries@[i as int].0));
            }
            i = i + 1;
        }
        proof {
            assert(entries@.take(entries@.len() as int) =~= entries@);
            assert forall|a: int, b: int| 0 <= a < out@.len() && 0 <= b < out@.len() && a != b implies out@[a] != out@[b] by {
                if a < b {
                    assert(entries@[a].0 != entries@[b].0);
                } else {
                    assert(entries@[b].0 != entries@[a].0);
                }
            }
            assert forall|x: u64| out@.to_set().contains(x) == self.transitions().contains(x) by {
                if self.transitions().contains(x) {
                    let j = choose|j: int| 0 <= j < entries@.len() && entries@[j].0 == x;
                    assert(out@[j] == x);
                }
                if out@.contains(x) {
                    let j = choose|j: int| 0 <= j < out@.len() && out@[j] == x;
                    assert(digest_map_contents(self.transitions).contains_key(entries@[j].0));
                }
            }
            assert(out@.to_set() =~= self.transitions());
        }
        out
    }

    /// The number of known states.
    pub fn state_count(&self) -> (r: usize)
        requires
            self.wf(),
        ensures
            r == self.states().len(),
    {
        self.graph.node_count()
    }

    /// The number of edges of the transition graph.
    pub fn edge_count(&self) -> (r: usize)
        requires
            self.wf(),
        ensures
            r == self.edges().dom().len(),
    {
        self.graph.edge_count()
    }

    /// Each edge as `(source, target, transition, probability bits)`, each
    /// ordered pair of states once.
    pub fn edge_list(&self) -> (r: Vec<(u64, u64, u64, u64)>)
        requires
            self.wf(),
        ensures
            r@.len() == self.edges().dom().len(),
            forall|i: int|
                0 <= i < r@.len() ==> #[trigger] self.edges().contains_key((r@[i].0, r@[i].1))
                    && self.edges()[(r@[i].0, r@[i].1)] == (r@[i].2, r@[i].3),
            forall|i: int, j: int|
                0 <= i < j < r@.len() ==> (r@[i].0, r@[i].1) != (r@[j].0, r@[j].1),
            forall|k: (u64, u64)|
                #[trigger] self.edges().contains_key(k) ==> exists|i: int|
                    0 <= i < r@.len() && (r@[i].0, r@[i].1) == k,
    {
        let r = self.graph.edge_list();
        proof {
            assert forall|i: int| 0 <= i < r@.len() implies #[trigger] self.edges().contains_key(
                (r@[i].0, r@[i].1),
            ) && self.edges()[(r@[i].0, r@[i].1)] == (r@[i].2, r@[i].3) by {
                assert(self.graph.edge_weights().contains_key((r@[i].0, r@[i].1)));
            }
        }
        r
    }

    /// Publishes one step: `rows` are the successor rows of the sources, and
    /// `next` is the folded distribution for the next time, as
    /// `(state digest, probability bits)`.
    ///
    /// Every successor's transition becomes known and its target a known
    /// state; the edge from the row's source to the target is set to
    /// `(transition, probability)`, in row order; every digest of `next`
    /// becomes a known state; `next` is appended to the history.
    pub fn advance(&mut self, rows: &Vec<Row>, next: &Vec<(u64, u64)>)
        requires
            old(self).wf(),
            forall|i: int| 0 <= i < rows@.len() ==> old(self).states().contains(#[trigger] rows@[i].source),
            old(self).states().len() + step_edges(rows@).len() + next@.len() < INDEX_LIMIT,
            old(self).edges().dom().len() + step_edges(rows@).len() < INDEX_LIMIT,
        ensures
            final(self).wf(),
            advanced(*old(self), *final(self), rows@, next@),
    {
        let ghost old_self = *self;
        let ghost n0 = old_self.states().len();
        let ghost e0 = old_self.edges().dom().len();
        let ghost total = step_edges(rows@).len();
        let ghost mut done: Seq<(u64, u64, u64, u64)> = Seq::empty();
        proof {
            old_self.graph.lemma_wf_facts();
            assert(rows@.take(0) =~= Seq::<Row>::empty());
            assert(old_self.states().take(n0 as int) =~= old_self.states());
        }
        let mut i: usize = 0;
        while i < rows.len()
            invariant
                self.graph.wf(),
                self.history@ == old_self.history@,
                0 <= i <= rows@.len(),
                done == step_edges(rows@.take(i as int)),
                done.len() <= total,
                total == step_edges(rows@).len(),
                n0 + total + next@.len() < INDEX_LIMIT,
                e0 + total < INDEX_LIMIT,
                self.states().len() <= n0 + done.len(),
                self.states().len() >= n0,
                self.edges().dom().len() <= e0 + done.len(),
                self.states().take(n0 as int) == old_self.states(),
                self.edges() == upsert_all(old_self.edges(), done),
                forall|d: u64|
                    #[trigger] self.states().contains(d) <==> old_self.states().contains(d) || exists|k: int|
                        0 <= k < done.len() && #[trigger] done[k].1 == d,
                forall|x: u64|
                    #[trigger] self.transitions().contains(x) <==> old_self.transitions().contains(x)
                        || exists|k: int| 0 <= k < done.len() && #[trigger] done[k].2 == x,
                forall|k: (u64, u64)|
                    #[trigger] self.graph.edge_weights().contains_key(k) ==> self.graph.nodes().contains(
                        k.0,
                    ) && self.graph.nodes().contains(k.1) && digest_map_contents(
                        self.transitions,
                    ).contains_key(self.graph.edge_weights()[k].0),
                forall|r: int| 0 <= r < rows@.len() ==> self.states().contains(#[trigger] rows@[r].source),
                forall|t: int, d: u64|
                    0 <= t < self.history@.len() && #[trigger] self.history@[t]@.contains_key(d)
                        ==> self.graph.nodes().contains(d),
            decreases rows@.len() - i,
        {
            let row = &rows[i];
            proof {
                lemma_step_edges_take(rows@, i as int);
                lemma_step_edges_len(rows@, i as int + 1);
            }
            let mut j: usize = 0;
            while j < row.successors.len()
                invariant
                    self.graph.wf(),
                    self.history@ == old_self.history@,
                    0 <= i < rows@.len(),
                    *row == rows@[i as int],
                    0 <= j <= row.successors@.len(),
                    done == step_edges(rows@.take(i as int)) + row_edges(*row).take(j as int),
                    step_edges(rows@.take(i as int)).len() + row.successors@.len() <= total,
                    total == step_edges(rows@).len(),
                    n0 + total + next@.len() < INDEX_LIMIT,
                    e0 + total < INDEX_LIMIT,
                    self.states().len() <= n0 + done.len(),
                    self.states().len() >= n0,
                    self.edges().dom().len() <= e0 + done.len(),
                    self.states().take(n0 as int) == old_self.states(),
                    self.edges() == upsert_all(old_self.edges(), done),
                    forall|d: u64|
                        #[trigger] self.states().contains(d) <==> old_self.states().contains(d) || exists|k: int|
                            0 <= k < done.len() && #[trigger] done[k].1 == d,
                    forall|x: u64|
                        #[trigger] self.transitions().contains(x) <==> old_self.transitions().contains(x)
                            || exists|k: int| 0 <= k < done.len() && #[trigger] done[k].2 == x,
                    forall|k: (u64, u64)|
                        #[trigger] self.graph.edge_weights().contains_key(k) ==> self.graph.nodes().contains(
                            k.0,
                        ) && self.graph.nodes().contains(k.1) && digest_map_contents(
                            self.transitions,
                        ).contains_key(self.graph.edge_weights()[k].0),
                    forall|r: int| 0 <= r < rows@.len() ==> self.states().contains(#[trigger] rows@[r].source),
                    forall|t: int, d: u64|
                        0 <= t < self.history@.len() && #[trigger] self.history@[t]@.contains_key(d)
                            ==> self.graph.nodes().contains(d),
                decreases row.successors@.len() - j,
            {
                let s = row.successors[j];
                let ghost before = *self;
                let ghost e = (row.source, s.target, s.transition, s.probability);
                proof {
                    self.graph.lemma_wf_facts();
                    assert(row_edges(*row)[j as int] == e);
                    assert(row_edges(*row).take(j + 1) =~= row_edges(*row).take(j as int).push(e));
                    assert(self.states().contains(rows@[i as int].source));
                }
                if self.transitions.get(s.transition).is_none() {
                    let order = self.transitions.len();
                    self.transitions.insert(s.transition, order as u64);
                }
                proof {
                    assert(self.transitions() =~= before.transitions().insert(s.transition));
                }
                self.graph.add_node(s.target);
                proof {
                    assert(self.graph.nodes().take(n0 as int) =~= before.graph.nodes().take(n0 as int));
                    assert(self.graph.nodes().contains(row.source));
                    self.graph.lemma_wf_facts();
                }
                self.graph.upsert_edge(row.source, s.target, s.transition, s.probability);
                proof {
                    let old_done = done;
                    done = done.push(e);
                    assert(done.drop_last() =~= old_done);
                    assert(done =~= step_edges(rows@.take(i as int)) + row_edges(*row).take(j + 1));
                    assert forall|d: u64|
                        #[trigger] self.states().contains(d) <==> old_self.states().contains(d) || exists|k: int|
                            0 <= k < done.len() && #[trigger] done[k].1 == d by {
                        lemma_push_edge_exists(old_done, e, d);
                        assert(before.states().contains(d) <==> old_self.states().contains(d) || exists|k: int|
                            0 <= k < old_done.len() && #[trigger] old_done[k].1 == d);
                        assert(self.states().contains(d) <==> before.states().contains(d) || d == s.target);
                    }
                    assert forall|x: u64|
                        #[trigger] self.transitions().contains(x) <==> old_self.transitions().contains(x)
                            || exists|k: int| 0 <= k < done.len() && #[trigger] done[k].2 == x by {
                        lemma_push_edge_exists(old_done, e, x);
                        assert(self.transitions().contains(x) <==> before.transitions().contains(x) || x == s.transition);
                    }
                    assert forall|k: (u64, u64)|
                        #[trigger] self.graph.edge_weights().contains_key(k) implies self.graph.nodes().contains(
                            k.0,
                        ) && self.graph.nodes().contains(k.1) && digest_map_contents(
                            self.transitions,
                        ).contains_key(self.graph.edge_weights()[k].0) by {
                        if k != (row.source, s.target) {
                            assert(before.graph.edge_weights().contains_key(k));
                            assert(before.graph.nodes().contains(k.0));
                            assert(before.graph.nodes().contains(k.1));
                            assert(before.transitions().contains(before.graph.edge_weights()[k].0));
                        }
                    }
                    assert forall|r: int| 0 <= r < rows@.len() implies self.states().contains(#[trigger] rows@[r].source) by {
                        assert(before.states().contains(rows@[r].source));
                    }
                    assert forall|t: int, d: u64|
                        0 <= t < self.history@.len() && #[trigger] self.history@[t]@.contains_key(d)
                            implies self.graph.nodes().contains(d) by {
                        assert(before.graph.nodes().contains(d));
                    }
                }
                j = j + 1;
            }
            proof {
                assert(row_edges(*row).take(row.successors@.len() as int) =~= row_edges(*row));
            }
            i = i + 1;
        }
        proof {
            assert(rows@.take(rows@.len() as int) =~= rows@);
        }
        let ghost mid = *self;
        let mut d = DigestMap::new();
        proof {
            assert(digest_map_contents(d) =~= pairs_map(next@.take(0)));
        }
        let mut k: usize = 0;
        while k < next.len()
            invariant
                self.graph.wf(),
                self.history@ == old_self.history@,
                self.transitions == mid.transitions,
                self.graph.edge_weights() == mid.graph.edge_weights(),
                0 <= k <= next@.len(),
                mid.states().len() + next@.len() < INDEX_LIMIT,
                self.states().len() <= mid.states().len() + k,
                self.states().len() >= mid.states().len(),
                self.states().take(mid.states().len() as int) == mid.states(),
                digest_map_contents(d) == pairs_map(next@.take(k as int)),
                forall|x: u64|
                    #[trigger] self.states().contains(x) <==> mid.states().contains(x) || exists|j: int|
                        0 <= j < k && #[trigger] next@[j].0 == x,
            decreases next@.len() - k,
        {
            let (key, value) = next[k];
            let ghost before = self.states();
            self.graph.add_node(key);
            d.insert(key, value);
            proof {
                assert(next@.take(k + 1).drop_last() =~= next@.take(k as int));
                assert(next@.take(k + 1).last() == next@[k as int]);
                assert(self.states().take(mid.states().len() as int) =~= before.take(mid.states().len() as int));
                assert forall|x: u64|
                    #[trigger] self.states().contains(x) <==> mid.states().contains(x) || exists|j: int|
                        0 <= j < k + 1 && #[trigger] next@[j].0 == x by {
                    assert(self.states().contains(x) <==> before.contains(x) || x == key);
                    assert(before.contains(x) <==> mid.states().contains(x) || exists|j: int|
                        0 <= j < k && #[trigger] next@[j].0 == x);
                    if exists|j: int| 0 <= j < k + 1 && #[trigger] next@[j].0 == x {
                        let j = choose|j: int| 0 <= j < k + 1 && #[trigger] next@[j].0 == x;
                        if j == k {
                            assert(x == key);
                        }
                    }
                    if x == key {
                        assert(next@[k as int].0 == x);
                    }
                }
            }
            k = k + 1;
        }
        self.history.push(d);
        proof {
            assert(next@.take(next@.len() as int) =~= next@);
            assert(self.history() =~= old_self.history().push(pairs_map(next@)));
            assert(self.states().take(n0 as int) =~= mid.states().take(n0 as int));
            let tg = step_targets(rows@);
            assert(done == step_edges(rows@));
            assert forall|x: u64|
                #[trigger] self.transitions().contains(x) <==> old_self.transitions().contains(x)
                    || exists|k: int|
                    0 <= k < step_edges(rows@).len() && #[trigger] step_edges(rows@)[k].2 == x by {
                assert(mid.transitions().contains(x) <==> old_self.transitions().contains(x)
                    || exists|k: int| 0 <= k < done.len() && #[trigger] done[k].2 == x);
            }
            assert forall|dd: u64|
                #[trigger] self.states().contains(dd) <==> old_self.states().contains(dd)
                    || step_targets(rows@).contains(dd) || exists|i: int|
                    0 <= i < next@.len() && #[trigger] next@[i].0 == dd by {
                if exists|q: int| 0 <= q < done.len() && #[trigger] done[q].1 == dd {
                    let q = choose|q: int| 0 <= q < done.len() && #[trigger] done[q].1 == dd;
                    assert(tg[q] == dd);
                }
                if tg.contains(dd) {
                    let q = choose|q: int| 0 <= q < tg.len() && tg[q] == dd;
                    assert(done[q].1 == dd);
                }
            }
            assert forall|t: int, x: u64|
                0 <= t < self.history@.len() && #[trigger] self.history@[t]@.contains_key(x)
                    implies self.graph.nodes().contains(x) by {
                if t < old_self.history@.len() {
                    assert(mid.history@[t] == self.history@[t]);
                    assert(mid.graph.nodes().contains(x));
                    assert(self.states().contains(x));
                } else {
                    lemma_pairs_map_keys(next@, x);
                }
            }
            assert forall|kk: (u64, u64)|
                #[trigger] self.graph.edge_weights().contains_key(kk) implies self.graph.nodes().contains(
                    kk.0,
                ) && self.graph.nodes().contains(kk.1) && digest_map_contents(
                    self.transitions,
                ).contains_key(self.graph.edge_weights()[kk].0) by {
                assert(mid.graph.edge_weights().contains_key(kk));
            }
        }
    }

    /// Whether a step with these rows and this next distribution fits in the
    /// index space of the transition graph, as `advance` requires.
    pub fn fits_step(&self, rows: &Vec<Row>, next: &Vec<(u64, u64)>) -> (r: bool)
        requires
            self.wf(),
        ensures
            r == (self.states().len() + step_edges(rows@).len() + next@.len() < INDEX_LIMIT
                && self.edges().dom().len() + step_edges(rows@).len() < INDEX_LIMIT),
    {
        let limit = INDEX_LIMIT as u64;
        let mut count: u64 = 0;
        let mut i: usize = 0;
        proof {
            assert(rows@.take(0) =~= Seq::<Row>::empty());
        }
        while i < rows.len()
            invariant
                0 <= i <= rows@.len(),
                limit == INDEX_LIMIT,
                count == step_edges(rows@.take(i as int)).len(),
                count <= limit,
            decreases rows@.len() - i,
        {
            proof {
                lemma_step_edges_take(rows@, i as int);
            }
            let len = rows[i].successors.len() as u64;
            if len > limit - count {
                proof {
                    lemma_step_edges_len(rows@, i as int + 1);
                }
                return false;
            }
            count = count + len;
            i = i + 1;
        }
        proof {
            assert(rows@.take(rows@.len() as int) =~= rows@);
        }
        let states = self.state_count() as u64;
        let edges = self.edge_count() as u64;
        let nexts = next.len() as u64;
        proof {
            self.graph.lemma_wf_facts();
        }
        if nexts > limit || states + count >= limit || states + count + nexts >= limit {
            return false;
        }
        edges + count < limit
    }

    /// The state digests of the successor targets of a step, grouped: the
    /// fold of a step sums, for each group, the contributions of its
    /// positions into the probability of the group's digest.
    pub fn step_target_groups(rows: &Vec<Row>) -> (r: Grouping)
        ensures
            is_grouping_of(step_targets(rows@), r),
    {
        let mut targets: Vec<u64> = Vec::new();
        let mut i: usize = 0;
        proof {
            assert(rows@.take(0) =~= Seq::<Row>::empty());
            assert(targets@ =~= step_targets(rows@.take(0)));
        }
        while i < rows.len()
            invariant
                0 <= i <= rows@.len(),
                targets@ == step_targets(rows@.take(i as int)),
            decreases rows@.len() - i,
        {
            let row = &rows[i];
            proof {
                lemma_step_edges_take(rows@, i as int);
            }
            let ghost start = targets@;
            let mut j: usize = 0;
            while j < row.successors.len()
                invariant
                    0 <= i < rows@.len(),
                    *row == rows@[i as int],
                    0 <= j <= row.successors@.len(),
                    targets@ == start + row_edges(*row).take(j as int).map_values(
                        |e: (u64, u64, u64, u64)| e.1,
                    ),
                decreases row.successors@.len() - j,
            {
                targets.push(row.successors[j].target);
                proof {
                    assert(row_edges(*row).take(j + 1) =~= row_edges(*row).take(j as int).push(
                        row_edges(*row)[j as int],
                    ));
                    assert(targets@ =~= start + row_edges(*row).take(j + 1).map_values(
                        |e: (u64, u64, u64, u64)| e.1,
                    ));
                }
                j = j + 1;
            }
            proof {
                assert(row_edges(*row).take(row.successors@.len() as int) =~= row_edges(*row));
                assert(targets@ =~= step_targets(rows@.take(i + 1)));
            }
            i = i + 1;
        }
        proof {
            assert(rows@.take(rows@.len() as int) =~= rows@);
        }
        group_by_digest(&targets)
    }

    /// The distribution that a step's fold gives: for the `g`-th group of the
    /// step's targets (as `step_target_groups` groups them), the digest of the
    /// group with `masses[g]`, the summed probability bits of its
    /// contributions. `None` where `masses` does not hold one mass per group.
    pub fn fold_next(rows: &Vec<Row>, masses: &Vec<u64>) -> (r: Option<Vec<(u64, u64)>>)
        ensures
            forall|gr: Grouping|
                is_grouping_of(step_targets(rows@), gr) ==> {
                    &&& (r is Some <==> masses@.len() == gr.keys@.len())
                    &&& r is Some ==> r->0@.len() == gr.keys@.len() && forall|g: int|
                        0 <= g < gr.keys@.len() ==> #[trigger] r->0@[g] == (gr.keys@[g], masses@[g])
                },
            r is Some ==> forall|d: u64|
                #[trigger] pairs_map(r->0@).contains_key(d) <==> step_targets(rows@).contains(d),
            r is Some ==> forall|i: int, j: int|
                0 <= i < j < r->0@.len() ==> r->0@[i].0 != r->0@[j].0,
    {
        let plan = Engine::step_target_groups(rows);
        proof {
            assert forall|gr: Grouping| is_grouping_of(step_targets(rows@), gr) implies gr.keys@
                == plan.keys@ by {
                lemma_grouping_unique(step_targets(rows@), plan, gr);
            }
            lemma_grouping_keys(step_targets(rows@), plan);
        }
        if masses.len() != plan.keys.len() {
            return None;
        }
        let mut out: Vec<(u64, u64)> = Vec::new();
        let mut g: usize = 0;
        while g < plan.keys.len()
            invariant
                masses@.len() == plan.keys@.len(),
                0 <= g <= plan.keys@.len(),
                out@.len() == g,
                forall|h: int| 0 <= h < g ==> #[trigger] out@[h] == (plan.keys@[h], masses@[h]),
            decreases plan.keys@.len() - g,
        {
            out.push((plan.keys[g], masses[g]));
            g = g + 1;
        }
        proof {
            assert forall|d: u64| #[trigger] pairs_map(out@).contains_key(d) <==> step_targets(
                rows@,
            ).contains(d) by {
                lemma_pairs_map_keys(out@, d);
                if plan.keys@.contains(d) {
                    let g = choose|g: int| 0 <= g < plan.keys@.len() && plan.keys@[g] == d;
                    assert(out@[g].0 == d);
                }
                if exists|i: int| 0 <= i < out@.len() && #[trigger] out@[i].0 == d {
                    let i = choose|i: int| 0 <= i < out@.len() && #[trigger] out@[i].0 == d;
                    assert(plan.keys@[i] == d);
                }
            }
            assert forall|i: int, j: int| 0 <= i < j < out@.len() implies out@[i].0 != out@[j].0 by {
                assert(out@[i].0 == plan.keys@[i] && out@[j].0 == plan.keys@[j]);
            }
        }
        Some(out)
    }

    /// Whether a traversal has settled: no state became known since there
    /// were `previous` known states.
    pub fn traversal_settled(&self, previous: usize) -> (r: bool)
        requires
            self.wf(),
        ensures
            r == (self.states().len() == previous),
    {
        self.state_count() == previous
    }

    /// Takes over the known states, known transitions and transition graph of
    /// `other`, keeping this engine's distribution history.
    pub fn adopt_discoveries(&mut self, other: &Engine)
        requires
            old(self).wf(),
            other.wf(),
            forall|d: u64| #[trigger] old(self).states().contains(d) ==> other.states().contains(d),
        ensures
            final(self).wf(),
            final(self).states() == other.states(),
            final(self).transitions() == other.transitions(),
            final(self).edges() == other.edges(),
            final(self).history() == old(self).history(),
    {
        self.graph = other.graph.duplicate();
        self.transitions = other.transitions.duplicate();
        proof {
            assert forall|t: int, d: u64|
                0 <= t < self.history@.len() && #[trigger] self.history@[t]@.contains_key(d)
                    implies self.graph.nodes().contains(d) by {
                assert(old(self).history@[t] == self.history@[t]);
                assert(old(self).graph.nodes().contains(d));
                assert(old(self).states().contains(d));
                assert(other.states().contains(d));
            }
        }
    }

    /// A copy with the same states, transitions, edges and history.
    pub fn duplicate(&self) -> (r: Engine)
        requires
            self.wf(),
        ensures
            r.wf(),
            r.states() == self.states(),
            r.transitions() == self.transitions(),
            r.edges() == self.edges(),
            r.history() == self.history(),
    {
        let mut history: Vec<DigestMap> = Vec::new();
        let mut t: usize = 0;
        while t < self.history.len()
            invariant
                0 <= t <= self.history@.len(),
                history@.len() == t,
                forall|u: int| 0 <= u < t ==> (#[trigger] history@[u])@ == self.history@[u]@,
            decreases self.history@.len() - t,
        {
            history.push(self.history[t].duplicate());
            t = t + 1;
        }
        let r = Engine {
            graph: self.graph.duplicate(),
            transitions: self.transitions.duplicate(),
            history,
        };
        proof {
            assert(r.history() =~= self.history());
            assert forall|u: int, d: u64|
                0 <= u < r.history@.len() && #[trigger] r.history@[u]@.contains_key(d)
                    implies r.graph.nodes().contains(d) by {
                assert(self.history@[u]@.contains_key(d));
            }
        }
        r
    }

    /// The transition-rate matrix over the known states: `(m, order)` where
    /// `order` lists the known states and `m[i][j]` holds the probability bits
    /// of the edge from `order[i]` to `order[j]`, or `0` (the bits of `0.0`)
    /// where there is no such edge.
    pub fn transition_matrix(&self) -> (r: (Vec<Vec<u64>>, Vec<u64>))
        requires
            self.wf(),
        ensures
            r.1@ == self.states(),
            r.0@.len() == self.states().len(),
            forall|i: int|
                0 <= i < r.0@.len() ==> (#[trigger] r.0@[i])@.len() == self.states().len(),
            forall|i: int, j: int|
                0 <= i < r.0@.len() && 0 <= j < r.0@.len() ==> #[trigger] r.0@[i]@[j]
                    == matrix_cell(self.edges(), self.states()[i], self.states()[j]),
    {
        let order = self.known_states();
        let list = self.edge_list();
        let n = order.len();
        proof {
            self.graph.lemma_wf_facts();
            assert(lists_edges(list@, self.edges()));
        }
        let mut m: Vec<Vec<u64>> = Vec::new();
        let mut i: usize = 0;
        while i < n
            invariant
                self.wf(),
                order@ == self.states(),
                order@.no_duplicates(),
                n == order@.len(),
                0 <= i <= n,
                m@.len() == i,
                lists_edges(list@, self.edges()),
                forall|a: int| 0 <= a < i ==> (#[trigger] m@[a])@.len() == n,
                forall|a: int, b: int|
                    0 <= a < i && 0 <= b < n ==> #[trigger] m@[a]@[b] == matrix_cell(
                        self.edges(),
                        order@[a],
                        order@[b],
                    ),
            decreases n - i,
        {
            let source = order[i];
            let mut row: Vec<u64> = Vec::new();
            let mut z: usize = 0;
            while z < n
                invariant
                    0 <= z <= n,
                    row@.len() == z,
                    forall|b: int| 0 <= b < z ==> row@[b] == 0,
                decreases n - z,
            {
                row.push(0);
                z = z + 1;
            }
            let mut q: usize = 0;
            while q < list.len()
                invariant
                    self.wf(),
                    order@ == self.states(),
                    order@.no_duplicates(),
                    n == order@.len(),
                    0 <= i < n,
                    source == order@[i as int],
                    lists_edges(list@, self.edges()),
                    0 <= q <= list@.len(),
                    row@.len() == n,
                    forall|b: int|
                        0 <= b < n ==> #[trigger] row@[b] == cell_in(
                            list@.take(q as int),
                            source,
                            order@[b],
                        ),
                decreases list@.len() - q,
            {
                let e = list[q];
                proof {
                    assert(list@.take(q + 1).drop_last() =~= list@.take(q as int));
                    assert(list@.take(q + 1).last() == e);
                }
                if e.0 == source {
                    match self.graph.node_index(e.1) {
                        Some(j) => {
                            row.set(j, e.3);
                            proof {
                                assert forall|b: int| 0 <= b < n implies #[trigger] row@[b] == cell_in(
                                    list@.take(q + 1),
                                    source,
                                    order@[b],
                                ) by {
                                    if b != j {
                                        assert(order@[b] != order@[j as int]);
                                    }
                                }
                            }
                        },
                        None => {
                            proof {
                                assert(list@[q as int] == e);
                                assert(self.edges().contains_key((list@[q as int].0, list@[q as int].1)));
                                assert(self.states().contains(e.1));
                            }
                        },
                    }
                }
                q = q + 1;
            }
            proof {
                assert(list@.take(list@.len() as int) =~= list@);
                assert forall|b: int| 0 <= b < n implies row@[b] == matrix_cell(
                    self.edges(),
                    source,
                    order@[b],
                ) by {
                    lemma_cell_in(list@, self.edges(), source, order@[b]);
                }
            }
            m.push(row);
            i = i + 1;
        }
        (m, order)
    }
}

/// Every state that has mass in a recorded distribution is a known state.
pub proof fn lemma_distribution_states_known(e: Engine, t: int, d: u64)
    requires
        e.wf(),
        0 <= t < e.history().len(),
        e.history()[t].contains_key(d),
    ensures
        e.states().contains(d),
{
    assert(e.history@[t]@.contains_key(d));
}

/// Every edge of the transition graph joins two known states and carries a
/// known transition.
pub proof fn lemma_edges_known(e: Engine, k: (u64, u64))
    requires
        e.wf(),
        e.edges().contains_key(k),
    ensures
        e.states().contains(k.0),
        e.states().contains(k.1),
        e.transitions().contains(e.edges()[k].0),
{
}

/// The known states are distinct.
pub proof fn lemma_states_distinct(e: Engine)
    requires
        e.wf(),
    ensures
        e.states().no_duplicates(),
{
    e.graph.lemma_wf_facts();
}

/// Setting edges that are already present with the same payloads leaves the
/// edge map as it is.
pub proof fn lemma_upsert_present(m: Map<(u64, u64), (u64, u64)>, es: Seq<(u64, u64, u64, u64)>)
    requires
        forall|k: int|
            0 <= k < es.len() ==> #[trigger] m.contains_key((es[k].0, es[k].1)) && m[(es[k].0, es[k].1)]
                == (es[k].2, es[k].3),
    ensures
        upsert_all(m, es) == m,
    decreases es.len(),
{
    if es.len() > 0 {
        let init = es.drop_last();
        assert forall|k: int| 0 <= k < init.len() implies #[trigger] m.contains_key((init[k].0, init[k].1))
            && m[(init[k].0, init[k].1)] == (init[k].2, init[k].3) by {
            assert(init[k] == es[k]);
            assert(m.contains_key((es[k].0, es[k].1)));
        }
        lemma_upsert_present(m, init);
        let l = es[es.len() - 1];
        assert(m.contains_key((l.0, l.1)));
        assert(m.insert((l.0, l.1), (l.2, l.3)) =~= m);
    }
}

/// Publishing again a step that was already explored is a no-op on the known
/// states, the known transitions and the transition graph: where every edge of
/// the step already stands in the graph with the same payload and every digest
/// of the next distribution is already known, a step changes none of them.
pub proof fn lemma_explored_step_is_noop(
    before: Engine,
    after: Engine,
    rows: Seq<Row>,
    next: Seq<(u64, u64)>,
)
    requires
        before.wf(),
        after.wf(),
        advanced(before, after, rows, next),
        forall|k: int|
            0 <= k < step_edges(rows).len() ==> #[trigger] before.edges().contains_key(
                (step_edges(rows)[k].0, step_edges(rows)[k].1),
            ) && before.edges()[(step_edges(rows)[k].0, step_edges(rows)[k].1)] == (
            step_edges(rows)[k].2,
            step_edges(rows)[k].3,
            ),
        forall|i: int| 0 <= i < next.len() ==> before.states().contains(#[trigger] next[i].0),
    ensures
        after.states() == before.states(),
        after.transitions() == before.transitions(),
        after.edges() == before.edges(),
{
    let es = step_edges(rows);
    lemma_upsert_present(before.edges(), es);
    assert forall|x: u64| #[trigger] after.transitions().contains(x) == before.transitions().contains(x) by {
        if exists|k: int| 0 <= k < es.len() && #[trigger] es[k].2 == x {
            let k = choose|k: int| 0 <= k < es.len() && #[trigger] es[k].2 == x;
            assert(before.edges().contains_key((es[k].0, es[k].1)));
            lemma_edges_known(before, (es[k].0, es[k].1));
        }
    }
    assert(after.transitions() =~= before.transitions());
    assert forall|d: u64| #[trigger] after.states().contains(d) implies before.states().contains(d) by {
        if step_targets(rows).contains(d) {
            let k = choose|k: int| 0 <= k < step_targets(rows).len() && step_targets(rows)[k] == d;
            assert(before.edges().contains_key((es[k].0, es[k].1)));
            lemma_edges_known(before, (es[k].0, es[k].1));
        }
        if exists|i: int| 0 <= i < next.len() && #[trigger] next[i].0 == d {
            let i = choose|i: int| 0 <= i < next.len() && #[trigger] next[i].0 == d;
            assert(before.states().contains(next[i].0));
        }
    }
    lemma_states_distinct(after);
    let n = before.states().len() as int;
    if after.states().len() > n {
        let x = after.states()[n];
        assert(after.states().contains(x));
        assert(before.states().contains(x));
        let w = choose|w: int| 0 <= w < n && before.states()[w] == x;
        assert(after.states().take(n)[w] == x);
        assert(after.states()[w] == after.states()[n]);
    }
    assert(after.states().len() == n);
    assert(after.states() =~= after.states().take(n));
}

/// Every key of `upsert_all(m, es)` is a key of `m` with its payload, or the
/// key of an entry of `es` with that entry's payload.
pub proof fn lemma_upsert_all_keys(m: Map<(u64, u64), (u64, u64)>, es: Seq<(u64, u64, u64, u64)>, k: (u64, u64))
    ensures
        upsert_all(m, es).contains_key(k) ==> (m.contains_key(k) && upsert_all(m, es)[k] == m[k])
            || exists|i: int|
            0 <= i < es.len() && (es[i].0, es[i].1) == k && #[trigger] upsert_all(m, es)[k] == (
            es[i].2,
            es[i].3,
            ),
    decreases es.len(),
{
    if es.len() > 0 {
        let init = es.drop_last();
        lemma_upsert_all_keys(m, init, k);
        let l = es.last();
        if (l.0, l.1) != k && upsert_all(m, init).contains_key(k) && !(m.contains_key(k)
            && upsert_all(m, init)[k] == m[k]) {
            let i = choose|i: int|
                0 <= i < init.len() && (init[i].0, init[i].1) == k && #[trigger] upsert_all(m, init)[k]
                    == (init[i].2, init[i].3);
            assert(es[i] == init[i]);
            assert(upsert_all(m, es)[k] == (es[i].2, es[i].3));
        }
        if (l.0, l.1) == k {
            assert(upsert_all(m, es)[k] == (es[es.len() - 1].2, es[es.len() - 1].3));
        }
    }
}

/// The source of every edge that a step emits is the source of one of its
/// rows.
pub proof fn lemma_step_edge_source(rows: Seq<Row>, k: int)
    requires
        0 <= k < step_edges(rows).len(),
    ensures
        exists|r: int| 0 <= r < rows.len() && #[trigger] rows[r].source == step_edges(rows)[k].0,
    decreases rows.len(),
{
    let init = rows.drop_last();
    let n = step_edges(init).len();
    if k < n {
        lemma_step_edge_source(init, k);
        let r = choose|r: int| 0 <= r < init.len() && #[trigger] init[r].source == step_edges(init)[k].0;
        assert(rows[r] == init[r]);
    } else {
        assert(step_edges(rows)[k] == row_edges(rows.last())[k - n]);
        assert(rows[rows.len() - 1].source == step_edges(rows)[k].0);
    }
}

/// A step keeps the bookkeeping closed: after publishing a step from an
/// engine whose rows start at known states, every state with mass in any
/// recorded distribution is a known state, and every edge joins two known
/// states and carries a known transition.
pub proof fn lemma_step_keeps_known(before: Engine, after: Engine, rows: Seq<Row>, next: Seq<(u64, u64)>)
    requires
        before.wf(),
        advanced(before, after, rows, next),
        forall|i: int| 0 <= i < rows.len() ==> before.states().contains(#[trigger] rows[i].source),
    ensures
        forall|t: int, d: u64|
            0 <= t < after.history().len() && #[trigger] after.history()[t].contains_key(d)
                ==> after.states().contains(d),
        forall|k: (u64, u64)|
            #[trigger] after.edges().contains_key(k) ==> after.states().contains(k.0)
                && after.states().contains(k.1) && after.transitions().contains(after.edges()[k].0),
{
    let es = step_edges(rows);
    assert forall|t: int, d: u64|
        0 <= t < after.history().len() && #[trigger] after.history()[t].contains_key(d)
            implies after.states().contains(d) by {
        if t < before.history().len() {
            assert(after.history()[t] == before.history()[t]);
            lemma_distribution_states_known(before, t, d);
            assert(after.states().contains(d));
        } else {
            assert(after.history()[t] == pairs_map(next));
            lemma_pairs_map_keys(next, d);
            let i = choose|i: int| 0 <= i < next.len() && #[trigger] next[i].0 == d;
            assert(after.states().contains(d));
        }
    }
    assert forall|k: (u64, u64)| #[trigger] after.edges().contains_key(k) implies after.states().contains(k.0)
        && after.states().contains(k.1) && after.transitions().contains(after.edges()[k].0) by {
        lemma_upsert_all_keys(before.edges(), es, k);
        if before.edges().contains_key(k) && after.edges()[k] == before.edges()[k] {
            lemma_edges_known(before, k);
            assert(after.states().contains(k.0));
            assert(after.states().contains(k.1));
            assert(after.transitions().contains(after.edges()[k].0));
        } else {
            let i = choose|i: int|
                0 <= i < es.len() && (es[i].0, es[i].1) == k && #[trigger] upsert_all(before.edges(), es)[k]
                    == (es[i].2, es[i].3);
            lemma_step_edge_source(rows, i);
            let r = choose|r: int| 0 <= r < rows.len() && #[trigger] rows[r].source == es[i].0;
            assert(before.states().contains(rows[r].source));
            assert(after.states().contains(k.0));
            assert(step_targets(rows)[i] == k.1);
            assert(step_targets(rows).contains(k.1));
            assert(after.states().contains(k.1));
            assert(es[i].2 == after.edges()[k].0);
            assert(after.transitions().contains(after.edges()[k].0));
        }
    }
}

} // verus!
