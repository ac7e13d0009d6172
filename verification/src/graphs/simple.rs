//! The simple-graph variants: at most one edge between any pair of distinct
//! nodes, and no self-loops.
//!
//! One generic core carries both adjacency encodings.  Every node slot holds
//! the node's payload together with its adjacency record, a sequence of
//! `(neighbor, edge)` pairs; the `MAPADJ` flag selects the map-flavored
//! encoding, which keys the record by neighbor (unique keys are an invariant
//! of every simple graph) and differs observably only in iteration order.

use crate::arena::{count_some, lemma_wf_after_value_update, Arena, Slot};
use crate::error::GraphError;
use crate::graphs::{
    collect_edge_handles, collect_incident, collect_node_handles, degree_count, degree_scan,
    edge_handle_seq, incident_count, lemma_degree_split, lemma_edge_handle_seq,
    lemma_node_handle_seq, lemma_pair_count_distinct_edges, lemma_take_all, node_handle_seq,
    self_loop_count, Edge, EdgeRef, Graph, SimpleGraph,
};
use crate::keys::{EdgeIdx, NodeIdx};
use vstd::multiset::Multiset;
use vstd::prelude::*;

verus! {

/// One stored node of a simple graph: the payload plus the node's adjacency
/// record.
pub struct SimpleNode<N> {
    /// the caller's payload
    pub data: N,
    /// `(neighbor, edge)` associations of this node; for a directed graph
    /// only the outgoing ones
    pub adj: Vec<(NodeIdx, EdgeIdx)>,
}

/// The common core of the simple-graph variants, generic over direction and
/// over the adjacency encoding.
pub struct SimpleGraphCore<N, E, const DIRECTED: bool, const MAPADJ: bool> {
    pub(crate) nodes: Arena<SimpleNode<N>>,
    pub(crate) edges: Arena<Edge<E>>,
}

/// A simple graph whose adjacency records are plain appended lists.
pub type SimpleListGraph<N, E, const DIRECTED: bool> = SimpleGraphCore<N, E, DIRECTED, false>;

/// A simple graph whose adjacency records are keyed by neighbor.
pub type SimpleMapGraph<N, E, const DIRECTED: bool> = SimpleGraphCore<N, E, DIRECTED, true>;

impl<N, E, const DIRECTED: bool, const MAPADJ: bool> SimpleGraphCore<N, E, DIRECTED, MAPADJ> {
    /// The handle that addresses node slot `i` right now.
    pub(crate) open spec fn owner_at(&self, i: int) -> NodeIdx {
        NodeIdx { index: i as usize, generation: self.nodes.gen_at(i) }
    }

    /// The adjacency record stored in node slot `i`.
    pub(crate) open spec fn rec_at(&self, i: int) -> Seq<(NodeIdx, EdgeIdx)> {
        self.nodes.value_at(i).adj@
    }

    /// Whether one adjacency entry of node `n` is sound: it names a live
    /// edge between `n` and the entry's neighbor (outgoing when directed).
    pub(crate) open spec fn rec_entry_ok(&self, n: NodeIdx, p: (NodeIdx, EdgeIdx)) -> bool {
        &&& self.edges.is_live(p.1.index as int, p.1.generation)
        &&& if DIRECTED {
            self.edges.value_at(p.1.index as int).src == n && self.edges.value_at(
                p.1.index as int,
            ).dst == p.0
        } else {
            (self.edges.value_at(p.1.index as int).src == n && self.edges.value_at(
                p.1.index as int,
            ).dst == p.0) || (self.edges.value_at(p.1.index as int).dst == n
                && self.edges.value_at(p.1.index as int).src == p.0)
        }
    }

    /// Whether the adjacency record in node slot `i` is sound, duplicate
    /// free and complete for the live edges oriented from its node.
    pub(crate) open spec fn rec_ok_at(&self, i: int) -> bool {
        let n = self.owner_at(i);
        let rec = self.rec_at(i);
        &&& forall|k: int| 0 <= k < rec.len() ==> self.rec_entry_ok(n, #[trigger] rec[k])
        &&& forall|k1: int, k2: int| 0 <= k1 < k2 < rec.len() ==> rec[k1].1 != rec[k2].1
        &&& forall|j: int|
            0 <= j < self.edges.slot_count() && (#[trigger] self.edges.slots_spec()[j]).value
                is Some ==> {
                let ed = self.edges.slots_spec()[j].value.unwrap();
                let e = EdgeIdx { index: j as usize, generation: self.edges.gen_at(j) };
                &&& (ed.src == n ==> rec.contains((ed.dst, e)))
                &&& (!DIRECTED && ed.dst == n ==> rec.contains((ed.src, e)))
            }
    }

    /// Every live edge joins two distinct live nodes.
    pub(crate) open spec fn edges_ok(&self) -> bool {
        forall|j: int|
            0 <= j < self.edges.slot_count() && (#[trigger] self.edges.slots_spec()[j]).value
                is Some ==> {
                let ed = self.edges.slots_spec()[j].value.unwrap();
                &&& self.nodes.is_live(ed.src.index as int, ed.src.generation)
                &&& self.nodes.is_live(ed.dst.index as int, ed.dst.generation)
                &&& ed.src != ed.dst
            }
    }

    /// No two live edges join the same pair of nodes (the same ordered pair
    /// when directed, the same unordered pair when undirected).
    pub(crate) open spec fn pairs_unique(&self) -> bool {
        forall|j1: int, j2: int|
            0 <= j1 < self.edges.slot_count() && 0 <= j2 < self.edges.slot_count() && j1 != j2
                && (#[trigger] self.edges.slots_spec()[j1]).value is Some && (
            #[trigger] self.edges.slots_spec()[j2]).value is Some ==> {
                let e1 = self.edges.slots_spec()[j1].value.unwrap();
                let e2 = self.edges.slots_spec()[j2].value.unwrap();
                !crate::graphs::connects_flag(DIRECTED, e2.src, e2.dst, e1.src, e1.dst)
            }
    }

    /// The whole structural invariant of a simple graph.
    pub(crate) open spec fn inv(&self) -> bool {
        &&& self.nodes.wf()
        &&& self.edges.wf()
        &&& 2 * count_some(self.edges.slots_spec()) <= usize::MAX
        &&& self.edges_ok()
        &&& self.pairs_unique()
        &&& forall|i: int|
            0 <= i < self.nodes.slot_count() && (#[trigger] self.nodes.slots_spec()[i]).value
                is Some ==> self.rec_ok_at(i)
    }
}

/// Finds the position of the first record entry whose neighbor is `m`.
fn find_by_neighbor(rec: &Vec<(NodeIdx, EdgeIdx)>, m: NodeIdx) -> (r: Option<usize>)
    ensures
        match r {
            Some(k) => k < rec@.len() && rec@[k as int].0 == m,
            None => forall|k: int| 0 <= k < rec@.len() ==> (#[trigger] rec@[k]).0 != m,
        },
{
    let n = rec.len();
    let mut k: usize = 0;
    while k < n
        invariant
            n == rec@.len(),
            k <= n,
            forall|j: int| 0 <= j < k ==> (#[trigger] rec@[j]).0 != m,
        decreases n - k,
    {
        let p = rec[k];
        if p.0 == m {
            return Some(k);
        }
        k = k + 1;
    }
    None
}

/// Finds the position of the record entry naming the edge `e`.
fn find_by_edge(rec: &Vec<(NodeIdx, EdgeIdx)>, e: EdgeIdx) -> (r: Option<usize>)
    ensures
        match r {
            Some(k) => k < rec@.len() && rec@[k as int].1 == e,
            None => forall|k: int| 0 <= k < rec@.len() ==> (#[trigger] rec@[k]).1 != e,
        },
{
    let n = rec.len();
    let mut k: usize = 0;
    while k < n
        invariant
            n == rec@.len(),
            k <= n,
            forall|j: int| 0 <= j < k ==> (#[trigger] rec@[j]).1 != e,
        decreases n - k,
    {
        let p = rec[k];
        if p.1 == e {
            return Some(k);
        }
        k = k + 1;
    }
    None
}

impl<N, E, const DIRECTED: bool, const MAPADJ: bool> Graph<N, E> for SimpleGraphCore<
    N,
    E,
    DIRECTED,
    MAPADJ,
> {
    open spec fn directed_spec() -> bool {
        DIRECTED
    }

    open spec fn multigraph_spec() -> bool {
        false
    }

    open spec fn adj_prepends_spec() -> bool {
        DIRECTED && MAPADJ
    }

    closed spec fn wf(&self) -> bool {
        self.inv()
    }

    closed spec fn has_node_spec(&self, n: NodeIdx) -> bool {
        self.nodes.is_live(n.index as int, n.generation)
    }

    closed spec fn node_value_spec(&self, n: NodeIdx) -> N {
        self.nodes.value_at(n.index as int).data
    }

    closed spec fn node_count_spec(&self) -> nat {
        self.nodes.live_count()
    }

    closed spec fn node_slot_count(&self) -> nat {
        self.nodes.slot_count()
    }

    closed spec fn node_gen_spec(&self, i: int) -> u64 {
        self.nodes.gen_at(i)
    }

    closed spec fn has_edge_spec(&self, e: EdgeIdx) -> bool {
        self.edges.is_live(e.index as int, e.generation)
    }

    closed spec fn edge_src_spec(&self, e: EdgeIdx) -> NodeIdx {
        self.edges.value_at(e.index as int).src
    }

    closed spec fn edge_dst_spec(&self, e: EdgeIdx) -> NodeIdx {
        self.edges.value_at(e.index as int).dst
    }

    closed spec fn edge_value_spec(&self, e: EdgeIdx) -> E {
        self.edges.value_at(e.index as int).data
    }

    closed spec fn edge_count_spec(&self) -> nat {
        self.edges.live_count()
    }

    closed spec fn edge_slot_count(&self) -> nat {
        self.edges.slot_count()
    }

    closed spec fn edge_gen_spec(&self, i: int) -> u64 {
        self.edges.gen_at(i)
    }

    closed spec fn degree_spec(&self, n: NodeIdx) -> nat {
        degree_count(self.edges.slots_spec(), n)
    }

    closed spec fn incident_spec(&self, n: NodeIdx) -> nat {
        incident_count(self.edges.slots_spec(), n)
    }

    closed spec fn self_loop_spec(&self, n: NodeIdx) -> nat {
        self_loop_count(self.edges.slots_spec(), n)
    }

    closed spec fn adj_seq(&self, n: NodeIdx) -> Seq<(NodeIdx, EdgeIdx)> {
        self.rec_at(n.index as int)
    }

    closed spec fn nodes_seq(&self) -> Seq<NodeIdx> {
        node_handle_seq(self.nodes.slots_spec())
    }

    closed spec fn edges_seq(&self) -> Seq<EdgeIdx> {
        edge_handle_seq(self.edges.slots_spec())
    }

    proof fn lemma_node_handle(&self, n: NodeIdx) {
    }

    proof fn lemma_edge_handle(&self, e: EdgeIdx) {
        assert(self.edges.slots_spec()[e.index as int].value is Some);
    }

    proof fn lemma_adj_entry(&self, n: NodeIdx, k: int) {
        let i = n.index as int;
        assert(self.nodes.slots_spec()[i].value is Some);
        assert(self.rec_ok_at(i));
        assert(self.owner_at(i) == n);
        let p = self.adj_seq(n)[k];
        assert(self.rec_entry_ok(n, p));
        assert(self.edges.slots_spec()[p.1.index as int].value is Some);
    }

    proof fn lemma_adj_count(&self, n: NodeIdx, m: NodeIdx, e: EdgeIdx) {
        let i = n.index as int;
        assert(self.nodes.slots_spec()[i].value is Some);
        assert(self.rec_ok_at(i));
        assert(self.owner_at(i) == n);
        let rec = self.rec_at(i);
        lemma_pair_count_distinct_edges(rec, m, e);
        let live = self.edges.is_live(e.index as int, e.generation);
        if live {
            let j = e.index as int;
            assert(self.edges.slots_spec()[j].value is Some);
            let ed = self.edges.slots_spec()[j].value.unwrap();
            assert(ed.src != ed.dst);
            if DIRECTED {
                if ed.src == n && ed.dst == m {
                    assert(rec.contains((m, e)));
                } else {
                    if rec.contains((m, e)) {
                        let k = choose|k: int| 0 <= k < rec.len() && rec[k] == (m, e);
                        assert(self.rec_entry_ok(n, rec[k]));
                        assert(false);
                    }
                }
            } else {
                if (ed.src == n && ed.dst == m) || (ed.dst == n && ed.src == m) {
                    assert(rec.contains((m, e)));
                } else {
                    if rec.contains((m, e)) {
                        let k = choose|k: int| 0 <= k < rec.len() && rec[k] == (m, e);
                        assert(self.rec_entry_ok(n, rec[k]));
                        assert(false);
                    }
                }
            }
        } else {
            if rec.contains((m, e)) {
                let k = choose|k: int| 0 <= k < rec.len() && rec[k] == (m, e);
                assert(self.rec_entry_ok(n, rec[k]));
                assert(false);
            }
        }
    }

    proof fn lemma_degree_decomposition(&self, n: NodeIdx) {
        lemma_degree_split(self.edges.slots_spec(), n);
    }

    proof fn lemma_simple_pair_unique(&self, e1: EdgeIdx, e2: EdgeIdx) {
        let j1 = e1.index as int;
        let j2 = e2.index as int;
        assert(self.edges.slots_spec()[j1].value is Some);
        assert(self.edges.slots_spec()[j2].value is Some);
        if j1 == j2 {
            assert(e1.generation == self.edges.gen_at(j1));
            assert(e2.generation == self.edges.gen_at(j2));
        } else {
            let ed1 = self.edges.slots_spec()[j1].value.unwrap();
            let ed2 = self.edges.slots_spec()[j2].value.unwrap();
            assert(!crate::graphs::connects_flag(DIRECTED, ed2.src, ed2.dst, ed1.src, ed1.dst));
            assert(false);
        }
    }

    proof fn lemma_count_cardinalities(&self, n: NodeIdx, inc: Set<EdgeIdx>, loops: Set<EdgeIdx>) {
        crate::graphs::lemma_counts_are_cardinalities(self.edges.slots_spec(), n);
        assert(inc =~= crate::graphs::incident_handles(self.edges.slots_spec(), n));
        assert(loops =~= crate::graphs::self_loop_handles(self.edges.slots_spec(), n));
    }

    fn new() -> (r: Self) {
        SimpleGraphCore { nodes: Arena::new(), edges: Arena::new() }
    }

    fn is_directed(&self) -> (r: bool) {
        DIRECTED
    }

    fn is_multigraph(&self) -> (r: bool) {
        false
    }

    fn node_count(&self) -> (r: usize) {
        self.nodes.len()
    }

    fn edge_count(&self) -> (r: usize) {
        self.edges.len()
    }

    fn has_node(&self, n: NodeIdx) -> (r: bool) {
        self.nodes.contains(n.index, n.generation)
    }

    fn get_node(&self, n: NodeIdx) -> (r: Option<&N>) {
        match self.nodes.get(n.index, n.generation) {
            Some(nd) => Some(&nd.data),
            None => None,
        }
    }

    fn get_edge(&self, e: EdgeIdx) -> (r: Option<EdgeRef<'_, E>>) {
        match self.edges.get(e.index, e.generation) {
            Some(ed) => Some(EdgeRef { src: ed.src, dst: ed.dst, data: &ed.data }),
            None => None,
        }
    }

    fn degree(&self, n: NodeIdx) -> (r: usize) {
        degree_scan(&self.edges, n)
    }

    fn nodes(&self) -> (r: Vec<NodeIdx>) {
        let len = self.nodes.slots_len();
        proof {
            lemma_node_handle_seq(self.nodes.slots_spec());
        }
        let r = collect_node_handles(&self.nodes);
        proof {
            assert forall|n2: NodeIdx| self.has_node_spec(n2) implies r@.contains(n2) by {
                assert(r@.contains(
                    NodeIdx { index: n2.index as int as usize, generation: n2.generation },
                ));
            }
        }
        r
    }

    fn edges(&self) -> (r: Vec<EdgeIdx>) {
        let len = self.edges.slots_len();
        proof {
            lemma_edge_handle_seq(self.edges.slots_spec());
        }
        let r = collect_edge_handles(&self.edges);
        proof {
            assert forall|e2: EdgeIdx| self.has_edge_spec(e2) implies r@.contains(e2) by {
                assert(r@.contains(
                    EdgeIdx { index: e2.index as int as usize, generation: e2.generation },
                ));
            }
        }
        r
    }

    fn edges_of(&self, n: NodeIdx) -> (r: Vec<(NodeIdx, EdgeIdx)>) {
        let nd = match self.nodes.get(n.index, n.generation) {
            Some(nd) => nd,
            None => vstd::pervasive::unreached(),
        };
        let len = nd.adj.len();
        let mut r: Vec<(NodeIdx, EdgeIdx)> = Vec::new();
        let mut k: usize = 0;
        while k < len
            invariant
                len == nd.adj@.len(),
                k <= len,
                r@ == nd.adj@.take(k as int),
            decreases len - k,
        {
            let p = nd.adj[k];
            r.push(p);
            proof {
                assert(nd.adj@.take(k + 1) =~= nd.adj@.take(k as int).push(nd.adj@[k as int]));
            }
            k = k + 1;
        }
        proof {
            lemma_take_all(nd.adj@);
        }
        r
    }

    fn contains_edge_between(&self, src: NodeIdx, dst: NodeIdx) -> (r: bool) {
        let nd = match self.nodes.get(src.index, src.generation) {
            Some(nd) => nd,
            None => vstd::pervasive::unreached(),
        };
        let found = find_by_neighbor(&nd.adj, dst);
        proof {
            let i = src.index as int;
            assert(self.rec_ok_at(i));
            assert(self.owner_at(i) == src);
            let rec = self.rec_at(i);
            match found {
                Some(k) => {
                    assert(self.rec_entry_ok(src, rec[k as int]));
                    let e = rec[k as int].1;
                    assert(self.has_edge_spec(e) && crate::graphs::connects_flag(
                        DIRECTED,
                        self.edge_src_spec(e),
                        self.edge_dst_spec(e),
                        src,
                        dst,
                    ));
                },
                None => {
                    assert forall|ei: EdgeIdx|
                        !(#[trigger] self.has_edge_spec(ei) && crate::graphs::connects_flag(
                            DIRECTED,
                            self.edge_src_spec(ei),
                            self.edge_dst_spec(ei),
                            src,
                            dst,
                        )) by {
                        if self.has_edge_spec(ei) && crate::graphs::connects_flag(
                            DIRECTED,
                            self.edge_src_spec(ei),
                            self.edge_dst_spec(ei),
                            src,
                            dst,
                        ) {
                            let j = ei.index as int;
                            assert(self.edges.slots_spec()[j].value is Some);
                            let ed = self.edges.slots_spec()[j].value.unwrap();
                            let eh = EdgeIdx { index: j as usize, generation: self.edges.gen_at(j) };
                            assert(eh == ei);
                            if ed.src == src {
                                assert(rec.contains((ed.dst, eh)));
                                let k = choose|k: int| 0 <= k < rec.len() && rec[k] == (ed.dst, eh);
                                assert(rec[k].0 == dst);
                                assert(false);
                            } else {
                                assert(!DIRECTED && ed.dst == src);
                                assert(rec.contains((ed.src, eh)));
                                let k = choose|k: int| 0 <= k < rec.len() && rec[k] == (ed.src, eh);
                                assert(rec[k].0 == dst);
                                assert(false);
                            }
                        }
                    }
                },
            }
        }
        match found {
            Some(_) => true,
            None => false,
        }
    }

    fn edges_between(&self, src: NodeIdx, dst: NodeIdx) -> (r: Vec<EdgeIdx>) {
        let nd = match self.nodes.get(src.index, src.generation) {
            Some(nd) => nd,
            None => vstd::pervasive::unreached(),
        };
        let found = find_by_neighbor(&nd.adj, dst);
        let mut r: Vec<EdgeIdx> = Vec::new();
        let ghost i = src.index as int;
        let ghost rec = self.rec_at(i);
        proof {
            broadcast use vstd::seq_lib::group_to_multiset_ensures;

            assert(self.rec_ok_at(i));
            assert(self.owner_at(i) == src);
        }
        match found {
            Some(k) => {
                let e = nd.adj[k].1;
                r.push(e);
                proof {
                    assert(r@ =~= Seq::<EdgeIdx>::empty().push(e));
                    assert(r@.to_multiset() =~= Multiset::<EdgeIdx>::empty().insert(e));
                    assert(self.rec_entry_ok(src, rec[k as int]));
                    assert forall|e2: EdgeIdx|
                        #[trigger] r@.to_multiset().count(e2) == crate::graphs::orient_multiplicity(
                            DIRECTED,
                            self.has_edge_spec(e2),
                            self.edge_src_spec(e2),
                            self.edge_dst_spec(e2),
                            src,
                            dst,
                        ) by {
                        lemma_between_unique::<N, E, DIRECTED, MAPADJ>(*self, src, dst, e, e2);
                    }
                }
            },
            None => {
                proof {
                    assert forall|e2: EdgeIdx|
                        #[trigger] r@.to_multiset().count(e2) == crate::graphs::orient_multiplicity(
                            DIRECTED,
                            self.has_edge_spec(e2),
                            self.edge_src_spec(e2),
                            self.edge_dst_spec(e2),
                            src,
                            dst,
                        ) by {
                        assert(r@.to_multiset().count(e2) == 0);
                        if crate::graphs::orient_multiplicity(
                            DIRECTED,
                            self.has_edge_spec(e2),
                            self.edge_src_spec(e2),
                            self.edge_dst_spec(e2),
                            src,
                            dst,
                        ) > 0 {
                            let j = e2.index as int;
                            assert(self.edges.slots_spec()[j].value is Some);
                            let ed = self.edges.slots_spec()[j].value.unwrap();
                            let eh = EdgeIdx { index: j as usize, generation: self.edges.gen_at(j) };
                            assert(eh == e2);
                            if ed.src == src {
                                assert(rec.contains((ed.dst, eh)));
                                let k = choose|k: int| 0 <= k < rec.len() && rec[k] == (ed.dst, eh);
                                assert(rec[k].0 == dst);
                                assert(false);
                            } else {
                                assert(!DIRECTED && ed.dst == src);
                                assert(rec.contains((ed.src, eh)));
                                let k = choose|k: int| 0 <= k < rec.len() && rec[k] == (ed.src, eh);
                                assert(rec[k].0 == dst);
                                assert(false);
                            }
                        }
                    }
                }
            },
        }
        r
    }

    fn add_node(&mut self, value: N) -> (r: NodeIdx) {
        let (i, g) = self.nodes.insert(SimpleNode { data: value, adj: Vec::new() });
        let r = NodeIdx { index: i, generation: g };
        proof {
            let g0 = *old(self);
            let g1 = *self;
            let ii = i as int;
            assert(g1.edges == g0.edges);
            assert(g1.rec_at(ii) =~= Seq::<(NodeIdx, EdgeIdx)>::empty());
            assert forall|i2: int|
                0 <= i2 < g1.nodes.slot_count() && (#[trigger] g1.nodes.slots_spec()[i2]).value
                    is Some implies g1.rec_ok_at(i2) by {
                if i2 == ii {
                    assert forall|j: int|
                        0 <= j < g1.edges.slot_count() && (#[trigger] g1.edges.slots_spec()[j]).value
                            is Some implies ({
                        let ed = g1.edges.slots_spec()[j].value.unwrap();
                        let e = EdgeIdx { index: j as usize, generation: g1.edges.gen_at(j) };
                        &&& (ed.src == g1.owner_at(i2) ==> g1.rec_at(i2).contains((ed.dst, e)))
                        &&& (!DIRECTED && ed.dst == g1.owner_at(i2) ==> g1.rec_at(i2).contains(
                            (ed.src, e),
                        ))
                    }) by {
                        assert(g0.edges.slots_spec()[j].value is Some);
                        let ed = g0.edges.slots_spec()[j].value.unwrap();
                        assert(g0.nodes.is_live(ed.src.index as int, ed.src.generation));
                        assert(g0.nodes.is_live(ed.dst.index as int, ed.dst.generation));
                        assert(g1.owner_at(i2) == r);
                        assert(ed.src != r && ed.dst != r);
                    }
                } else {
                    assert(g1.nodes.slots_spec()[i2] == g0.nodes.slots_spec()[i2]);
                    assert(g0.rec_ok_at(i2));
                    assert(g1.owner_at(i2) == g0.owner_at(i2));
                    assert(g1.rec_at(i2) == g0.rec_at(i2));
                    assert forall|k: int| 0 <= k < g1.rec_at(i2).len() implies g1.rec_entry_ok(
                        g1.owner_at(i2),
                        #[trigger] g1.rec_at(i2)[k],
                    ) by {
                        assert(g0.rec_entry_ok(g0.owner_at(i2), g0.rec_at(i2)[k]));
                    }
                }
            }
            assert forall|j: int|
                0 <= j < g1.edges.slot_count() && (#[trigger] g1.edges.slots_spec()[j]).value
                    is Some implies ({
                let ed = g1.edges.slots_spec()[j].value.unwrap();
                &&& g1.nodes.is_live(ed.src.index as int, ed.src.generation)
                &&& g1.nodes.is_live(ed.dst.index as int, ed.dst.generation)
                &&& ed.src != ed.dst
            }) by {
                assert(g0.edges.slots_spec()[j].value is Some);
                let ed = g0.edges.slots_spec()[j].value.unwrap();
                assert(g0.nodes.is_live(ed.src.index as int, ed.src.generation));
                assert(g0.nodes.is_live(ed.dst.index as int, ed.dst.generation));
                assert(ed.src != r && ed.dst != r);
            }
        }
        r
    }

    #[verifier::rlimit(100)]
    fn get_node_mut(&mut self, n: NodeIdx) -> (r: Option<&mut N>) {
        let present = self.nodes.contains(n.index, n.generation);
        if !present {
            return None;
        }
        proof {
            let i = n.index as int;
            assert forall|g2: Self|
                ({
                    &&& g2.edges == old(self).edges
                    &&& g2.nodes.free_list@ == old(self).nodes.free_list@
                    &&& g2.nodes.live == old(self).nodes.live
                    &&& g2.nodes.slots_spec().len() == old(self).nodes.slots_spec().len()
                    &&& (forall|j: int|
                        0 <= j < old(self).nodes.slots_spec().len() && j != i
                            ==> g2.nodes.slots_spec()[j] == old(self).nodes.slots_spec()[j])
                    &&& g2.nodes.slots_spec()[i].generation == n.generation
                    &&& g2.nodes.slots_spec()[i].value is Some
                    &&& g2.nodes.slots_spec()[i].value.unwrap().adj@.len() == old(
                        self,
                    ).nodes.slots_spec()[i].value.unwrap().adj@.len()
                    &&& (forall|k2: int|
                        0 <= k2 < old(self).nodes.slots_spec()[i].value.unwrap().adj@.len()
                            ==> #[trigger] g2.nodes.slots_spec()[i].value.unwrap().adj@[k2]
                            == old(self).nodes.slots_spec()[i].value.unwrap().adj@[k2])
                }) implies ({
                &&& #[trigger] g2.wf()
                &&& g2.node_count_spec() == old(self).node_count_spec()
                &&& (forall|m: NodeIdx|
                    #[trigger] g2.has_node_spec(m) == old(self).has_node_spec(m))
                &&& (forall|m: NodeIdx|
                    m != n && old(self).has_node_spec(m) ==> #[trigger] g2.node_value_spec(m)
                        == old(self).node_value_spec(m))
                &&& (forall|m: NodeIdx|
                    old(self).has_node_spec(m) ==> #[trigger] g2.adj_seq(m) =~= old(
                        self,
                    ).adj_seq(m))
                &&& (forall|e2: EdgeIdx|
                    #[trigger] g2.has_edge_spec(e2) == old(self).has_edge_spec(e2))
                &&& (forall|e2: EdgeIdx|
                    old(self).has_edge_spec(e2) ==> #[trigger] g2.edge_src_spec(e2) == old(
                        self,
                    ).edge_src_spec(e2) && g2.edge_dst_spec(e2) == old(self).edge_dst_spec(e2)
                        && g2.edge_value_spec(e2) == old(self).edge_value_spec(e2))
                &&& g2.edge_count_spec() == old(self).edge_count_spec()
                &&& g2.node_slot_count() == old(self).node_slot_count()
                &&& (forall|i2: int|
                    0 <= i2 < old(self).node_slot_count() ==> #[trigger] g2.node_gen_spec(i2)
                        == old(self).node_gen_spec(i2))
                &&& g2.edge_slot_count() == old(self).edge_slot_count()
                &&& (forall|i2: int|
                    0 <= i2 < old(self).edge_slot_count() ==> #[trigger] g2.edge_gen_spec(i2)
                        == old(self).edge_gen_spec(i2))
                &&& g2.node_value_spec(n) == g2.nodes.slots_spec()[i].value.unwrap().data
            }) by {
                assert(g2.nodes.slots_spec()[i].value.unwrap().adj@ =~= old(
                    self,
                ).nodes.slots_spec()[i].value.unwrap().adj@);
                lemma_inv_node_payload_update(*old(self), g2, i);
                assert forall|i2: int|
                    0 <= i2 < old(self).node_slot_count() implies #[trigger] g2.node_gen_spec(i2)
                        == old(self).node_gen_spec(i2) by {
                    if i2 != i {
                        assert(g2.nodes.slots_spec()[i2] == old(self).nodes.slots_spec()[i2]);
                    } else {
                        assert(old(self).nodes.gen_at(i) == n.generation);
                    }
                }
                assert forall|m: NodeIdx|
                    m != n && old(self).has_node_spec(m) implies #[trigger] g2.node_value_spec(m)
                        == old(self).node_value_spec(m) by {
                    assert(m.index as int != i) by {
                        if m.index as int == i {
                            assert(m.generation == old(self).nodes.gen_at(i));
                            assert(n.generation == old(self).nodes.gen_at(i));
                        }
                    }
                    assert(g2.nodes.slots_spec()[m.index as int] == old(
                        self,
                    ).nodes.slots_spec()[m.index as int]);
                }
                assert forall|m: NodeIdx|
                    old(self).has_node_spec(m) implies #[trigger] g2.adj_seq(m) =~= old(
                        self,
                    ).adj_seq(m) by {
                    if m.index as int == i {
                        assert(g2.rec_at(i) =~= old(self).rec_at(i));
                    } else {
                        assert(g2.nodes.slots_spec()[m.index as int] == old(
                            self,
                        ).nodes.slots_spec()[m.index as int]);
                    }
                }
                assert(g2.node_count_spec() == old(self).node_count_spec()) by {
                    assert(g2.nodes.live == count_some(g2.nodes.slots_spec()));
                }
            }
        }
        match self.nodes.get_mut(n.index, n.generation) {
            Some(nd) => Some(&mut nd.data),
            None => {
                proof {
                    assert(false);
                }
                None
            },
        }
    }

    #[verifier::rlimit(100)]
    fn get_edge_mut(&mut self, e: EdgeIdx) -> (r: Option<&mut E>) {
        let present = self.edges.contains(e.index, e.generation);
        if !present {
            return None;
        }
        proof {
            let i = e.index as int;
            assert forall|g2: Self|
                ({
                    &&& g2.nodes == old(self).nodes
                    &&& g2.edges.free_list@ == old(self).edges.free_list@
                    &&& g2.edges.live == old(self).edges.live
                    &&& g2.edges.slots_spec().len() == old(self).edges.slots_spec().len()
                    &&& (forall|j: int|
                        0 <= j < old(self).edges.slots_spec().len() && j != i
                            ==> g2.edges.slots_spec()[j] == old(self).edges.slots_spec()[j])
                    &&& g2.edges.slots_spec()[i].generation == e.generation
                    &&& g2.edges.slots_spec()[i].value is Some
                    &&& g2.edges.slots_spec()[i].value.unwrap().src == old(
                        self,
                    ).edges.slots_spec()[i].value.unwrap().src
                    &&& g2.edges.slots_spec()[i].value.unwrap().dst == old(
                        self,
                    ).edges.slots_spec()[i].value.unwrap().dst
                }) implies ({
                &&& #[trigger] g2.wf()
                &&& g2.edge_count_spec() == old(self).edge_count_spec()
                &&& (forall|e2: EdgeIdx|
                    #[trigger] g2.has_edge_spec(e2) == old(self).has_edge_spec(e2))
                &&& (forall|e2: EdgeIdx|
                    old(self).has_edge_spec(e2) ==> #[trigger] g2.edge_src_spec(e2) == old(
                        self,
                    ).edge_src_spec(e2) && g2.edge_dst_spec(e2) == old(self).edge_dst_spec(e2))
                &&& (forall|e2: EdgeIdx|
                    e2 != e && old(self).has_edge_spec(e2) ==> #[trigger] g2.edge_value_spec(e2)
                        == old(self).edge_value_spec(e2))
                &&& (forall|m: NodeIdx|
                    #[trigger] g2.has_node_spec(m) == old(self).has_node_spec(m))
                &&& (forall|m: NodeIdx|
                    old(self).has_node_spec(m) ==> #[trigger] g2.node_value_spec(m) == old(
                        self,
                    ).node_value_spec(m))
                &&& (forall|m: NodeIdx|
                    old(self).has_node_spec(m) ==> #[trigger] g2.adj_seq(m) == old(self).adj_seq(
                        m,
                    ))
                &&& g2.node_count_spec() == old(self).node_count_spec()
                &&& g2.node_slot_count() == old(self).node_slot_count()
                &&& (forall|i2: int|
                    0 <= i2 < old(self).node_slot_count() ==> #[trigger] g2.node_gen_spec(i2)
                        == old(self).node_gen_spec(i2))
                &&& g2.edge_slot_count() == old(self).edge_slot_count()
                &&& (forall|i2: int|
                    0 <= i2 < old(self).edge_slot_count() ==> #[trigger] g2.edge_gen_spec(i2)
                        == old(self).edge_gen_spec(i2))
                &&& g2.edge_value_spec(e) == g2.edges.slots_spec()[i].value.unwrap().data
            }) by {
                lemma_inv_edge_payload_update(*old(self), g2, i);
                assert forall|i2: int|
                    0 <= i2 < old(self).edge_slot_count() implies #[trigger] g2.edge_gen_spec(i2)
                        == old(self).edge_gen_spec(i2) by {
                    if i2 != i {
                        assert(g2.edges.slots_spec()[i2] == old(self).edges.slots_spec()[i2]);
                    } else {
                        assert(old(self).edges.gen_at(i) == e.generation);
                    }
                }
                assert forall|e2: EdgeIdx|
                    old(self).has_edge_spec(e2) implies #[trigger] g2.edge_src_spec(e2) == old(
                        self,
                    ).edge_src_spec(e2) && g2.edge_dst_spec(e2) == old(self).edge_dst_spec(
                        e2,
                    ) by {
                    if e2.index as int != i {
                        assert(g2.edges.slots_spec()[e2.index as int] == old(
                            self,
                        ).edges.slots_spec()[e2.index as int]);
                    }
                }
                assert forall|e2: EdgeIdx|
                    e2 != e && old(self).has_edge_spec(e2) implies #[trigger] g2.edge_value_spec(
                        e2,
                    ) == old(self).edge_value_spec(e2) by {
                    assert(e2.index as int != i) by {
                        if e2.index as int == i {
                            assert(e2.generation == old(self).edges.gen_at(i));
                            assert(e.generation == old(self).edges.gen_at(i));
                        }
                    }
                    assert(g2.edges.slots_spec()[e2.index as int] == old(
                        self,
                    ).edges.slots_spec()[e2.index as int]);
                }
                assert(g2.edge_count_spec() == old(self).edge_count_spec()) by {
                    assert(g2.edges.live == count_some(g2.edges.slots_spec()));
                }
            }
        }
        match self.edges.get_mut(e.index, e.generation) {
            Some(ed) => Some(&mut ed.data),
            None => {
                proof {
                    assert(false);
                }
                None
            },
        }
    }

    fn clear_edges(&mut self) {
        let len = self.nodes.slots_len();
        let mut i: usize = 0;
        while i < len
            invariant
                len == self.nodes.slot_count(),
                i <= len,
                old(self).inv(),
                self.nodes.wf(),
                self.edges == old(self).edges,
                self.nodes.free_list@ == old(self).nodes.free_list@,
                self.nodes.live == old(self).nodes.live,
                forall|j: int|
                    0 <= j < len ==> (#[trigger] self.nodes.slots_spec()[j]).generation == old(
                        self,
                    ).nodes.slots_spec()[j].generation,
                forall|j: int|
                    0 <= j < len ==> ((#[trigger] self.nodes.slots_spec()[j]).value is Some
                        == old(self).nodes.slots_spec()[j].value is Some),
                forall|j: int|
                    0 <= j < len && (#[trigger] self.nodes.slots_spec()[j]).value is Some
                        ==> self.nodes.slots_spec()[j].value.unwrap().data == old(
                        self,
                    ).nodes.slots_spec()[j].value.unwrap().data,
                forall|j: int|
                    0 <= j < i && (#[trigger] self.nodes.slots_spec()[j]).value is Some
                        ==> self.nodes.slots_spec()[j].value.unwrap().adj@.len() == 0,
            decreases len - i,
        {
            if self.nodes.occupied(i) {
                let g = self.nodes.generation_of(i);
                let ghost pre = self.nodes;
                match self.nodes.get_mut(i, g) {
                    Some(nd) => {
                        nd.adj.clear();
                    },
                    None => {
                        proof {
                            assert(false);
                        }
                    },
                }
                proof {
                    assert(self.nodes.slots_spec() =~= pre.slots_spec().update(
                        i as int,
                        Slot {
                            generation: g,
                            value: Some(self.nodes.slots_spec()[i as int].value.unwrap()),
                        },
                    ));
                    lemma_wf_after_value_update(
                        pre,
                        self.nodes,
                        i as int,
                        self.nodes.slots_spec()[i as int].value.unwrap(),
                    );
                }
            }
            i = i + 1;
        }
        self.edges.clear_all();
        proof {
            crate::arena::lemma_count_some_same_someness(
                old(self).nodes.slots_spec(),
                self.nodes.slots_spec(),
            );
            assert forall|j: int|
                0 <= j < self.edges.slot_count() implies !((
            #[trigger] self.edges.slots_spec()[j]).value is Some) by {
                if self.edges.slots_spec()[j].value is Some {
                    assert(self.edges.is_live(j, self.edges.gen_at(j)));
                }
            }
            assert forall|i2: int|
                0 <= i2 < self.nodes.slot_count() && (#[trigger] self.nodes.slots_spec()[i2]).value
                    is Some implies self.rec_ok_at(i2) by {
                assert(self.rec_at(i2).len() == 0);
            }
            assert forall|n2: NodeIdx|
                old(self).nodes.is_live(n2.index as int, n2.generation) implies #[trigger] self.rec_at(
                n2.index as int,
            ) =~= Seq::<(NodeIdx, EdgeIdx)>::empty() by {}
        }
    }

    fn clear(&mut self) {
        self.edges.clear_all();
        self.nodes.clear_all();
        proof {
            assert forall|j: int|
                0 <= j < self.edges.slot_count() implies !((
            #[trigger] self.edges.slots_spec()[j]).value is Some) by {
                if self.edges.slots_spec()[j].value is Some {
                    assert(self.edges.is_live(j, self.edges.gen_at(j)));
                }
            }
            assert forall|j: int|
                0 <= j < self.nodes.slot_count() implies !((
            #[trigger] self.nodes.slots_spec()[j]).value is Some) by {
                if self.nodes.slots_spec()[j].value is Some {
                    assert(self.nodes.is_live(j, self.nodes.gen_at(j)));
                }
            }
        }
    }

    #[verifier::rlimit(60)]
    fn try_add_edge(&mut self, src: NodeIdx, dst: NodeIdx, value: E) -> (r: Result<
        EdgeIdx,
        GraphError,
    >) {
        if src == dst {
            return Err(GraphError::Loop(src));
        }
        if !self.nodes.contains(src.index, src.generation) {
            return Err(GraphError::NodeNotFound(src));
        }
        if !self.nodes.contains(dst.index, dst.generation) {
            return Err(GraphError::NodeNotFound(dst));
        }
        let dup = {
            let nd = match self.nodes.get(src.index, src.generation) {
                Some(nd) => nd,
                None => vstd::pervasive::unreached(),
            };
            let d1 = match find_by_neighbor(&nd.adj, dst) {
                Some(_) => true,
                None => false,
            };
            if MAPADJ && !DIRECTED {
                let nd2 = match self.nodes.get(dst.index, dst.generation) {
                    Some(n2) => n2,
                    None => vstd::pervasive::unreached(),
                };
                let d2 = match find_by_neighbor(&nd2.adj, src) {
                    Some(_) => true,
                    None => false,
                };
                d1 || d2
            } else {
                d1
            }
        };
        proof {
            let si = src.index as int;
            let rec = self.rec_at(si);
            if dup {
                if exists|k: int| 0 <= k < rec.len() && (#[trigger] rec[k]).0 == dst {
                    let k = choose|k: int| 0 <= k < rec.len() && (#[trigger] rec[k]).0 == dst;
                    lemma_entry_gives_between(*self, src, dst, k);
                    let w = rec[k].1;
                    assert(self.has_edge_spec(w) && crate::graphs::connects_flag(
                        DIRECTED,
                        self.edge_src_spec(w),
                        self.edge_dst_spec(w),
                        src,
                        dst,
                    ));
                } else {
                    let recd = self.rec_at(dst.index as int);
                    assert(exists|k: int| 0 <= k < recd.len() && (#[trigger] recd[k]).0 == src);
                    let k = choose|k: int| 0 <= k < recd.len() && (#[trigger] recd[k]).0 == src;
                    lemma_entry_gives_between(*self, dst, src, k);
                    let w = recd[k].1;
                    assert(self.has_edge_spec(w) && crate::graphs::connects_flag(
                        DIRECTED,
                        self.edge_src_spec(w),
                        self.edge_dst_spec(w),
                        src,
                        dst,
                    ));
                }
            } else {
                lemma_key_absent_no_between(*self, src, dst);
            }
        }
        if dup {
            return Err(GraphError::DuplicateEdge(src, dst));
        }
        let ghost g0 = *self;
        let (ei, eg) = self.edges.insert(Edge { src, dst, data: value });
        let e = EdgeIdx { index: ei, generation: eg };
        let nd = match self.nodes.get_mut(src.index, src.generation) {
            Some(nd) => nd,
            None => vstd::pervasive::unreached(),
        };
        let ghost rec0 = nd.adj@;
        if DIRECTED && MAPADJ {
            nd.adj.insert(0, (dst, e));
        } else {
            nd.adj.push((dst, e));
        }
        let ghost gb = *self;
        proof {
            assert(gb.nodes.slots_spec() =~= g0.nodes.slots_spec().update(
                src.index as int,
                Slot {
                    generation: src.generation,
                    value: Some(gb.nodes.slots_spec()[src.index as int].value.unwrap()),
                },
            ));
            lemma_wf_after_value_update(
                g0.nodes,
                gb.nodes,
                src.index as int,
                gb.nodes.slots_spec()[src.index as int].value.unwrap(),
            );
        }
        if !DIRECTED {
            proof {
                assert(src.index != dst.index) by {
                    if src.index == dst.index {
                        assert(g0.nodes.is_live(src.index as int, src.generation));
                        assert(g0.nodes.is_live(dst.index as int, dst.generation));
                        assert(src.generation == g0.nodes.gen_at(src.index as int));
                        assert(dst.generation == g0.nodes.gen_at(dst.index as int));
                    }
                }
                assert(gb.nodes.is_live(dst.index as int, dst.generation));
            }
            let nd2 = match self.nodes.get_mut(dst.index, dst.generation) {
                Some(n2) => n2,
                None => vstd::pervasive::unreached(),
            };
            nd2.adj.push((src, e));
            proof {
                assert(self.nodes.slots_spec() =~= gb.nodes.slots_spec().update(
                    dst.index as int,
                    Slot {
                        generation: dst.generation,
                        value: Some(self.nodes.slots_spec()[dst.index as int].value.unwrap()),
                    },
                ));
                lemma_wf_after_value_update(
                    gb.nodes,
                    self.nodes,
                    dst.index as int,
                    self.nodes.slots_spec()[dst.index as int].value.unwrap(),
                );
            }
        }
        proof {
            assert(g0 == *old(self));
            lemma_add_edge_restores(g0, gb, *self, src, dst, e, value, rec0);
            let si = src.index as int;
            let di = dst.index as int;
            assert(si != di) by {
                if si == di {
                    assert(src.generation == g0.nodes.gen_at(si));
                    assert(dst.generation == g0.nodes.gen_at(di));
                }
            }
            assert(rec0 == g0.adj_seq(src));
            if DIRECTED && MAPADJ {
                assert(gb.rec_at(si) == rec0.insert(0, (dst, e)));
                assert(gb.rec_at(si) =~= seq![(dst, e)] + rec0);
            } else {
                assert(gb.rec_at(si) == rec0.push((dst, e)));
            }
            if !DIRECTED {
                assert(self.nodes.slots_spec()[si] == gb.nodes.slots_spec()[si]);
                assert(self.adj_seq(src) == gb.rec_at(si));
                assert(gb.rec_at(di) == g0.rec_at(di));
                assert(self.adj_seq(dst) == gb.rec_at(di).push((src, e)));
            } else {
                assert(self.adj_seq(src) == gb.rec_at(si));
                assert(self.nodes.slots_spec()[di] == g0.nodes.slots_spec()[di]);
                assert(self.adj_seq(dst) == g0.adj_seq(dst));
            }
            assert(self.adj_seq(src) == (if Self::adj_prepends_spec() {
                seq![(dst, e)] + g0.adj_seq(src)
            } else {
                g0.adj_seq(src).push((dst, e))
            }));
            assert(self.node_slot_count() == g0.node_slot_count());
            assert forall|i: int|
                0 <= i < g0.node_slot_count() implies #[trigger] self.node_gen_spec(i)
                == g0.node_gen_spec(i) by {
                if i == src.index as int {
                    assert(self.nodes.slots_spec()[i].generation == src.generation);
                    assert(g0.nodes.gen_at(i) == src.generation);
                } else if !DIRECTED && i == dst.index as int {
                    assert(self.nodes.slots_spec()[i].generation == dst.generation);
                    assert(g0.nodes.gen_at(i) == dst.generation);
                } else {
                    assert(gb.nodes.slots_spec()[i] == g0.nodes.slots_spec()[i]);
                }
            }
            assert(g0.edge_slot_count() <= self.edge_slot_count() <= g0.edge_slot_count() + 1);
            assert forall|i: int|
                0 <= i < g0.edge_slot_count() implies #[trigger] self.edge_gen_spec(i)
                == g0.edge_gen_spec(i) by {
                assert(self.edges.gen_at(i) == g0.edges.gen_at(i));
            }
            assert forall|e2: EdgeIdx|
                e2 != e implies #[trigger] self.has_edge_spec(e2) == g0.has_edge_spec(e2) by {
                if e2.index as int == e.index as int && e2.generation == e.generation {
                    assert(e2 == e);
                }
                assert(self.edges.is_live(e2.index as int, e2.generation) == g0.edges.is_live(
                    e2.index as int,
                    e2.generation,
                ));
            }
            assert forall|e2: EdgeIdx|
                e2 != e && g0.has_edge_spec(e2) implies #[trigger] self.edge_src_spec(e2)
                == g0.edge_src_spec(e2) && self.edge_dst_spec(e2) == g0.edge_dst_spec(e2)
                && self.edge_value_spec(e2) == g0.edge_value_spec(e2) by {
                assert((e2.index as int) < g0.edges.slot_count());
                assert((e2.index as int) != e.index as int || e2.generation != e.generation);
                assert(e2.index as int != e.index as int) by {
                    if e2.index as int == e.index as int {
                        assert(g0.edges.is_live(e2.index as int, e2.generation));
                    }
                }
                assert(self.edges.slots_spec()[e2.index as int]
                    == g0.edges.slots_spec()[e2.index as int]);
            }
            assert forall|m: NodeIdx|
                #[trigger] self.has_node_spec(m) == g0.has_node_spec(m) by {
                if 0 <= m.index as int && (m.index as int) < g0.nodes.slot_count() {
                    assert((self.nodes.slots_spec()[m.index as int]).value is Some
                        == (g0.nodes.slots_spec()[m.index as int]).value is Some) by {
                        if m.index as int == src.index as int {
                        } else if !DIRECTED && m.index as int == dst.index as int {
                        } else {
                            assert(gb.nodes.slots_spec()[m.index as int]
                                == g0.nodes.slots_spec()[m.index as int]);
                        }
                    }
                }
            }
            assert forall|m: NodeIdx|
                g0.has_node_spec(m) implies #[trigger] self.node_value_spec(m)
                == g0.node_value_spec(m) by {
                if m.index as int == src.index as int {
                } else if !DIRECTED && m.index as int == dst.index as int {
                } else {
                    assert(gb.nodes.slots_spec()[m.index as int]
                        == g0.nodes.slots_spec()[m.index as int]);
                }
            }
            assert forall|m: NodeIdx|
                m != src && m != dst && g0.has_node_spec(m) implies #[trigger] self.adj_seq(m)
                == g0.adj_seq(m) by {
                assert(m.index as int != src.index as int) by {
                    if m.index as int == src.index as int {
                        assert(m.generation == g0.nodes.gen_at(src.index as int));
                        assert(src.generation == g0.nodes.gen_at(src.index as int));
                    }
                }
                if !DIRECTED {
                    assert(m.index as int != dst.index as int) by {
                        if m.index as int == dst.index as int {
                            assert(m.generation == g0.nodes.gen_at(dst.index as int));
                            assert(dst.generation == g0.nodes.gen_at(dst.index as int));
                        }
                    }
                }
                assert(gb.nodes.slots_spec()[m.index as int]
                    == g0.nodes.slots_spec()[m.index as int]);
            }
        }
        Ok(e)
    }

    #[verifier::rlimit(60)]
    fn remove_edge(&mut self, e: EdgeIdx) -> (r: Option<E>) {
        let (esrc, edst) = match self.edges.get(e.index, e.generation) {
            Some(ed) => (ed.src, ed.dst),
            None => {
                return None;
            },
        };
        let ghost g0 = *self;
        proof {
            assert(g0.edges.slots_spec()[e.index as int].value is Some);
            assert(g0.nodes.is_live(esrc.index as int, esrc.generation));
            assert(g0.rec_ok_at(esrc.index as int));
            assert(g0.owner_at(esrc.index as int) == esrc);
        }
        let nd = match self.nodes.get_mut(esrc.index, esrc.generation) {
            Some(nd) => nd,
            None => vstd::pervasive::unreached(),
        };
        let ghost rec0 = nd.adj@;
        let pos = match find_by_edge(&nd.adj, e) {
            Some(k) => k,
            None => {
                proof {
                    let j = e.index as int;
                    let ed = g0.edges.slots_spec()[j].value.unwrap();
                    let eh = EdgeIdx { index: j as usize, generation: g0.edges.gen_at(j) };
                    assert(eh == e);
                    if DIRECTED {
                        assert(rec0.contains((ed.dst, eh)));
                        let k = choose|k: int| 0 <= k < rec0.len() && rec0[k] == (ed.dst, eh);
                        assert(rec0[k].1 == e);
                        assert(false);
                    } else {
                        if ed.src == esrc {
                            assert(rec0.contains((ed.dst, eh)));
                            let k = choose|k: int| 0 <= k < rec0.len() && rec0[k] == (ed.dst, eh);
                            assert(rec0[k].1 == e);
                        } else {
                            assert(ed.dst == esrc);
                            assert(rec0.contains((ed.src, eh)));
                            let k = choose|k: int| 0 <= k < rec0.len() && rec0[k] == (ed.src, eh);
                            assert(rec0[k].1 == e);
                        }
                        assert(false);
                    }
                }
                vstd::pervasive::unreached()
            },
        };
        nd.adj.remove(pos);
        let ghost gb = *self;
        proof {
            assert(gb.nodes.slots_spec() =~= g0.nodes.slots_spec().update(
                esrc.index as int,
                Slot {
                    generation: esrc.generation,
                    value: Some(gb.nodes.slots_spec()[esrc.index as int].value.unwrap()),
                },
            ));
            lemma_wf_after_value_update(
                g0.nodes,
                gb.nodes,
                esrc.index as int,
                gb.nodes.slots_spec()[esrc.index as int].value.unwrap(),
            );
        }
        if !DIRECTED {
            proof {
                assert(esrc.index != edst.index) by {
                    let j = e.index as int;
                    let ed = g0.edges.slots_spec()[j].value.unwrap();
                    assert(ed.src != ed.dst);
                    if esrc.index == edst.index {
                        assert(esrc.generation == g0.nodes.gen_at(esrc.index as int));
                        assert(edst.generation == g0.nodes.gen_at(edst.index as int));
                    }
                }
                assert(gb.nodes.is_live(edst.index as int, edst.generation));
                assert(gb.rec_at(edst.index as int) == g0.rec_at(edst.index as int));
                assert(g0.rec_ok_at(edst.index as int));
                assert(g0.owner_at(edst.index as int) == edst);
            }
            let nd2 = match self.nodes.get_mut(edst.index, edst.generation) {
                Some(n2) => n2,
                None => vstd::pervasive::unreached(),
            };
            let ghost rec0d = nd2.adj@;
            let pos2 = match find_by_edge(&nd2.adj, e) {
                Some(k) => k,
                None => {
                    proof {
                        let j = e.index as int;
                        let ed = g0.edges.slots_spec()[j].value.unwrap();
                        let eh = EdgeIdx { index: j as usize, generation: g0.edges.gen_at(j) };
                        assert(eh == e);
                        if ed.src == edst {
                            assert(rec0d.contains((ed.dst, eh)));
                            let k = choose|k: int|
                                0 <= k < rec0d.len() && rec0d[k] == (ed.dst, eh);
                            assert(rec0d[k].1 == e);
                        } else {
                            assert(ed.dst == edst);
                            assert(rec0d.contains((ed.src, eh)));
                            let k = choose|k: int|
                                0 <= k < rec0d.len() && rec0d[k] == (ed.src, eh);
                            assert(rec0d[k].1 == e);
                        }
                        assert(false);
                    }
                    vstd::pervasive::unreached()
                },
            };
            nd2.adj.remove(pos2);
            proof {
                assert(self.nodes.slots_spec() =~= gb.nodes.slots_spec().update(
                    edst.index as int,
                    Slot {
                        generation: edst.generation,
                        value: Some(self.nodes.slots_spec()[edst.index as int].value.unwrap()),
                    },
                ));
                lemma_wf_after_value_update(
                    gb.nodes,
                    self.nodes,
                    edst.index as int,
                    self.nodes.slots_spec()[edst.index as int].value.unwrap(),
                );
            }
        }
        let ghost gc = *self;
        let data = match self.edges.remove(e.index, e.generation) {
            Some(ed) => ed.data,
            None => vstd::pervasive::unreached(),
        };
        proof {
            assert(g0 == *old(self));
            lemma_remove_edge_restores(g0, gc, *self, e, esrc, edst);
            assert(!self.has_edge_spec(e));
            assert forall|e2: EdgeIdx|
                e2 != e implies #[trigger] self.has_edge_spec(e2) == g0.has_edge_spec(e2) by {
                if e2.index as int == e.index as int {
                    assert(!self.edges.is_live(e2.index as int, e2.generation));
                    assert(!g0.edges.is_live(e2.index as int, e2.generation)) by {
                        if g0.edges.is_live(e2.index as int, e2.generation) {
                            assert(e2.generation == g0.edges.gen_at(e.index as int));
                            assert(e.generation == g0.edges.gen_at(e.index as int));
                            assert(e2 == e);
                        }
                    }
                } else {
                    assert(self.edges.is_live(e2.index as int, e2.generation)
                        == g0.edges.is_live(e2.index as int, e2.generation));
                }
            }
            assert forall|e2: EdgeIdx|
                e2 != e && g0.has_edge_spec(e2) implies #[trigger] self.edge_src_spec(e2)
                == g0.edge_src_spec(e2) && self.edge_dst_spec(e2) == g0.edge_dst_spec(e2)
                && self.edge_value_spec(e2) == g0.edge_value_spec(e2) by {
                assert(e2.index as int != e.index as int) by {
                    if e2.index as int == e.index as int {
                        assert(e2.generation == g0.edges.gen_at(e.index as int));
                        assert(e.generation == g0.edges.gen_at(e.index as int));
                    }
                }
                assert(self.edges.slots_spec()[e2.index as int]
                    == g0.edges.slots_spec()[e2.index as int]);
            }
            assert forall|m: NodeIdx|
                #[trigger] self.has_node_spec(m) == g0.has_node_spec(m) by {
                assert(self.nodes.is_live(m.index as int, m.generation) == g0.nodes.is_live(
                    m.index as int,
                    m.generation,
                ));
            }
            assert forall|m: NodeIdx|
                g0.has_node_spec(m) implies #[trigger] self.node_value_spec(m)
                == g0.node_value_spec(m) by {
                if m.index as int == esrc.index as int {
                } else if !DIRECTED && m.index as int == edst.index as int {
                } else {
                    assert(self.nodes.slots_spec()[m.index as int]
                        == g0.nodes.slots_spec()[m.index as int]) by {
                        assert(gc.nodes.slots_spec()[m.index as int]
                            == g0.nodes.slots_spec()[m.index as int]);
                    }
                }
            }
            assert forall|m: NodeIdx|
                g0.has_node_spec(m) && m != esrc && m != edst implies #[trigger] self.adj_seq(m)
                == g0.adj_seq(m) by {
                assert(m.index as int != esrc.index as int) by {
                    if m.index as int == esrc.index as int {
                        assert(m.generation == g0.nodes.gen_at(esrc.index as int));
                        assert(esrc.generation == g0.nodes.gen_at(esrc.index as int));
                    }
                }
                assert(m.index as int != edst.index as int) by {
                    if m.index as int == edst.index as int {
                        assert(m.generation == g0.nodes.gen_at(edst.index as int));
                        assert(edst.generation == g0.nodes.gen_at(edst.index as int));
                    }
                }
                assert(gc.nodes.slots_spec()[m.index as int]
                    == g0.nodes.slots_spec()[m.index as int]);
            }
            assert(self.node_slot_count() == g0.node_slot_count());
            assert forall|i: int|
                0 <= i < g0.node_slot_count() implies #[trigger] self.node_gen_spec(i)
                == g0.node_gen_spec(i) by {
                assert(gc.nodes.gen_at(i) == g0.nodes.gen_at(i));
            }
            assert(self.edge_slot_count() == g0.edge_slot_count());
            assert(self.edge_gen_spec(e.index as int) > e.generation);
            assert forall|i: int|
                0 <= i < g0.edge_slot_count() && i != e.index as int
                    implies #[trigger] self.edge_gen_spec(i) == g0.edge_gen_spec(i) by {
                assert(self.edges.slots_spec()[i] == g0.edges.slots_spec()[i]);
            }
            assert(self.node_count_spec() == g0.node_count_spec()) by {
                crate::arena::lemma_count_some_same_someness(
                    g0.nodes.slots_spec(),
                    self.nodes.slots_spec(),
                );
            }
        }
        Some(data)
    }

    #[verifier::rlimit(60)]
    fn remove_node(&mut self, n: NodeIdx) -> (r: Option<N>) {
        if !self.nodes.contains(n.index, n.generation) {
            return None;
        }
        let ghost g0 = *self;
        let victims = collect_incident(&self.edges, n);
        let vlen = victims.len();
        let mut k: usize = 0;
        while k < vlen
            invariant
                vlen == victims@.len(),
                k <= vlen,
                g0.inv(),
                g0.nodes.is_live(n.index as int, n.generation),
                victims@.len() == incident_count(g0.edges.slots_spec(), n),
                forall|k2: int|
                    0 <= k2 < victims@.len() ==> crate::graphs::edge_live_in(
                        g0.edges.slots_spec(),
                        #[trigger] victims@[k2],
                    ) && (crate::graphs::edge_at(g0.edges.slots_spec(), victims@[k2]).src == n
                        || crate::graphs::edge_at(g0.edges.slots_spec(), victims@[k2]).dst == n),
                forall|k1: int, k2: int|
                    0 <= k1 < k2 < victims@.len() ==> victims@[k1] != victims@[k2],
                forall|e2: EdgeIdx|
                    crate::graphs::edge_live_in(g0.edges.slots_spec(), e2) && (
                    crate::graphs::edge_at(g0.edges.slots_spec(), e2).src == n
                        || crate::graphs::edge_at(g0.edges.slots_spec(), e2).dst == n)
                        ==> victims@.contains(e2),
                self.inv(),
                forall|m: NodeIdx|
                    #[trigger] self.nodes.is_live(m.index as int, m.generation)
                        == g0.nodes.is_live(m.index as int, m.generation),
                forall|m: NodeIdx|
                    g0.nodes.is_live(m.index as int, m.generation)
                        ==> #[trigger] self.nodes.value_at(m.index as int).data
                        == g0.nodes.value_at(m.index as int).data,
                self.nodes.slot_count() == g0.nodes.slot_count(),
                forall|j: int|
                    0 <= j < g0.nodes.slot_count() ==> #[trigger] self.nodes.gen_at(j)
                        == g0.nodes.gen_at(j),
                self.nodes.live_count() == g0.nodes.live_count(),
                forall|e2: EdgeIdx|
                    #[trigger] self.edges.is_live(e2.index as int, e2.generation) == (
                    g0.edges.is_live(e2.index as int, e2.generation) && !victims@.take(
                        k as int,
                    ).contains(e2)),
                forall|e2: EdgeIdx|
                    self.edges.is_live(e2.index as int, e2.generation)
                        ==> #[trigger] self.edges.value_at(e2.index as int) == g0.edges.value_at(
                        e2.index as int,
                    ),
                self.edges.live_count() == g0.edges.live_count() - k,
                self.edges.slot_count() == g0.edges.slot_count(),
                forall|j: int|
                    0 <= j < g0.edges.slot_count() ==> #[trigger] self.edges.gen_at(j)
                        >= g0.edges.gen_at(j),
            decreases vlen - k,
        {
            let v = victims[k];
            let ghost spre = *self;
            proof {
                assert(!victims@.take(k as int).contains(v)) by {
                    if victims@.take(k as int).contains(v) {
                        let k1 = choose|k1: int|
                            0 <= k1 < k && #[trigger] victims@.take(k as int)[k1] == v;
                        assert(victims@[k1] == victims@[k as int]);
                    }
                }
                assert(g0.edges.is_live(v.index as int, v.generation));
                assert(self.edges.is_live(v.index as int, v.generation));
            }
            let removed = self.remove_edge(v);
            proof {
                assert(removed is Some);
                assert(victims@.take(k + 1) =~= victims@.take(k as int).push(v));
                assert forall|e2: EdgeIdx|
                    #[trigger] self.edges.is_live(e2.index as int, e2.generation) == (
                    g0.edges.is_live(e2.index as int, e2.generation) && !victims@.take(
                        k + 1,
                    ).contains(e2)) by {
                    if e2 == v {
                        assert(!self.has_edge_spec(v));
                    } else {
                        assert(self.has_edge_spec(e2) == spre.has_edge_spec(e2));
                        assert(spre.edges.is_live(e2.index as int, e2.generation) == (
                        g0.edges.is_live(e2.index as int, e2.generation) && !victims@.take(
                            k as int,
                        ).contains(e2)));
                    }
                    if victims@.take(k + 1).contains(e2) {
                        let k1 = choose|k1: int|
                            0 <= k1 < k + 1 && #[trigger] victims@.take(k + 1)[k1] == e2;
                        if k1 < k {
                            assert(victims@.take(k as int)[k1] == e2);
                        } else {
                            assert(e2 == v);
                        }
                    } else {
                        assert(!victims@.take(k as int).contains(e2)) by {
                            if victims@.take(k as int).contains(e2) {
                                let k1 = choose|k1: int|
                                    0 <= k1 < k && #[trigger] victims@.take(k as int)[k1] == e2;
                                assert(victims@.take(k + 1)[k1] == e2);
                            }
                        }
                        assert(e2 != v) by {
                            if e2 == v {
                                assert(victims@.take(k + 1)[k as int] == e2);
                            }
                        }
                    }
                }
                assert(self.inv()) by {
                    assert(self.wf());
                }
                assert forall|m: NodeIdx|
                    #[trigger] self.nodes.is_live(m.index as int, m.generation)
                        == g0.nodes.is_live(m.index as int, m.generation) by {
                    assert(self.has_node_spec(m) == spre.has_node_spec(m));
                }
                assert forall|m: NodeIdx|
                    g0.nodes.is_live(m.index as int, m.generation)
                        implies #[trigger] self.nodes.value_at(m.index as int).data
                        == g0.nodes.value_at(m.index as int).data by {
                    assert(spre.has_node_spec(m));
                    assert(self.node_value_spec(m) == spre.node_value_spec(m));
                }
                assert(self.nodes.slot_count() == g0.nodes.slot_count()) by {
                    assert(self.node_slot_count() == spre.node_slot_count());
                }
                assert forall|j: int|
                    0 <= j < g0.nodes.slot_count() implies #[trigger] self.nodes.gen_at(j)
                        == g0.nodes.gen_at(j) by {
                    assert(self.node_gen_spec(j) == spre.node_gen_spec(j));
                }
                assert(self.nodes.live_count() == g0.nodes.live_count()) by {
                    assert(self.node_count_spec() == spre.node_count_spec());
                }
                assert forall|e2: EdgeIdx|
                    self.edges.is_live(e2.index as int, e2.generation)
                        implies #[trigger] self.edges.value_at(e2.index as int)
                        == g0.edges.value_at(e2.index as int) by {
                    assert(self.has_edge_spec(e2));
                    assert(e2 != v) by {
                        if e2 == v {
                            assert(!self.has_edge_spec(v));
                        }
                    }
                    assert(spre.has_edge_spec(e2));
                    assert(self.edge_src_spec(e2) == spre.edge_src_spec(e2));
                    assert(self.edge_dst_spec(e2) == spre.edge_dst_spec(e2));
                    assert(self.edge_value_spec(e2) == spre.edge_value_spec(e2));
                    assert(spre.edges.value_at(e2.index as int) == g0.edges.value_at(
                        e2.index as int,
                    ));
                    assert(self.edges.value_at(e2.index as int) == (Edge {
                        src: self.edge_src_spec(e2),
                        dst: self.edge_dst_spec(e2),
                        data: self.edge_value_spec(e2),
                    }));
                }
                assert(self.edges.live_count() == g0.edges.live_count() - (k + 1)) by {
                    assert(self.edge_count_spec() == spre.edge_count_spec() - 1);
                }
                assert(self.edges.slot_count() == g0.edges.slot_count()) by {
                    assert(self.edge_slot_count() == spre.edge_slot_count());
                }
                assert forall|j: int|
                    0 <= j < g0.edges.slot_count() implies #[trigger] self.edges.gen_at(j)
                        >= g0.edges.gen_at(j) by {
                    assert(spre.edges.gen_at(j) >= g0.edges.gen_at(j));
                    if j == v.index as int {
                        assert(self.edge_gen_spec(j) > v.generation);
                        assert(v.generation == spre.edges.gen_at(j));
                    } else {
                        assert(self.edge_gen_spec(j) == spre.edge_gen_spec(j));
                    }
                }
            }
            k = k + 1;
        }
        proof {
            lemma_take_all(victims@);
        }
        let ghost gl = *self;
        let nd = match self.nodes.remove(n.index, n.generation) {
            Some(nd) => nd,
            None => vstd::pervasive::unreached(),
        };
        proof {
            assert(g0 == *old(self));
            lemma_remove_node_restores(g0, gl, *self, n, victims@);
            assert(!self.has_node_spec(n));
            assert forall|m: NodeIdx|
                m != n implies #[trigger] self.has_node_spec(m) == g0.has_node_spec(m) by {
                if m.index as int == n.index as int {
                    assert(!self.nodes.is_live(m.index as int, m.generation));
                    assert(!g0.nodes.is_live(m.index as int, m.generation)) by {
                        if g0.nodes.is_live(m.index as int, m.generation) {
                            assert(m.generation == g0.nodes.gen_at(n.index as int));
                            assert(n.generation == g0.nodes.gen_at(n.index as int));
                            assert(m == n);
                        }
                    }
                } else {
                    assert(self.nodes.is_live(m.index as int, m.generation) == gl.nodes.is_live(
                        m.index as int,
                        m.generation,
                    ));
                    assert(gl.nodes.is_live(m.index as int, m.generation) == g0.nodes.is_live(
                        m.index as int,
                        m.generation,
                    ));
                }
            }
            assert forall|m: NodeIdx|
                m != n && g0.has_node_spec(m) implies #[trigger] self.node_value_spec(m)
                == g0.node_value_spec(m) by {
                assert(m.index as int != n.index as int) by {
                    if m.index as int == n.index as int {
                        assert(m.generation == g0.nodes.gen_at(n.index as int));
                        assert(n.generation == g0.nodes.gen_at(n.index as int));
                    }
                }
                assert(self.nodes.slots_spec()[m.index as int]
                    == gl.nodes.slots_spec()[m.index as int]);
                assert(gl.nodes.value_at(m.index as int).data == g0.nodes.value_at(
                    m.index as int,
                ).data) by {
                    assert(gl.nodes.is_live(m.index as int, m.generation));
                }
            }
            assert(self.node_count_spec() == g0.node_count_spec() - 1);
            assert forall|e2: EdgeIdx|
                #[trigger] self.has_edge_spec(e2) == (g0.has_edge_spec(e2) && g0.edge_src_spec(
                    e2,
                ) != n && g0.edge_dst_spec(e2) != n) by {
                assert(self.edges == gl.edges);
                assert(gl.edges.is_live(e2.index as int, e2.generation) == (g0.edges.is_live(
                    e2.index as int,
                    e2.generation,
                ) && !victims@.contains(e2)));
                if g0.edges.is_live(e2.index as int, e2.generation) {
                    if victims@.contains(e2) {
                        let k2 = choose|k2: int|
                            0 <= k2 < victims@.len() && victims@[k2] == e2;
                        assert(crate::graphs::edge_at(g0.edges.slots_spec(), victims@[k2]).src
                            == n || crate::graphs::edge_at(g0.edges.slots_spec(), victims@[k2]).dst
                            == n);
                    } else {
                        assert(g0.edge_src_spec(e2) != n && g0.edge_dst_spec(e2) != n) by {
                            if g0.edge_src_spec(e2) == n || g0.edge_dst_spec(e2) == n {
                                assert(crate::graphs::edge_live_in(g0.edges.slots_spec(), e2));
                                assert(victims@.contains(e2));
                            }
                        }
                    }
                }
            }
            assert forall|e2: EdgeIdx|
                self.has_edge_spec(e2) implies #[trigger] self.edge_src_spec(e2)
                == g0.edge_src_spec(e2) && self.edge_dst_spec(e2) == g0.edge_dst_spec(e2)
                && self.edge_value_spec(e2) == g0.edge_value_spec(e2) by {
                assert(gl.edges.is_live(e2.index as int, e2.generation));
                assert(gl.edges.value_at(e2.index as int) == g0.edges.value_at(e2.index as int));
            }
            assert(self.edge_count_spec() == g0.edge_count_spec() - g0.incident_spec(n));
            assert(self.node_slot_count() == g0.node_slot_count());
            assert(self.node_gen_spec(n.index as int) > n.generation);
            assert forall|i: int|
                0 <= i < g0.node_slot_count() && i != n.index as int
                    implies #[trigger] self.node_gen_spec(i) == g0.node_gen_spec(i) by {
                assert(self.nodes.slots_spec()[i] == gl.nodes.slots_spec()[i]);
                assert(gl.nodes.gen_at(i) == g0.nodes.gen_at(i));
            }
            assert(self.edge_slot_count() == g0.edge_slot_count());
            assert forall|i: int|
                0 <= i < g0.edge_slot_count() implies #[trigger] self.edge_gen_spec(i)
                >= g0.edge_gen_spec(i) by {
                assert(gl.edges.gen_at(i) >= g0.edges.gen_at(i));
            }
        }
        Some(nd.data)
    }
}

/// With a live edge `e` connecting `(src, dst)`, pair uniqueness makes `e`
/// the only live edge whose record multiplicity between `src` and `dst` is
/// nonzero, and that multiplicity is one.
proof fn lemma_between_unique<N, E, const DIRECTED: bool, const MAPADJ: bool>(
    g: SimpleGraphCore<N, E, DIRECTED, MAPADJ>,
    src: NodeIdx,
    dst: NodeIdx,
    e: EdgeIdx,
    e2: EdgeIdx,
)
    requires
        g.inv(),
        g.edges.is_live(e.index as int, e.generation),
        crate::graphs::connects_flag(
            DIRECTED,
            g.edges.value_at(e.index as int).src,
            g.edges.value_at(e.index as int).dst,
            src,
            dst,
        ),
    ensures
        crate::graphs::orient_multiplicity(
            DIRECTED,
            g.edges.is_live(e2.index as int, e2.generation),
            g.edges.value_at(e2.index as int).src,
            g.edges.value_at(e2.index as int).dst,
            src,
            dst,
        ) == (if e2 == e {
            1nat
        } else {
            0nat
        }),
{
    let j1 = e.index as int;
    assert(g.edges.slots_spec()[j1].value is Some);
    let ed1 = g.edges.slots_spec()[j1].value.unwrap();
    assert(ed1.src != ed1.dst);
    if e2 == e {
    } else {
        if g.edges.is_live(e2.index as int, e2.generation) {
            let j2 = e2.index as int;
            assert(g.edges.slots_spec()[j2].value is Some);
            let ed2 = g.edges.slots_spec()[j2].value.unwrap();
            if j1 == j2 {
                assert(e.generation == g.edges.gen_at(j1));
                assert(e2.generation == g.edges.gen_at(j1));
                assert(e == e2);
            } else {
                assert(!crate::graphs::connects_flag(DIRECTED, ed2.src, ed2.dst, ed1.src, ed1.dst));
                assert(ed2.src != ed2.dst);
            }
        }
    }
}

/// Replacing only the payload of one live node preserves the whole graph
/// invariant: nothing in it depends on node payloads.
proof fn lemma_inv_node_payload_update<N, E, const DIRECTED: bool, const MAPADJ: bool>(
    g1: SimpleGraphCore<N, E, DIRECTED, MAPADJ>,
    g2: SimpleGraphCore<N, E, DIRECTED, MAPADJ>,
    i: int,
)
    requires
        g1.inv(),
        0 <= i < g1.nodes.slot_count(),
        g1.nodes.slots_spec()[i].value is Some,
        g2.edges == g1.edges,
        g2.nodes.free_list@ == g1.nodes.free_list@,
        g2.nodes.live == g1.nodes.live,
        g2.nodes.slots_spec().len() == g1.nodes.slots_spec().len(),
        forall|j: int|
            0 <= j < g1.nodes.slots_spec().len() && j != i ==> g2.nodes.slots_spec()[j]
                == g1.nodes.slots_spec()[j],
        g2.nodes.slots_spec()[i].generation == g1.nodes.slots_spec()[i].generation,
        g2.nodes.slots_spec()[i].value is Some,
        g2.nodes.slots_spec()[i].value.unwrap().adj@ == g1.nodes.slots_spec()[i].value.unwrap().adj@,
    ensures
        g2.inv(),
        forall|m: NodeIdx|
            #[trigger] g2.nodes.is_live(m.index as int, m.generation) == g1.nodes.is_live(
                m.index as int,
                m.generation,
            ),
{
    assert(g2.nodes.slots_spec() =~= g1.nodes.slots_spec().update(
        i,
        Slot {
            generation: g1.nodes.slots_spec()[i].generation,
            value: Some(g2.nodes.slots_spec()[i].value.unwrap()),
        },
    ));
    lemma_wf_after_value_update(
        g1.nodes,
        g2.nodes,
        i,
        g2.nodes.slots_spec()[i].value.unwrap(),
    );
    assert forall|m: NodeIdx|
        #[trigger] g2.nodes.is_live(m.index as int, m.generation) == g1.nodes.is_live(
            m.index as int,
            m.generation,
        ) by {}
    assert forall|i2: int|
        0 <= i2 < g2.nodes.slot_count() && (#[trigger] g2.nodes.slots_spec()[i2]).value
            is Some implies g2.rec_ok_at(i2) by {
        assert(g1.rec_ok_at(i2));
        assert(g2.owner_at(i2) == g1.owner_at(i2));
        assert(g2.rec_at(i2) == g1.rec_at(i2));
        assert forall|k: int| 0 <= k < g2.rec_at(i2).len() implies g2.rec_entry_ok(
            g2.owner_at(i2),
            #[trigger] g2.rec_at(i2)[k],
        ) by {
            assert(g1.rec_entry_ok(g1.owner_at(i2), g1.rec_at(i2)[k]));
        }
    }
}

/// Replacing only the payload of one live edge preserves the whole graph
/// invariant: nothing in it depends on edge payloads.
proof fn lemma_inv_edge_payload_update<N, E, const DIRECTED: bool, const MAPADJ: bool>(
    g1: SimpleGraphCore<N, E, DIRECTED, MAPADJ>,
    g2: SimpleGraphCore<N, E, DIRECTED, MAPADJ>,
    i: int,
)
    requires
        g1.inv(),
        0 <= i < g1.edges.slot_count(),
        g1.edges.slots_spec()[i].value is Some,
        g2.nodes == g1.nodes,
        g2.edges.free_list@ == g1.edges.free_list@,
        g2.edges.live == g1.edges.live,
        g2.edges.slots_spec().len() == g1.edges.slots_spec().len(),
        forall|j: int|
            0 <= j < g1.edges.slots_spec().len() && j != i ==> g2.edges.slots_spec()[j]
                == g1.edges.slots_spec()[j],
        g2.edges.slots_spec()[i].generation == g1.edges.slots_spec()[i].generation,
        g2.edges.slots_spec()[i].value is Some,
        g2.edges.slots_spec()[i].value.unwrap().src == g1.edges.slots_spec()[i].value.unwrap().src,
        g2.edges.slots_spec()[i].value.unwrap().dst == g1.edges.slots_spec()[i].value.unwrap().dst,
    ensures
        g2.inv(),
        forall|e: EdgeIdx|
            #[trigger] g2.edges.is_live(e.index as int, e.generation) == g1.edges.is_live(
                e.index as int,
                e.generation,
            ),
        forall|n: NodeIdx| #[trigger] degree_count(g2.edges.slots_spec(), n) == degree_count(
            g1.edges.slots_spec(),
            n,
        ),
{
    assert(g2.edges.slots_spec() =~= g1.edges.slots_spec().update(
        i,
        Slot {
            generation: g1.edges.slots_spec()[i].generation,
            value: Some(g2.edges.slots_spec()[i].value.unwrap()),
        },
    ));
    lemma_wf_after_value_update(
        g1.edges,
        g2.edges,
        i,
        g2.edges.slots_spec()[i].value.unwrap(),
    );
    assert forall|n: NodeIdx| #[trigger] degree_count(g2.edges.slots_spec(), n) == degree_count(
        g1.edges.slots_spec(),
        n,
    ) by {
        crate::graphs::lemma_degree_count_equal(g1.edges.slots_spec(), g2.edges.slots_spec(), n);
    }
    assert forall|i2: int|
        0 <= i2 < g2.nodes.slot_count() && (#[trigger] g2.nodes.slots_spec()[i2]).value
            is Some implies g2.rec_ok_at(i2) by {
        assert(g1.rec_ok_at(i2));
        assert(g2.owner_at(i2) == g1.owner_at(i2));
        assert(g2.rec_at(i2) == g1.rec_at(i2));
        assert forall|k: int| 0 <= k < g2.rec_at(i2).len() implies g2.rec_entry_ok(
            g2.owner_at(i2),
            #[trigger] g2.rec_at(i2)[k],
        ) by {
            assert(g1.rec_entry_ok(g1.owner_at(i2), g1.rec_at(i2)[k]));
        }
        assert forall|j: int|
            0 <= j < g2.edges.slot_count() && (#[trigger] g2.edges.slots_spec()[j]).value
                is Some implies ({
            let ed = g2.edges.slots_spec()[j].value.unwrap();
            let e = EdgeIdx { index: j as usize, generation: g2.edges.gen_at(j) };
            &&& (ed.src == g2.owner_at(i2) ==> g2.rec_at(i2).contains((ed.dst, e)))
            &&& (!DIRECTED && ed.dst == g2.owner_at(i2) ==> g2.rec_at(i2).contains((ed.src, e)))
        }) by {
            assert(g1.edges.slots_spec()[j].value is Some);
            assert(g1.rec_ok_at(i2));
        }
    }
}



/// A record entry keyed by `dst` in the record of the live node `src`
/// witnesses a live edge connecting `src` to `dst`.
proof fn lemma_entry_gives_between<N, E, const DIRECTED: bool, const MAPADJ: bool>(
    g: SimpleGraphCore<N, E, DIRECTED, MAPADJ>,
    src: NodeIdx,
    dst: NodeIdx,
    k: int,
)
    requires
        g.inv(),
        g.nodes.is_live(src.index as int, src.generation),
        0 <= k < g.rec_at(src.index as int).len(),
        g.rec_at(src.index as int)[k].0 == dst,
    ensures
        ({
            let e = g.rec_at(src.index as int)[k].1;
            g.edges.is_live(e.index as int, e.generation) && crate::graphs::connects_flag(
                DIRECTED,
                g.edges.value_at(e.index as int).src,
                g.edges.value_at(e.index as int).dst,
                src,
                dst,
            )
        }),
{
    let i = src.index as int;
    assert(g.nodes.slots_spec()[i].value is Some);
    assert(g.rec_ok_at(i));
    assert(g.owner_at(i) == src);
    assert(g.rec_entry_ok(src, g.rec_at(i)[k]));
}

/// If the record of the live node `src` has no entry keyed by `dst`, then
/// no live edge connects `src` to `dst`.
proof fn lemma_key_absent_no_between<N, E, const DIRECTED: bool, const MAPADJ: bool>(
    g: SimpleGraphCore<N, E, DIRECTED, MAPADJ>,
    src: NodeIdx,
    dst: NodeIdx,
)
    requires
        g.inv(),
        g.nodes.is_live(src.index as int, src.generation),
        forall|k: int|
            0 <= k < g.rec_at(src.index as int).len() ==> (#[trigger] g.rec_at(
                src.index as int,
            )[k]).0 != dst,
    ensures
        forall|ei: EdgeIdx|
            !(#[trigger] g.edges.is_live(ei.index as int, ei.generation)
                && crate::graphs::connects_flag(
                DIRECTED,
                g.edges.value_at(ei.index as int).src,
                g.edges.value_at(ei.index as int).dst,
                src,
                dst,
            )),
{
    let i = src.index as int;
    assert(g.nodes.slots_spec()[i].value is Some);
    assert(g.rec_ok_at(i));
    assert(g.owner_at(i) == src);
    let rec = g.rec_at(i);
    assert forall|ei: EdgeIdx|
        !(#[trigger] g.edges.is_live(ei.index as int, ei.generation)
            && crate::graphs::connects_flag(
            DIRECTED,
            g.edges.value_at(ei.index as int).src,
            g.edges.value_at(ei.index as int).dst,
            src,
            dst,
        )) by {
        if g.edges.is_live(ei.index as int, ei.generation) && crate::graphs::connects_flag(
            DIRECTED,
            g.edges.value_at(ei.index as int).src,
            g.edges.value_at(ei.index as int).dst,
            src,
            dst,
        ) {
            let j = ei.index as int;
            assert(g.edges.slots_spec()[j].value is Some);
            let ed = g.edges.slots_spec()[j].value.unwrap();
            let eh = EdgeIdx { index: j as usize, generation: g.edges.gen_at(j) };
            assert(eh == ei);
            if ed.src == src {
                assert(rec.contains((ed.dst, eh)));
                let k = choose|k: int| 0 <= k < rec.len() && rec[k] == (ed.dst, eh);
                assert(rec[k].0 == dst);
                assert(false);
            } else {
                assert(!DIRECTED && ed.dst == src);
                assert(rec.contains((ed.src, eh)));
                let k = choose|k: int| 0 <= k < rec.len() && rec[k] == (ed.src, eh);
                assert(rec[k].0 == dst);
                assert(false);
            }
        }
    }
}

/// After inserting a fresh edge `(src, dst)` into the edge arena and adding
/// the matching entry to the endpoint records, the whole invariant holds
/// again.
#[verifier::rlimit(100)]
proof fn lemma_add_edge_restores<N, E, const DIRECTED: bool, const MAPADJ: bool>(
    g0: SimpleGraphCore<N, E, DIRECTED, MAPADJ>,
    gb: SimpleGraphCore<N, E, DIRECTED, MAPADJ>,
    g2: SimpleGraphCore<N, E, DIRECTED, MAPADJ>,
    src: NodeIdx,
    dst: NodeIdx,
    e: EdgeIdx,
    value: E,
    rec0: Seq<(NodeIdx, EdgeIdx)>,
)
    requires
        g0.inv(),
        g0.nodes.is_live(src.index as int, src.generation),
        g0.nodes.is_live(dst.index as int, dst.generation),
        src != dst,
        forall|ei: EdgeIdx|
            !(#[trigger] g0.edges.is_live(ei.index as int, ei.generation)
                && crate::graphs::connects_flag(
                DIRECTED,
                g0.edges.value_at(ei.index as int).src,
                g0.edges.value_at(ei.index as int).dst,
                src,
                dst,
            )),
        // the edge arena after the insert
        !g0.edges.is_live(e.index as int, e.generation),
        gb.edges.wf(),
        gb.edges.is_live(e.index as int, e.generation),
        gb.edges.value_at(e.index as int) == (Edge { src, dst, data: value }),
        gb.edges.live_count() == g0.edges.live_count() + 1,
        2 * gb.edges.live_count() <= usize::MAX,
        forall|i: int, g: u64|
            !(i == e.index as int && g == e.generation) ==> #[trigger] gb.edges.is_live(i, g)
                == g0.edges.is_live(i, g),
        forall|i: int|
            0 <= i < g0.edges.slot_count() && i != e.index as int
                ==> #[trigger] gb.edges.slots_spec()[i] == g0.edges.slots_spec()[i],
        g0.edges.slot_count() <= gb.edges.slot_count() <= g0.edges.slot_count() + 1,
        gb.edges.slot_count() == g0.edges.slot_count() + 1 ==> e.index == g0.edges.slot_count(),
        (e.index as int) < gb.edges.slot_count(),
        // the node arena after the record updates
        gb.nodes.wf(),
        rec0 == g0.rec_at(src.index as int),
        gb.nodes.slot_count() == g0.nodes.slot_count(),
        forall|i: int|
            0 <= i < g0.nodes.slot_count() && i != src.index as int
                ==> #[trigger] gb.nodes.slots_spec()[i] == g0.nodes.slots_spec()[i],
        gb.nodes.slots_spec()[src.index as int].generation == src.generation,
        gb.nodes.slots_spec()[src.index as int].value is Some,
        gb.rec_at(src.index as int) == (if DIRECTED && MAPADJ {
            rec0.insert(0, (dst, e))
        } else {
            rec0.push((dst, e))
        }),
        g2.edges == gb.edges,
        g2.nodes.wf(),
        g2.nodes.slot_count() == gb.nodes.slot_count(),
        if DIRECTED {
            g2.nodes == gb.nodes
        } else {
            forall|i: int|
                0 <= i < gb.nodes.slot_count() && i != dst.index as int
                    ==> #[trigger] g2.nodes.slots_spec()[i] == gb.nodes.slots_spec()[i]
        },
        !DIRECTED ==> g2.nodes.slots_spec()[dst.index as int].generation == dst.generation
            && g2.nodes.slots_spec()[dst.index as int].value is Some && g2.rec_at(
            dst.index as int,
        ) == gb.rec_at(dst.index as int).push((src, e)),
    ensures
        g2.inv(),
{
    let si = src.index as int;
    let di = dst.index as int;
    let entry = (dst, e);
    assert(si != di) by {
        if si == di {
            assert(src.generation == g0.nodes.gen_at(si));
            assert(dst.generation == g0.nodes.gen_at(di));
        }
    }
    let rec1 = g2.rec_at(si);
    assert(rec1 == gb.rec_at(si));
    if DIRECTED && MAPADJ {
        assert(rec1 =~= seq![entry] + rec0);
    }
    assert(rec1.len() == rec0.len() + 1);
    assert forall|x: (NodeIdx, EdgeIdx)| #[trigger] rec1.contains(x) == (rec0.contains(x) || x
        == entry) by {
        if DIRECTED && MAPADJ {
            if rec1.contains(x) {
                let k = choose|k: int| 0 <= k < rec1.len() && rec1[k] == x;
                if k == 0 {
                } else {
                    assert(rec0[k - 1] == x);
                }
            }
            if rec0.contains(x) {
                let k = choose|k: int| 0 <= k < rec0.len() && rec0[k] == x;
                assert(rec1[k + 1] == x);
            }
            if x == entry {
                assert(rec1[0] == x);
            }
        } else {
            if rec1.contains(x) {
                let k = choose|k: int| 0 <= k < rec1.len() && rec1[k] == x;
                if k < rec0.len() {
                    assert(rec0[k] == x);
                }
            }
            if rec0.contains(x) {
                let k = choose|k: int| 0 <= k < rec0.len() && rec0[k] == x;
                assert(rec1[k] == x);
            }
            if x == entry {
                assert(rec1[rec0.len() as int] == x);
            }
        }
    }
    let rec0d = g0.rec_at(di);
    let rec2d = g2.rec_at(di);
    if !DIRECTED {
        assert(gb.rec_at(di) == rec0d);
        assert(rec2d == rec0d.push((src, e)));
        assert forall|x: (NodeIdx, EdgeIdx)| #[trigger] rec2d.contains(x) == (rec0d.contains(x)
            || x == (src, e)) by {
            if rec2d.contains(x) {
                let k = choose|k: int| 0 <= k < rec2d.len() && rec2d[k] == x;
                if k < rec0d.len() {
                    assert(rec0d[k] == x);
                }
            }
            if rec0d.contains(x) {
                let k = choose|k: int| 0 <= k < rec0d.len() && rec0d[k] == x;
                assert(rec2d[k] == x);
            }
            if x == (src, e) {
                assert(rec2d[rec0d.len() as int] == x);
            }
        }
    }
    // node liveness is unchanged between g0 and g2
    assert forall|m: NodeIdx|
        #[trigger] g2.nodes.is_live(m.index as int, m.generation) == g0.nodes.is_live(
            m.index as int,
            m.generation,
        ) by {}
    // every live edge of g2 joins distinct live nodes
    assert forall|j: int|
        0 <= j < g2.edges.slot_count() && (#[trigger] g2.edges.slots_spec()[j]).value
            is Some implies ({
        let ed = g2.edges.slots_spec()[j].value.unwrap();
        &&& g2.nodes.is_live(ed.src.index as int, ed.src.generation)
        &&& g2.nodes.is_live(ed.dst.index as int, ed.dst.generation)
        &&& ed.src != ed.dst
    }) by {
        let eh = EdgeIdx { index: j as usize, generation: g2.edges.gen_at(j) };
        assert(g2.edges.is_live(j, g2.edges.gen_at(j)));
        if j == e.index as int {
            assert(eh == e);
            assert(g2.edges.slots_spec()[j].value.unwrap() == (Edge { src, dst, data: value }));
        } else {
            assert(gb.edges.is_live(j, g2.edges.gen_at(j)) == g0.edges.is_live(
                j,
                g2.edges.gen_at(j),
            ));
            assert(g0.edges.slots_spec()[j].value is Some);
            let ed = g0.edges.slots_spec()[j].value.unwrap();
            assert(g0.nodes.is_live(ed.src.index as int, ed.src.generation));
            assert(g0.nodes.is_live(ed.dst.index as int, ed.dst.generation));
        }
    }
    // pair uniqueness
    assert forall|j1: int, j2: int|
        0 <= j1 < g2.edges.slot_count() && 0 <= j2 < g2.edges.slot_count() && j1 != j2 && (
        #[trigger] g2.edges.slots_spec()[j1]).value is Some && (
    #[trigger] g2.edges.slots_spec()[j2]).value is Some implies ({
        let e1 = g2.edges.slots_spec()[j1].value.unwrap();
        let e2 = g2.edges.slots_spec()[j2].value.unwrap();
        !crate::graphs::connects_flag(DIRECTED, e2.src, e2.dst, e1.src, e1.dst)
    }) by {
        let e1 = g2.edges.slots_spec()[j1].value.unwrap();
        let e2 = g2.edges.slots_spec()[j2].value.unwrap();
        if j1 == e.index as int {
            assert(e1 == (Edge { src, dst, data: value }));
            assert(g0.edges.slots_spec()[j2].value is Some);
            assert(e2 == g0.edges.slots_spec()[j2].value.unwrap());
            let eh2 = EdgeIdx { index: j2 as usize, generation: g0.edges.gen_at(j2) };
            assert(g0.edges.is_live(j2, g0.edges.gen_at(j2)));
            assert(!crate::graphs::connects_flag(DIRECTED, e2.src, e2.dst, src, dst));
        } else if j2 == e.index as int {
            assert(e2 == (Edge { src, dst, data: value }));
            assert(g0.edges.slots_spec()[j1].value is Some);
            assert(e1 == g0.edges.slots_spec()[j1].value.unwrap());
            let eh1 = EdgeIdx { index: j1 as usize, generation: g0.edges.gen_at(j1) };
            assert(g0.edges.is_live(j1, g0.edges.gen_at(j1)));
            assert(!crate::graphs::connects_flag(DIRECTED, e1.src, e1.dst, src, dst));
        } else {
            assert(g0.edges.slots_spec()[j1].value is Some);
            assert(g0.edges.slots_spec()[j2].value is Some);
            assert(e1 == g0.edges.slots_spec()[j1].value.unwrap());
            assert(e2 == g0.edges.slots_spec()[j2].value.unwrap());
        }
    }
    // records
    assert forall|i2: int|
        0 <= i2 < g2.nodes.slot_count() && (#[trigger] g2.nodes.slots_spec()[i2]).value
            is Some implies g2.rec_ok_at(i2) by {
        let n2 = g2.owner_at(i2);
        let rec = g2.rec_at(i2);
        assert(g0.nodes.slots_spec()[i2].value is Some) by {
            assert(g2.nodes.is_live(i2, g2.nodes.gen_at(i2)));
        }
        assert(g0.rec_ok_at(i2));
        assert(g2.owner_at(i2) == g0.owner_at(i2));
        // soundness of entries
        assert forall|k: int| 0 <= k < rec.len() implies g2.rec_entry_ok(
            n2,
            #[trigger] rec[k],
        ) by {
            let p = rec[k];
            let is_new = (i2 == si && p == entry) || (!DIRECTED && i2 == di && p == (src, e));
            if i2 == si {
                assert(n2 == src);
                assert(rec == rec1);
                assert(rec1.contains(rec1[k]));
            } else if !DIRECTED && i2 == di {
                assert(n2 == dst);
                assert(rec == rec2d);
                assert(rec2d.contains(rec2d[k]));
            } else {
                assert(rec == g0.rec_at(i2));
                assert(rec.contains(rec[k]));
            }
            if is_new {
                assert(g2.edges.value_at(e.index as int) == (Edge { src, dst, data: value }));
            } else {
                assert((i2 == si && rec0.contains(p)) || (!DIRECTED && i2 == di
                    && rec0d.contains(p)) || (i2 != si && !(!DIRECTED && i2 == di)
                    && g0.rec_at(i2).contains(p)));
                let krec = if i2 == si {
                    rec0
                } else if !DIRECTED && i2 == di {
                    rec0d
                } else {
                    g0.rec_at(i2)
                };
                assert(krec.contains(p));
                let k0 = choose|k0: int| 0 <= k0 < krec.len() && krec[k0] == p;
                assert(g0.rec_entry_ok(g0.owner_at(i2), krec[k0]));
                assert(p.1.index as int != e.index as int || p.1.generation != e.generation) by {
                    if p.1 == e {
                        assert(g0.edges.is_live(e.index as int, e.generation));
                    }
                }
                assert(g2.edges.is_live(p.1.index as int, p.1.generation));
                assert(g2.edges.slots_spec()[p.1.index as int]
                    == g0.edges.slots_spec()[p.1.index as int]);
            }
        }
        // distinct edge components
        assert forall|k1: int, k2: int| 0 <= k1 < k2 < rec.len() implies rec[k1].1
            != rec[k2].1 by {
            if i2 == si || (!DIRECTED && i2 == di) {
                let base = if i2 == si {
                    rec0
                } else {
                    rec0d
                };
                let extra = if i2 == si {
                    entry
                } else {
                    ((src, e))
                };
                // map both indices back to base or the new entry
                assert(rec.len() == base.len() + 1);
                let b1 = rec[k1];
                let b2 = rec[k2];
                assert(rec.contains(b1)) by {
                    assert(rec[k1] == b1);
                }
                assert(rec.contains(b2)) by {
                    assert(rec[k2] == b2);
                }
                if b1.1 == b2.1 {
                    // at most one of them can be the new entry, whose edge is
                    // fresh; the other is an old entry with a live old edge
                    if b1 == extra && b2 == extra {
                        // both equal the new entry: impossible since the new
                        // entry occurs at exactly one position
                        if DIRECTED && MAPADJ && i2 == si {
                            assert(rec[0] == extra);
                            assert(k2 >= 1);
                            assert(rec[k2] == rec0[k2 - 1]);
                            assert(rec0.contains(rec0[k2 - 1]));
                            let kk = k2 - 1;
                            assert(g0.rec_entry_ok(g0.owner_at(i2), rec0[kk]));
                            assert(g0.edges.is_live(extra.1.index as int, extra.1.generation));
                            assert(false);
                        } else {
                            assert(rec[rec.len() - 1] == extra);
                            assert(k1 < rec.len() - 1);
                            assert(rec[k1] == base[k1]);
                            assert(base.contains(base[k1]));
                            assert(g0.rec_entry_ok(g0.owner_at(i2), base[k1]));
                            assert(g0.edges.is_live(extra.1.index as int, extra.1.generation));
                            assert(false);
                        }
                    } else if b1 == extra || b2 == extra {
                        let other = if b1 == extra {
                            b2
                        } else {
                            b1
                        };
                        assert(base.contains(other) || other == extra) by {}
                        assert(base.contains(other)) by {
                            if other == extra {
                                assert(false);
                            }
                        }
                        let kk = choose|kk: int| 0 <= kk < base.len() && base[kk] == other;
                        assert(g0.rec_entry_ok(g0.owner_at(i2), base[kk]));
                        assert(g0.edges.is_live(other.1.index as int, other.1.generation));
                        assert(other.1 == e);
                        assert(false);
                    } else {
                        assert(base.contains(b1));
                        assert(base.contains(b2));
                        let kk1 = choose|kk: int| 0 <= kk < base.len() && base[kk] == b1;
                        let kk2 = choose|kk: int| 0 <= kk < base.len() && base[kk] == b2;
                        assert(kk1 != kk2) by {
                            if kk1 == kk2 {
                                assert(b1 == b2);
                                // two positions of rec with the same entry value
                                // and that entry is in base exactly once; but
                                // the shifted positions must then coincide
                                if DIRECTED && MAPADJ && i2 == si {
                                    assert(k1 >= 1 || rec[k1] == extra);
                                    assert(rec[k1] != extra ==> rec0[k1 - 1] == b1);
                                    assert(rec[k2] != extra ==> rec0[k2 - 1] == b2);
                                    assert(rec[k1] == b1 && rec[k2] == b1);
                                    if b1 != extra {
                                        assert(rec0[k1 - 1].1 == rec0[k2 - 1].1);
                                        assert(k1 - 1 != k2 - 1);
                                        assert(false);
                                    } else {
                                        assert(false);
                                    }
                                } else {
                                    assert(k1 < base.len() || rec[k1] == extra);
                                    if b1 != extra {
                                        assert(k1 < base.len() && k2 < base.len());
                                        assert(base[k1].1 == base[k2].1);
                                        assert(false);
                                    } else {
                                        assert(false);
                                    }
                                }
                            }
                        }
                        assert(base[kk1].1 != base[kk2].1) by {
                            if kk1 < kk2 {
                            } else {
                            }
                        }
                        assert(false);
                    }
                }
            } else {
                assert(rec == g0.rec_at(i2));
            }
        }
        // completeness
        assert forall|j: int|
            0 <= j < g2.edges.slot_count() && (#[trigger] g2.edges.slots_spec()[j]).value
                is Some implies ({
            let ed = g2.edges.slots_spec()[j].value.unwrap();
            let eh = EdgeIdx { index: j as usize, generation: g2.edges.gen_at(j) };
            &&& (ed.src == n2 ==> rec.contains((ed.dst, eh)))
            &&& (!DIRECTED && ed.dst == n2 ==> rec.contains((ed.src, eh)))
        }) by {
            let ed = g2.edges.slots_spec()[j].value.unwrap();
            let eh = EdgeIdx { index: j as usize, generation: g2.edges.gen_at(j) };
            if j == e.index as int {
                assert(eh == e);
                assert(ed == (Edge { src, dst, data: value }));
                if ed.src == n2 {
                    assert(n2 == src);
                    assert(i2 == si) by {
                        assert(g0.nodes.is_live(n2.index as int, n2.generation));
                    }
                    assert(rec.contains(entry));
                }
                if !DIRECTED && ed.dst == n2 {
                    assert(n2 == dst);
                    assert(i2 == di) by {
                        assert(g0.nodes.is_live(n2.index as int, n2.generation));
                    }
                    assert(rec.contains((src, e)));
                }
            } else {
                assert(g0.edges.slots_spec()[j] == g2.edges.slots_spec()[j]);
                assert(g0.rec_ok_at(i2));
                let ghost0 = g0.rec_at(i2);
                if ed.src == n2 {
                    assert(ghost0.contains((ed.dst, eh)));
                    if i2 == si {
                        assert(rec1.contains((ed.dst, eh)));
                    } else if !DIRECTED && i2 == di {
                        assert(rec2d.contains((ed.dst, eh)));
                    } else {
                        assert(rec == ghost0);
                    }
                }
                if !DIRECTED && ed.dst == n2 {
                    assert(ghost0.contains((ed.src, eh)));
                    if i2 == si {
                        assert(rec1.contains((ed.src, eh)));
                    } else if i2 == di {
                        assert(rec2d.contains((ed.src, eh)));
                    } else {
                        assert(rec == ghost0);
                    }
                }
            }
        }
    }
}

/// After deleting the record entries of a live edge from both endpoint
/// records and freeing its arena slot, the whole invariant holds again.
#[verifier::rlimit(100)]
proof fn lemma_remove_edge_restores<N, E, const DIRECTED: bool, const MAPADJ: bool>(
    g0: SimpleGraphCore<N, E, DIRECTED, MAPADJ>,
    gc: SimpleGraphCore<N, E, DIRECTED, MAPADJ>,
    g2: SimpleGraphCore<N, E, DIRECTED, MAPADJ>,
    e: EdgeIdx,
    esrc: NodeIdx,
    edst: NodeIdx,
)
    requires
        g0.inv(),
        g0.edges.is_live(e.index as int, e.generation),
        esrc == g0.edges.value_at(e.index as int).src,
        edst == g0.edges.value_at(e.index as int).dst,
        gc.edges == g0.edges,
        gc.nodes.wf(),
        gc.nodes.slot_count() == g0.nodes.slot_count(),
        gc.nodes.live_count() == g0.nodes.live_count(),
        forall|i: int|
            0 <= i < g0.nodes.slot_count() ==> #[trigger] gc.nodes.gen_at(i) == g0.nodes.gen_at(
                i,
            ),
        forall|i: int|
            0 <= i < g0.nodes.slot_count() ==> ((#[trigger] gc.nodes.slots_spec()[i]).value
                is Some == g0.nodes.slots_spec()[i].value is Some),
        exists|p: int|
            0 <= p < g0.rec_at(esrc.index as int).len() && (#[trigger] g0.rec_at(
                esrc.index as int,
            )[p]).1 == e && gc.rec_at(esrc.index as int) == g0.rec_at(esrc.index as int).remove(p),
        if DIRECTED {
            forall|i: int|
                0 <= i < g0.nodes.slot_count() && i != esrc.index as int
                    ==> #[trigger] gc.nodes.slots_spec()[i] == g0.nodes.slots_spec()[i]
        } else {
            forall|i: int|
                0 <= i < g0.nodes.slot_count() && i != esrc.index as int && i != edst.index as int
                    ==> #[trigger] gc.nodes.slots_spec()[i] == g0.nodes.slots_spec()[i]
        },
        !DIRECTED ==> exists|p: int|
            0 <= p < g0.rec_at(edst.index as int).len() && (#[trigger] g0.rec_at(
                edst.index as int,
            )[p]).1 == e && gc.rec_at(edst.index as int) == g0.rec_at(edst.index as int).remove(p),
        g2.nodes == gc.nodes,
        g2.edges.wf(),
        g2.edges.slot_count() == g0.edges.slot_count(),
        g2.edges.live_count() == g0.edges.live_count() - 1,
        forall|j: int, h: u64|
            j != e.index as int ==> #[trigger] g2.edges.is_live(j, h) == g0.edges.is_live(j, h),
        forall|h: u64| !g2.edges.is_live(e.index as int, h),
        forall|j: int|
            0 <= j < g0.edges.slot_count() && j != e.index as int
                ==> #[trigger] g2.edges.slots_spec()[j] == g0.edges.slots_spec()[j],
    ensures
        g2.inv(),
{
    let si = esrc.index as int;
    let di = edst.index as int;
    assert(g0.edges.slots_spec()[e.index as int].value is Some);
    let ed0 = g0.edges.slots_spec()[e.index as int].value.unwrap();
    assert(g0.nodes.is_live(si, esrc.generation));
    assert(g0.nodes.is_live(di, edst.generation));
    assert(esrc != edst);
    assert(si != di) by {
        if si == di {
            assert(esrc.generation == g0.nodes.gen_at(si));
            assert(edst.generation == g0.nodes.gen_at(di));
        }
    }
    assert forall|m: NodeIdx|
        #[trigger] g2.nodes.is_live(m.index as int, m.generation) == g0.nodes.is_live(
            m.index as int,
            m.generation,
        ) by {
        let mi = m.index as int;
        if 0 <= mi && mi < g0.nodes.slot_count() {
            assert(gc.nodes.gen_at(mi) == g0.nodes.gen_at(mi));
            assert((gc.nodes.slots_spec()[mi]).value is Some == g0.nodes.slots_spec()[mi].value
                is Some);
        }
    }
    // an entry whose edge is e can only sit in the records of the endpoints
    assert forall|i2: int, k: int|
        0 <= i2 < g0.nodes.slot_count() && (#[trigger] g0.nodes.slots_spec()[i2]).value is Some
            && 0 <= k < g0.rec_at(i2).len() && (#[trigger] g0.rec_at(i2)[k]).1 == e implies (i2
        == si || (!DIRECTED && i2 == di)) by {
        assert(g0.nodes.slot_count() <= usize::MAX);
        assert(g0.rec_ok_at(i2));
        assert(g0.rec_entry_ok(g0.owner_at(i2), g0.rec_at(i2)[k]));
        let own = g0.owner_at(i2);
        if DIRECTED {
            assert(ed0.src == own);
            assert(own.index as int == i2);
            assert(esrc.index as int == i2);
        } else {
            assert(ed0.src == own || ed0.dst == own);
            assert(own.index as int == i2);
        }
    }
    // every live edge of g2 joins distinct live nodes
    assert forall|j: int|
        0 <= j < g2.edges.slot_count() && (#[trigger] g2.edges.slots_spec()[j]).value
            is Some implies ({
        let ed = g2.edges.slots_spec()[j].value.unwrap();
        &&& g2.nodes.is_live(ed.src.index as int, ed.src.generation)
        &&& g2.nodes.is_live(ed.dst.index as int, ed.dst.generation)
        &&& ed.src != ed.dst
    }) by {
        assert(j != e.index as int) by {
            if j == e.index as int {
                assert(g2.edges.is_live(j, g2.edges.gen_at(j)));
            }
        }
        assert(g0.edges.slots_spec()[j].value is Some);
        let ed = g0.edges.slots_spec()[j].value.unwrap();
        assert(g0.nodes.is_live(ed.src.index as int, ed.src.generation));
        assert(g0.nodes.is_live(ed.dst.index as int, ed.dst.generation));
    }
    // pair uniqueness carries over
    assert forall|j1: int, j2: int|
        0 <= j1 < g2.edges.slot_count() && 0 <= j2 < g2.edges.slot_count() && j1 != j2 && (
        #[trigger] g2.edges.slots_spec()[j1]).value is Some && (
    #[trigger] g2.edges.slots_spec()[j2]).value is Some implies ({
        let e1 = g2.edges.slots_spec()[j1].value.unwrap();
        let e2 = g2.edges.slots_spec()[j2].value.unwrap();
        !crate::graphs::connects_flag(DIRECTED, e2.src, e2.dst, e1.src, e1.dst)
    }) by {
        assert(j1 != e.index as int) by {
            if j1 == e.index as int {
                assert(g2.edges.is_live(j1, g2.edges.gen_at(j1)));
            }
        }
        assert(j2 != e.index as int) by {
            if j2 == e.index as int {
                assert(g2.edges.is_live(j2, g2.edges.gen_at(j2)));
            }
        }
        assert(g0.edges.slots_spec()[j1].value is Some);
        assert(g0.edges.slots_spec()[j2].value is Some);
    }
    // records
    assert forall|i2: int|
        0 <= i2 < g2.nodes.slot_count() && (#[trigger] g2.nodes.slots_spec()[i2]).value
            is Some implies g2.rec_ok_at(i2) by {
        let n2 = g2.owner_at(i2);
        let rec = g2.rec_at(i2);
        assert(g0.nodes.slots_spec()[i2].value is Some);
        assert(g0.rec_ok_at(i2));
        assert(g2.owner_at(i2) == g0.owner_at(i2));
        let base = g0.rec_at(i2);
        // describe rec in terms of base
        if i2 == si || (!DIRECTED && i2 == di) {
            let p = if i2 == si {
                choose|p: int|
                    0 <= p < g0.rec_at(si).len() && (#[trigger] g0.rec_at(si)[p]).1 == e
                        && gc.rec_at(si) == g0.rec_at(si).remove(p)
            } else {
                choose|p: int|
                    0 <= p < g0.rec_at(di).len() && (#[trigger] g0.rec_at(di)[p]).1 == e
                        && gc.rec_at(di) == g0.rec_at(di).remove(p)
            };
            assert(rec == base.remove(p));
            assert(rec.len() == base.len() - 1);
            // entries of rec come from base, skipping position p
            assert forall|k: int| 0 <= k < rec.len() implies g2.rec_entry_ok(
                n2,
                #[trigger] rec[k],
            ) by {
                let kb = if k < p {
                    k
                } else {
                    k + 1
                };
                assert(rec[k] == base[kb]);
                assert(g0.rec_entry_ok(n2, base[kb]));
                assert(base[kb].1 != e) by {
                    if base[kb].1 == e {
                        assert(base[p].1 == e);
                        if kb < p {
                        } else {
                        }
                        assert(kb != p);
                        assert(false);
                    }
                }
                assert(base[kb].1.index as int != e.index as int || base[kb].1.generation
                    != e.generation) by {
                    if base[kb].1.index as int == e.index as int && base[kb].1.generation
                        == e.generation {
                        assert(base[kb].1 == e);
                    }
                }
                assert(g2.edges.is_live(rec[k].1.index as int, rec[k].1.generation));
                assert(g2.edges.slots_spec()[rec[k].1.index as int]
                    == g0.edges.slots_spec()[rec[k].1.index as int]);
            }
            assert forall|k1: int, k2: int| 0 <= k1 < k2 < rec.len() implies rec[k1].1
                != rec[k2].1 by {
                let kb1 = if k1 < p {
                    k1
                } else {
                    k1 + 1
                };
                let kb2 = if k2 < p {
                    k2
                } else {
                    k2 + 1
                };
                assert(rec[k1] == base[kb1]);
                assert(rec[k2] == base[kb2]);
                assert(kb1 < kb2);
            }
            assert forall|j: int|
                0 <= j < g2.edges.slot_count() && (#[trigger] g2.edges.slots_spec()[j]).value
                    is Some implies ({
                let ed = g2.edges.slots_spec()[j].value.unwrap();
                let eh = EdgeIdx { index: j as usize, generation: g2.edges.gen_at(j) };
                &&& (ed.src == n2 ==> rec.contains((ed.dst, eh)))
                &&& (!DIRECTED && ed.dst == n2 ==> rec.contains((ed.src, eh)))
            }) by {
                assert(j != e.index as int) by {
                    if j == e.index as int {
                        assert(g2.edges.is_live(j, g2.edges.gen_at(j)));
                    }
                }
                assert(g2.edges.slots_spec()[j] == g0.edges.slots_spec()[j]);
                let ed = g0.edges.slots_spec()[j].value.unwrap();
                let eh = EdgeIdx { index: j as usize, generation: g0.edges.gen_at(j) };
                assert(eh.index as int == j);
                assert(eh != e);
                if ed.src == n2 {
                    assert(base.contains((ed.dst, eh)));
                    let kb = choose|kb: int| 0 <= kb < base.len() && base[kb] == (ed.dst, eh);
                    assert(kb != p) by {
                        if kb == p {
                            assert(base[p].1 == e);
                        }
                    }
                    if kb < p {
                        assert(rec[kb] == base[kb]);
                        assert(rec.contains(rec[kb]));
                    } else {
                        assert(rec[kb - 1] == base[kb]);
                        assert(rec.contains(rec[kb - 1]));
                    }
                }
                if !DIRECTED && ed.dst == n2 {
                    assert(base.contains((ed.src, eh)));
                    let kb = choose|kb: int| 0 <= kb < base.len() && base[kb] == (ed.src, eh);
                    assert(kb != p) by {
                        if kb == p {
                            assert(base[p].1 == e);
                        }
                    }
                    if kb < p {
                        assert(rec[kb] == base[kb]);
                        assert(rec.contains(rec[kb]));
                    } else {
                        assert(rec[kb - 1] == base[kb]);
                        assert(rec.contains(rec[kb - 1]));
                    }
                }
            }
        } else {
            assert(gc.nodes.slots_spec()[i2] == g0.nodes.slots_spec()[i2]);
            assert(rec == base);
            assert forall|k: int| 0 <= k < rec.len() implies g2.rec_entry_ok(
                n2,
                #[trigger] rec[k],
            ) by {
                assert(g0.rec_entry_ok(n2, base[k]));
                assert(base[k].1 != e) by {
                    if base[k].1 == e {
                        assert(i2 == si || (!DIRECTED && i2 == di));
                    }
                }
                assert(base[k].1.index as int != e.index as int || base[k].1.generation
                    != e.generation) by {
                    if base[k].1.index as int == e.index as int && base[k].1.generation
                        == e.generation {
                        assert(base[k].1 == e);
                    }
                }
                assert(g2.edges.is_live(rec[k].1.index as int, rec[k].1.generation));
                assert(g2.edges.slots_spec()[rec[k].1.index as int]
                    == g0.edges.slots_spec()[rec[k].1.index as int]);
            }
            assert forall|j: int|
                0 <= j < g2.edges.slot_count() && (#[trigger] g2.edges.slots_spec()[j]).value
                    is Some implies ({
                let ed = g2.edges.slots_spec()[j].value.unwrap();
                let eh = EdgeIdx { index: j as usize, generation: g2.edges.gen_at(j) };
                &&& (ed.src == n2 ==> rec.contains((ed.dst, eh)))
                &&& (!DIRECTED && ed.dst == n2 ==> rec.contains((ed.src, eh)))
            }) by {
                assert(j != e.index as int) by {
                    if j == e.index as int {
                        assert(g2.edges.is_live(j, g2.edges.gen_at(j)));
                    }
                }
                assert(g2.edges.slots_spec()[j] == g0.edges.slots_spec()[j]);
            }
        }
    }
}

/// After the cascade has removed every incident edge, freeing the node's
/// own slot restores the whole invariant.
#[verifier::rlimit(100)]
proof fn lemma_remove_node_restores<N, E, const DIRECTED: bool, const MAPADJ: bool>(
    g0: SimpleGraphCore<N, E, DIRECTED, MAPADJ>,
    gl: SimpleGraphCore<N, E, DIRECTED, MAPADJ>,
    g2: SimpleGraphCore<N, E, DIRECTED, MAPADJ>,
    n: NodeIdx,
    victims: Seq<EdgeIdx>,
)
    requires
        g0.inv(),
        g0.nodes.is_live(n.index as int, n.generation),
        forall|k2: int|
            0 <= k2 < victims.len() ==> crate::graphs::edge_live_in(
                g0.edges.slots_spec(),
                #[trigger] victims[k2],
            ) && (crate::graphs::edge_at(g0.edges.slots_spec(), victims[k2]).src == n
                || crate::graphs::edge_at(g0.edges.slots_spec(), victims[k2]).dst == n),
        forall|e2: EdgeIdx|
            crate::graphs::edge_live_in(g0.edges.slots_spec(), e2) && (crate::graphs::edge_at(
                g0.edges.slots_spec(),
                e2,
            ).src == n || crate::graphs::edge_at(g0.edges.slots_spec(), e2).dst == n)
                ==> victims.contains(e2),
        gl.inv(),
        forall|m: NodeIdx|
            #[trigger] gl.nodes.is_live(m.index as int, m.generation) == g0.nodes.is_live(
                m.index as int,
                m.generation,
            ),
        gl.nodes.slot_count() == g0.nodes.slot_count(),
        forall|e2: EdgeIdx|
            #[trigger] gl.edges.is_live(e2.index as int, e2.generation) == (g0.edges.is_live(
                e2.index as int,
                e2.generation,
            ) && !victims.contains(e2)),
        forall|e2: EdgeIdx|
            gl.edges.is_live(e2.index as int, e2.generation) ==> #[trigger] gl.edges.value_at(
                e2.index as int,
            ) == g0.edges.value_at(e2.index as int),
        g2.edges == gl.edges,
        g2.nodes.wf(),
        g2.nodes.slot_count() == gl.nodes.slot_count(),
        forall|j: int, h: u64|
            j != n.index as int ==> #[trigger] g2.nodes.is_live(j, h) == gl.nodes.is_live(j, h),
        forall|h: u64| !g2.nodes.is_live(n.index as int, h),
        forall|j: int|
            0 <= j < gl.nodes.slot_count() && j != n.index as int
                ==> #[trigger] g2.nodes.slots_spec()[j] == gl.nodes.slots_spec()[j],
    ensures
        g2.inv(),
{
    // every live edge of g2 joins distinct live nodes, none of them n
    assert forall|j: int|
        0 <= j < g2.edges.slot_count() && (#[trigger] g2.edges.slots_spec()[j]).value
            is Some implies ({
        let ed = g2.edges.slots_spec()[j].value.unwrap();
        &&& g2.nodes.is_live(ed.src.index as int, ed.src.generation)
        &&& g2.nodes.is_live(ed.dst.index as int, ed.dst.generation)
        &&& ed.src != ed.dst
    }) by {
        let eh = EdgeIdx { index: j as usize, generation: gl.edges.gen_at(j) };
        assert(gl.edges.is_live(j, gl.edges.gen_at(j)));
        assert(g0.edges.is_live(eh.index as int, eh.generation) && !victims.contains(eh));
        assert(g0.edges.slots_spec()[j].value is Some);
        let ed = gl.edges.slots_spec()[j].value.unwrap();
        assert(gl.edges.value_at(j) == g0.edges.value_at(j));
        assert(g0.nodes.is_live(ed.src.index as int, ed.src.generation));
        assert(g0.nodes.is_live(ed.dst.index as int, ed.dst.generation));
        assert(ed.src != n && ed.dst != n) by {
            if ed.src == n || ed.dst == n {
                assert(crate::graphs::edge_live_in(g0.edges.slots_spec(), eh));
                assert(victims.contains(eh));
            }
        }
        assert(gl.nodes.is_live(ed.src.index as int, ed.src.generation));
        assert(g2.nodes.is_live(ed.src.index as int, ed.src.generation)) by {
            if ed.src.index as int == n.index as int {
                assert(ed.src.generation == g0.nodes.gen_at(n.index as int));
                assert(n.generation == g0.nodes.gen_at(n.index as int));
                assert(ed.src == n);
            }
        }
        assert(g2.nodes.is_live(ed.dst.index as int, ed.dst.generation)) by {
            if ed.dst.index as int == n.index as int {
                assert(ed.dst.generation == g0.nodes.gen_at(n.index as int));
                assert(n.generation == g0.nodes.gen_at(n.index as int));
                assert(ed.dst == n);
            }
        }
    }
    // pair uniqueness carries over from gl
    assert forall|j1: int, j2: int|
        0 <= j1 < g2.edges.slot_count() && 0 <= j2 < g2.edges.slot_count() && j1 != j2 && (
        #[trigger] g2.edges.slots_spec()[j1]).value is Some && (
    #[trigger] g2.edges.slots_spec()[j2]).value is Some implies ({
        let e1 = g2.edges.slots_spec()[j1].value.unwrap();
        let e2 = g2.edges.slots_spec()[j2].value.unwrap();
        !crate::graphs::connects_flag(DIRECTED, e2.src, e2.dst, e1.src, e1.dst)
    }) by {
        assert(gl.edges.slots_spec()[j1].value is Some);
        assert(gl.edges.slots_spec()[j2].value is Some);
    }
    // records carry over from gl
    assert forall|i2: int|
        0 <= i2 < g2.nodes.slot_count() && (#[trigger] g2.nodes.slots_spec()[i2]).value
            is Some implies g2.rec_ok_at(i2) by {
        assert(i2 != n.index as int) by {
            if i2 == n.index as int {
                assert(g2.nodes.is_live(i2, g2.nodes.gen_at(i2)));
            }
        }
        assert(g2.nodes.slots_spec()[i2] == gl.nodes.slots_spec()[i2]);
        assert(gl.rec_ok_at(i2));
        assert(g2.owner_at(i2) == gl.owner_at(i2));
        assert(g2.rec_at(i2) == gl.rec_at(i2));
        assert forall|k: int| 0 <= k < g2.rec_at(i2).len() implies g2.rec_entry_ok(
            g2.owner_at(i2),
            #[trigger] g2.rec_at(i2)[k],
        ) by {
            assert(gl.rec_entry_ok(gl.owner_at(i2), gl.rec_at(i2)[k]));
        }
    }
}

impl<N, E, const DIRECTED: bool, const MAPADJ: bool> SimpleGraphCore<N, E, DIRECTED, MAPADJ> {
    /// Creates an empty graph with room reserved for about `nodes` nodes
    /// and `edges` edges; a pure performance hint.
    pub fn with_capacity(nodes: usize, edges: usize) -> (r: Self)
        ensures
            r.wf(),
            r.node_count_spec() == 0,
            r.edge_count_spec() == 0,
            r.node_slot_count() == 0,
            r.edge_slot_count() == 0,
            forall|n: NodeIdx| !(#[trigger] r.has_node_spec(n)),
            forall|e: EdgeIdx| !(#[trigger] r.has_edge_spec(e)),
    {
        SimpleGraphCore { nodes: Arena::with_capacity(nodes), edges: Arena::with_capacity(edges) }
    }
}

impl<N, E, const DIRECTED: bool, const MAPADJ: bool> Default for SimpleGraphCore<
    N,
    E,
    DIRECTED,
    MAPADJ,
> {
    /// An empty graph, exactly as `new` builds it.
    fn default() -> (r: Self)
        ensures
            r.wf(),
            r.node_count_spec() == 0,
            r.edge_count_spec() == 0,
            forall|n: NodeIdx| !(#[trigger] r.has_node_spec(n)),
            forall|e: EdgeIdx| !(#[trigger] r.has_edge_spec(e)),
    {
        SimpleGraphCore { nodes: Arena::new(), edges: Arena::new() }
    }
}

impl<N, E, const DIRECTED: bool, const MAPADJ: bool> SimpleGraph<N, E> for SimpleGraphCore<
    N,
    E,
    DIRECTED,
    MAPADJ,
> {
    fn edge_between(&self, from: NodeIdx, to: NodeIdx) -> (r: Result<Option<EdgeIdx>, GraphError>) {
        if !self.nodes.contains(from.index, from.generation) {
            return Err(GraphError::NodeNotFound(from));
        }
        let nd = match self.nodes.get(from.index, from.generation) {
            Some(nd) => nd,
            None => vstd::pervasive::unreached(),
        };
        match find_by_neighbor(&nd.adj, to) {
            Some(k) => {
                let e = nd.adj[k].1;
                proof {
                    lemma_entry_gives_between(*self, from, to, k as int);
                }
                Ok(Some(e))
            },
            None => {
                proof {
                    lemma_key_absent_no_between(*self, from, to);
                }
                Ok(None)
            },
        }
    }

    fn edge_between_unchecked(&self, from: NodeIdx, to: NodeIdx) -> (r: EdgeIdx) {
        let nd = match self.nodes.get(from.index, from.generation) {
            Some(nd) => nd,
            None => vstd::pervasive::unreached(),
        };
        match find_by_neighbor(&nd.adj, to) {
            Some(k) => {
                let e = nd.adj[k].1;
                proof {
                    lemma_entry_gives_between(*self, from, to, k as int);
                }
                e
            },
            None => {
                proof {
                    lemma_key_absent_no_between(*self, from, to);
                }
                vstd::pervasive::unreached()
            },
        }
    }
}

} // verus!
