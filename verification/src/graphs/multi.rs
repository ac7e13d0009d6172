//! The multigraph variants: unbounded parallel edges and self-loops.
//!
//! One generic core carries both adjacency encodings.  Every node slot holds
//! the node's payload together with its adjacency records: `(neighbor, edge)`
//! pairs, one pair per incidence, so a parallel edge repeats its neighbor and
//! an undirected self-loop appears twice.  The directed variant keeps a
//! second, incoming record per node as a reverse index, updated together with
//! the outgoing one on every edge mutation.  The `MAPADJ` flag selects the
//! map-flavored encoding, which differs observably only in iteration order.

use crate::arena::{count_some, lemma_wf_after_value_update, Arena, Slot};
use crate::error::GraphError;
use crate::graphs::{
    collect_edge_handles, collect_incident, collect_node_handles, degree_count, degree_scan,
    edge_handle_seq, in_multiplicity, incident_count, lemma_degree_split, lemma_edge_handle_seq,
    lemma_node_handle_seq, lemma_take_all, node_handle_seq, orient_multiplicity, self_loop_count,
    Edge, EdgeRef, Graph,
};
use crate::keys::{EdgeIdx, NodeIdx};
use vstd::prelude::*;

verus! {

broadcast use vstd::seq_lib::group_to_multiset_ensures;

/// One stored node of a multigraph: the payload plus the node's adjacency
/// records.
pub struct MultiNode<N> {
    /// the caller's payload
    pub data: N,
    /// one `(neighbor, edge)` pair per incidence; for a directed graph the
    /// outgoing incidences, for an undirected graph all of them (a self-loop
    /// appears twice)
    pub adj: Vec<(NodeIdx, EdgeIdx)>,
    /// the reverse index of a directed multigraph: one `(source, edge)` pair
    /// per incoming edge; unused (always empty) when undirected
    pub inc: Vec<(NodeIdx, EdgeIdx)>,
}

/// The common core of the multigraph variants, generic over direction and
/// over the adjacency encoding.
pub struct MultiGraphCore<N, E, const DIRECTED: bool, const MAPADJ: bool> {
    pub(crate) nodes: Arena<MultiNode<N>>,
    pub(crate) edges: Arena<Edge<E>>,
}

/// A multigraph whose adjacency records are plain appended lists.
pub type MultiListGraph<N, E, const DIRECTED: bool> = MultiGraphCore<N, E, DIRECTED, false>;

/// A multigraph whose adjacency records are keyed by neighbor.
pub type MultiMapGraph<N, E, const DIRECTED: bool> = MultiGraphCore<N, E, DIRECTED, true>;

impl<N, E, const DIRECTED: bool, const MAPADJ: bool> MultiGraphCore<N, E, DIRECTED, MAPADJ> {
    /// The handle that addresses node slot `i` right now.
    pub(crate) open spec fn owner_at(&self, i: int) -> NodeIdx {
        NodeIdx { index: i as usize, generation: self.nodes.gen_at(i) }
    }

    /// The outgoing adjacency record stored in node slot `i`.
    pub(crate) open spec fn rec_at(&self, i: int) -> Seq<(NodeIdx, EdgeIdx)> {
        self.nodes.value_at(i).adj@
    }

    /// The incoming record stored in node slot `i`.
    pub(crate) open spec fn inc_at(&self, i: int) -> Seq<(NodeIdx, EdgeIdx)> {
        self.nodes.value_at(i).inc@
    }

    /// The multiplicity that the record of node `n` owes the pair `(m, e)`.
    pub(crate) open spec fn out_owed(&self, n: NodeIdx, m: NodeIdx, e: EdgeIdx) -> nat {
        orient_multiplicity(
            DIRECTED,
            self.edges.is_live(e.index as int, e.generation),
            self.edges.value_at(e.index as int).src,
            self.edges.value_at(e.index as int).dst,
            n,
            m,
        )
    }

    /// The multiplicity that the reverse index of node `n` owes `(m, e)`.
    pub(crate) open spec fn in_owed(&self, n: NodeIdx, m: NodeIdx, e: EdgeIdx) -> nat {
        in_multiplicity(
            self.edges.is_live(e.index as int, e.generation),
            self.edges.value_at(e.index as int).src,
            self.edges.value_at(e.index as int).dst,
            n,
            m,
        )
    }

    /// Whether the records in node slot `i` hold exactly what the live edges
    /// require.
    pub(crate) open spec fn rec_ok_at(&self, i: int) -> bool {
        let n = self.owner_at(i);
        &&& forall|m: NodeIdx, e: EdgeIdx|
            #[trigger] self.rec_at(i).to_multiset().count((m, e)) == self.out_owed(n, m, e)
        &&& if DIRECTED {
            forall|m: NodeIdx, e: EdgeIdx|
                #[trigger] self.inc_at(i).to_multiset().count((m, e)) == self.in_owed(n, m, e)
        } else {
            self.inc_at(i).len() == 0
        }
    }

    /// Every live edge joins two live nodes.
    pub(crate) open spec fn edges_ok(&self) -> bool {
        forall|j: int|
            0 <= j < self.edges.slot_count() && (#[trigger] self.edges.slots_spec()[j]).value
                is Some ==> {
                let ed = self.edges.slots_spec()[j].value.unwrap();
                &&& self.nodes.is_live(ed.src.index as int, ed.src.generation)
                &&& self.nodes.is_live(ed.dst.index as int, ed.dst.generation)
            }
    }

    /// The whole structural invariant of a multigraph.
    pub(crate) open spec fn inv(&self) -> bool {
        &&& self.nodes.wf()
        &&& self.edges.wf()
        &&& 2 * count_some(self.edges.slots_spec()) <= usize::MAX
        &&& self.edges_ok()
        &&& forall|i: int|
            0 <= i < self.nodes.slot_count() && (#[trigger] self.nodes.slots_spec()[i]).value
                is Some ==> self.rec_ok_at(i)
    }
}

/// Finds the position of the first record entry whose neighbor is `m`.
fn mfind_by_neighbor(rec: &Vec<(NodeIdx, EdgeIdx)>, m: NodeIdx) -> (r: Option<usize>)
    ensures
        match r {
            Some(k) => k < rec@.len() && rec@[k as int].0 == m,
            None => forall|k: int| 0 <= k < rec@.len() ==> (#[trigger] rec@[k]).0 != m,
        },
{
    let n = rec.len();
    let mut k: usize = 0;
    while k < n
        invariant
            n == rec@.len(),
            k <= n,
            forall|j: int| 0 <= j < k ==> (#[trigger] rec@[j]).0 != m,
        decreases n - k,
    {
        let p = rec[k];
        if p.0 == m {
            return Some(k);
        }
        k = k + 1;
    }
    None
}

/// Finds the position of a record entry naming the edge `e`.
fn mfind_by_edge(rec: &Vec<(NodeIdx, EdgeIdx)>, e: EdgeIdx) -> (r: Option<usize>)
    ensures
        match r {
            Some(k) => k < rec@.len() && rec@[k as int].1 == e,
            None => forall|k: int| 0 <= k < rec@.len() ==> (#[trigger] rec@[k]).1 != e,
        },
{
    let n = rec.len();
    let mut k: usize = 0;
    while k < n
        invariant
            n == rec@.len(),
            k <= n,
            forall|j: int| 0 <= j < k ==> (#[trigger] rec@[j]).1 != e,
        decreases n - k,
    {
        let p = rec[k];
        if p.1 == e {
            return Some(k);
        }
        k = k + 1;
    }
    None
}

/// Replacing only the payload of one live node preserves the multigraph
/// invariant: nothing in it depends on node payloads.
proof fn lemma_m_node_payload_update<N, E, const DIRECTED: bool, const MAPADJ: bool>(
    g1: MultiGraphCore<N, E, DIRECTED, MAPADJ>,
    g2: MultiGraphCore<N, E, DIRECTED, MAPADJ>,
    i: int,
)
    requires
        g1.inv(),
        0 <= i < g1.nodes.slot_count(),
        g1.nodes.slots_spec()[i].value is Some,
        g2.edges == g1.edges,
        g2.nodes.free_list@ == g1.nodes.free_list@,
        g2.nodes.live == g1.nodes.live,
        g2.nodes.slots_spec().len() == g1.nodes.slots_spec().len(),
        forall|j: int|
            0 <= j < g1.nodes.slots_spec().len() && j != i ==> g2.nodes.slots_spec()[j]
                == g1.nodes.slots_spec()[j],
        g2.nodes.slots_spec()[i].generation == g1.nodes.slots_spec()[i].generation,
        g2.nodes.slots_spec()[i].value is Some,
        g2.nodes.slots_spec()[i].value.unwrap().adj@ == g1.nodes.slots_spec()[i].value.unwrap().adj@,
        g2.nodes.slots_spec()[i].value.unwrap().inc@ == g1.nodes.slots_spec()[i].value.unwrap().inc@,
    ensures
        g2.inv(),
        forall|m: NodeIdx|
            #[trigger] g2.nodes.is_live(m.index as int, m.generation) == g1.nodes.is_live(
                m.index as int,
                m.generation,
            ),
{
    assert(g2.nodes.slots_spec() =~= g1.nodes.slots_spec().update(
        i,
        Slot {
            generation: g1.nodes.slots_spec()[i].generation,
            value: Some(g2.nodes.slots_spec()[i].value.unwrap()),
        },
    ));
    lemma_wf_after_value_update(
        g1.nodes,
        g2.nodes,
        i,
        g2.nodes.slots_spec()[i].value.unwrap(),
    );
    assert forall|i2: int|
        0 <= i2 < g2.nodes.slot_count() && (#[trigger] g2.nodes.slots_spec()[i2]).value
            is Some implies g2.rec_ok_at(i2) by {
        assert(g1.rec_ok_at(i2));
        assert(g2.owner_at(i2) == g1.owner_at(i2));
        assert(g2.rec_at(i2) == g1.rec_at(i2));
        assert(g2.inc_at(i2) == g1.inc_at(i2));
        assert forall|m: NodeIdx, e: EdgeIdx|
            #[trigger] g2.rec_at(i2).to_multiset().count((m, e)) == g2.out_owed(
                g2.owner_at(i2),
                m,
                e,
            ) by {
            assert(g1.rec_at(i2).to_multiset().count((m, e)) == g1.out_owed(
                g1.owner_at(i2),
                m,
                e,
            ));
        }
        if DIRECTED {
            assert forall|m: NodeIdx, e: EdgeIdx|
                #[trigger] g2.inc_at(i2).to_multiset().count((m, e)) == g2.in_owed(
                    g2.owner_at(i2),
                    m,
                    e,
                ) by {
                assert(g1.inc_at(i2).to_multiset().count((m, e)) == g1.in_owed(
                    g1.owner_at(i2),
                    m,
                    e,
                ));
            }
        }
    }
}

/// Replacing only the payload of one live edge preserves the multigraph
/// invariant: nothing in it depends on edge payloads.
proof fn lemma_m_edge_payload_update<N, E, const DIRECTED: bool, const MAPADJ: bool>(
    g1: MultiGraphCore<N, E, DIRECTED, MAPADJ>,
    g2: MultiGraphCore<N, E, DIRECTED, MAPADJ>,
    i: int,
)
    requires
        g1.inv(),
        0 <= i < g1.edges.slot_count(),
        g1.edges.slots_spec()[i].value is Some,
        g2.nodes == g1.nodes,
        g2.edges.free_list@ == g1.edges.free_list@,
        g2.edges.live == g1.edges.live,
        g2.edges.slots_spec().len() == g1.edges.slots_spec().len(),
        forall|j: int|
            0 <= j < g1.edges.slots_spec().len() && j != i ==> g2.edges.slots_spec()[j]
                == g1.edges.slots_spec()[j],
        g2.edges.slots_spec()[i].generation == g1.edges.slots_spec()[i].generation,
        g2.edges.slots_spec()[i].value is Some,
        g2.edges.slots_spec()[i].value.unwrap().src == g1.edges.slots_spec()[i].value.unwrap().src,
        g2.edges.slots_spec()[i].value.unwrap().dst == g1.edges.slots_spec()[i].value.unwrap().dst,
    ensures
        g2.inv(),
        forall|e: EdgeIdx|
            #[trigger] g2.edges.is_live(e.index as int, e.generation) == g1.edges.is_live(
                e.index as int,
                e.generation,
            ),
{
    assert(g2.edges.slots_spec() =~= g1.edges.slots_spec().update(
        i,
        Slot {
            generation: g1.edges.slots_spec()[i].generation,
            value: Some(g2.edges.slots_spec()[i].value.unwrap()),
        },
    ));
    lemma_wf_after_value_update(
        g1.edges,
        g2.edges,
        i,
        g2.edges.slots_spec()[i].value.unwrap(),
    );
    assert forall|i2: int|
        0 <= i2 < g2.nodes.slot_count() && (#[trigger] g2.nodes.slots_spec()[i2]).value
            is Some implies g2.rec_ok_at(i2) by {
        assert(g1.rec_ok_at(i2));
        assert forall|m: NodeIdx, e: EdgeIdx|
            #[trigger] g2.rec_at(i2).to_multiset().count((m, e)) == g2.out_owed(
                g2.owner_at(i2),
                m,
                e,
            ) by {
            assert(g1.rec_at(i2).to_multiset().count((m, e)) == g1.out_owed(
                g1.owner_at(i2),
                m,
                e,
            ));
            if e.index as int == i {
                assert(g2.edges.value_at(i).src == g1.edges.value_at(i).src);
                assert(g2.edges.value_at(i).dst == g1.edges.value_at(i).dst);
            } else {
                if 0 <= e.index as int && (e.index as int) < g1.edges.slot_count() {
                    assert(g2.edges.slots_spec()[e.index as int]
                        == g1.edges.slots_spec()[e.index as int]);
                }
            }
        }
        if DIRECTED {
            assert forall|m: NodeIdx, e: EdgeIdx|
                #[trigger] g2.inc_at(i2).to_multiset().count((m, e)) == g2.in_owed(
                    g2.owner_at(i2),
                    m,
                    e,
                ) by {
                assert(g1.inc_at(i2).to_multiset().count((m, e)) == g1.in_owed(
                    g1.owner_at(i2),
                    m,
                    e,
                ));
                if e.index as int == i {
                    assert(g2.edges.value_at(i).src == g1.edges.value_at(i).src);
                    assert(g2.edges.value_at(i).dst == g1.edges.value_at(i).dst);
                } else {
                    if 0 <= e.index as int && (e.index as int) < g1.edges.slot_count() {
                        assert(g2.edges.slots_spec()[e.index as int]
                            == g1.edges.slots_spec()[e.index as int]);
                    }
                }
            }
        }
    }
    assert forall|n2: NodeIdx| #[trigger] crate::graphs::degree_count(g2.edges.slots_spec(), n2)
        == crate::graphs::degree_count(g1.edges.slots_spec(), n2) by {
        crate::graphs::lemma_degree_count_equal(g1.edges.slots_spec(), g2.edges.slots_spec(), n2);
    }
}

impl<N, E, const DIRECTED: bool, const MAPADJ: bool> Graph<N, E> for MultiGraphCore<
    N,
    E,
    DIRECTED,
    MAPADJ,
> {
    open spec fn directed_spec() -> bool {
        DIRECTED
    }

    open spec fn multigraph_spec() -> bool {
        true
    }

    open spec fn adj_prepends_spec() -> bool {
        false
    }

    closed spec fn wf(&self) -> bool {
        self.inv()
    }

    closed spec fn has_node_spec(&self, n: NodeIdx) -> bool {
        self.nodes.is_live(n.index as int, n.generation)
    }

    closed spec fn node_value_spec(&self, n: NodeIdx) -> N {
        self.nodes.value_at(n.index as int).data
    }

    closed spec fn node_count_spec(&self) -> nat {
        self.nodes.live_count()
    }

    closed spec fn node_slot_count(&self) -> nat {
        self.nodes.slot_count()
    }

    closed spec fn node_gen_spec(&self, i: int) -> u64 {
        self.nodes.gen_at(i)
    }

    closed spec fn has_edge_spec(&self, e: EdgeIdx) -> bool {
        self.edges.is_live(e.index as int, e.generation)
    }

    closed spec fn edge_src_spec(&self, e: EdgeIdx) -> NodeIdx {
        self.edges.value_at(e.index as int).src
    }

    closed spec fn edge_dst_spec(&self, e: EdgeIdx) -> NodeIdx {
        self.edges.value_at(e.index as int).dst
    }

    closed spec fn edge_value_spec(&self, e: EdgeIdx) -> E {
        self.edges.value_at(e.index as int).data
    }

    closed spec fn edge_count_spec(&self) -> nat {
        self.edges.live_count()
    }

    closed spec fn edge_slot_count(&self) -> nat {
        self.edges.slot_count()
    }

    closed spec fn edge_gen_spec(&self, i: int) -> u64 {
        self.edges.gen_at(i)
    }

    closed spec fn degree_spec(&self, n: NodeIdx) -> nat {
        degree_count(self.edges.slots_spec(), n)
    }

    closed spec fn incident_spec(&self, n: NodeIdx) -> nat {
        incident_count(self.edges.slots_spec(), n)
    }

    closed spec fn self_loop_spec(&self, n: NodeIdx) -> nat {
        self_loop_count(self.edges.slots_spec(), n)
    }

    closed spec fn adj_seq(&self, n: NodeIdx) -> Seq<(NodeIdx, EdgeIdx)> {
        self.rec_at(n.index as int)
    }

    closed spec fn nodes_seq(&self) -> Seq<NodeIdx> {
        node_handle_seq(self.nodes.slots_spec())
    }

    closed spec fn edges_seq(&self) -> Seq<EdgeIdx> {
        edge_handle_seq(self.edges.slots_spec())
    }

    proof fn lemma_node_handle(&self, n: NodeIdx) {
    }

    proof fn lemma_edge_handle(&self, e: EdgeIdx) {
        assert(self.edges.slots_spec()[e.index as int].value is Some);
    }

    proof fn lemma_adj_entry(&self, n: NodeIdx, k: int) {
        let i = n.index as int;
        assert(self.nodes.slots_spec()[i].value is Some);
        assert(self.rec_ok_at(i));
        assert(self.owner_at(i) == n);
        let rec = self.rec_at(i);
        let p = rec[k];
        assert(rec.contains(p));
        assert(rec.to_multiset().count((p.0, p.1)) > 0) by {
            assert(rec.to_multiset().count(p) > 0);
        }
        assert(self.out_owed(n, p.0, p.1) > 0);
        assert(self.edges.slots_spec()[p.1.index as int].value is Some);
    }

    proof fn lemma_adj_count(&self, n: NodeIdx, m: NodeIdx, e: EdgeIdx) {
        let i = n.index as int;
        assert(self.nodes.slots_spec()[i].value is Some);
        assert(self.rec_ok_at(i));
        assert(self.owner_at(i) == n);
    }

    proof fn lemma_degree_decomposition(&self, n: NodeIdx) {
        lemma_degree_split(self.edges.slots_spec(), n);
    }

    proof fn lemma_simple_pair_unique(&self, e1: EdgeIdx, e2: EdgeIdx) {
    }

    proof fn lemma_count_cardinalities(&self, n: NodeIdx, inc: Set<EdgeIdx>, loops: Set<EdgeIdx>) {
        crate::graphs::lemma_counts_are_cardinalities(self.edges.slots_spec(), n);
        assert(inc =~= crate::graphs::incident_handles(self.edges.slots_spec(), n));
        assert(loops =~= crate::graphs::self_loop_handles(self.edges.slots_spec(), n));
    }

    fn new() -> (r: Self) {
        MultiGraphCore { nodes: Arena::new(), edges: Arena::new() }
    }

    fn is_directed(&self) -> (r: bool) {
        DIRECTED
    }

    fn is_multigraph(&self) -> (r: bool) {
        true
    }

    fn node_count(&self) -> (r: usize) {
        self.nodes.len()
    }

    fn edge_count(&self) -> (r: usize) {
        self.edges.len()
    }

    fn has_node(&self, n: NodeIdx) -> (r: bool) {
        self.nodes.contains(n.index, n.generation)
    }

    fn get_node(&self, n: NodeIdx) -> (r: Option<&N>) {
        match self.nodes.get(n.index, n.generation) {
            Some(nd) => Some(&nd.data),
            None => None,
        }
    }

    fn get_edge(&self, e: EdgeIdx) -> (r: Option<EdgeRef<'_, E>>) {
        match self.edges.get(e.index, e.generation) {
            Some(ed) => Some(EdgeRef { src: ed.src, dst: ed.dst, data: &ed.data }),
            None => None,
        }
    }

    fn degree(&self, n: NodeIdx) -> (r: usize) {
        degree_scan(&self.edges, n)
    }

    fn nodes(&self) -> (r: Vec<NodeIdx>) {
        let len = self.nodes.slots_len();
        proof {
            lemma_node_handle_seq(self.nodes.slots_spec());
        }
        let r = collect_node_handles(&self.nodes);
        proof {
            assert forall|n2: NodeIdx| self.has_node_spec(n2) implies r@.contains(n2) by {
                assert(r@.contains(
                    NodeIdx { index: n2.index as int as usize, generation: n2.generation },
                ));
            }
        }
        r
    }

    fn edges(&self) -> (r: Vec<EdgeIdx>) {
        let len = self.edges.slots_len();
        proof {
            lemma_edge_handle_seq(self.edges.slots_spec());
        }
        let r = collect_edge_handles(&self.edges);
        proof {
            assert forall|e2: EdgeIdx| self.has_edge_spec(e2) implies r@.contains(e2) by {
                assert(r@.contains(
                    EdgeIdx { index: e2.index as int as usize, generation: e2.generation },
                ));
            }
        }
        r
    }

    fn edges_of(&self, n: NodeIdx) -> (r: Vec<(NodeIdx, EdgeIdx)>) {
        let nd = match self.nodes.get(n.index, n.generation) {
            Some(nd) => nd,
            None => vstd::pervasive::unreached(),
        };
        let len = nd.adj.len();
        let mut r: Vec<(NodeIdx, EdgeIdx)> = Vec::new();
        let mut k: usize = 0;
        while k < len
            invariant
                len == nd.adj@.len(),
                k <= len,
                r@ == nd.adj@.take(k as int),
            decreases len - k,
        {
            let p = nd.adj[k];
            r.push(p);
            proof {
                assert(nd.adj@.take(k + 1) =~= nd.adj@.take(k as int).push(nd.adj@[k as int]));
            }
            k = k + 1;
        }
        proof {
            lemma_take_all(nd.adj@);
        }
        r
    }

    fn contains_edge_between(&self, src: NodeIdx, dst: NodeIdx) -> (r: bool) {
        let nd = match self.nodes.get(src.index, src.generation) {
            Some(nd) => nd,
            None => vstd::pervasive::unreached(),
        };
        let found = mfind_by_neighbor(&nd.adj, dst);
        proof {
            let i = src.index as int;
            assert(self.rec_ok_at(i));
            assert(self.owner_at(i) == src);
            let rec = self.rec_at(i);
            match found {
                Some(k) => {
                    let p = rec[k as int];
                    assert(rec.contains(p));
                    assert(rec.to_multiset().count((p.0, p.1)) > 0) by {
                        assert(rec.to_multiset().count(p) > 0);
                    }
                    assert(self.out_owed(src, dst, p.1) > 0);
                    assert(self.has_edge_spec(p.1) && crate::graphs::connects_flag(
                        DIRECTED,
                        self.edge_src_spec(p.1),
                        self.edge_dst_spec(p.1),
                        src,
                        dst,
                    ));
                },
                None => {
                    assert forall|ei: EdgeIdx|
                        !(#[trigger] self.has_edge_spec(ei) && crate::graphs::connects_flag(
                            DIRECTED,
                            self.edge_src_spec(ei),
                            self.edge_dst_spec(ei),
                            src,
                            dst,
                        )) by {
                        if self.has_edge_spec(ei) && crate::graphs::connects_flag(
                            DIRECTED,
                            self.edge_src_spec(ei),
                            self.edge_dst_spec(ei),
                            src,
                            dst,
                        ) {
                            assert(self.out_owed(src, dst, ei) > 0);
                            assert(rec.to_multiset().count((dst, ei)) > 0);
                            assert(rec.contains((dst, ei)));
                            let k = choose|k: int| 0 <= k < rec.len() && rec[k] == (dst, ei);
                            assert(rec[k].0 == dst);
                            assert(false);
                        }
                    }
                },
            }
        }
        match found {
            Some(_) => true,
            None => false,
        }
    }

    fn edges_between(&self, src: NodeIdx, dst: NodeIdx) -> (r: Vec<EdgeIdx>) {
        let nd = match self.nodes.get(src.index, src.generation) {
            Some(nd) => nd,
            None => vstd::pervasive::unreached(),
        };
        proof {
            assert(self.rec_ok_at(src.index as int));
            assert(self.owner_at(src.index as int) == src);
        }
        let ghost rec = self.rec_at(src.index as int);
        let len = nd.adj.len();
        let mut r: Vec<EdgeIdx> = Vec::new();
        let mut k: usize = 0;
        while k < len
            invariant
                len == nd.adj@.len(),
                rec == nd.adj@,
                k <= len,
                forall|x: EdgeIdx|
                    #[trigger] r@.to_multiset().count(x) == rec.take(k as int).to_multiset().count(
                        (dst, x),
                    ),
            decreases len - k,
        {
            let p = nd.adj[k];
            let ghost old_r = r@;
            if p.0 == dst {
                r.push(p.1);
            }
            proof {
                assert(rec.take(k + 1) =~= rec.take(k as int).push(rec[k as int]));
                assert forall|x: EdgeIdx|
                    #[trigger] r@.to_multiset().count(x) == rec.take(k + 1).to_multiset().count(
                        (dst, x),
                    ) by {
                    assert(rec.take(k + 1).to_multiset() =~= rec.take(
                        k as int,
                    ).to_multiset().insert(rec[k as int]));
                    if p.0 == dst {
                        assert(r@ =~= old_r.push(p.1));
                        assert(r@.to_multiset() =~= old_r.to_multiset().insert(p.1));
                    }
                }
            }
            k = k + 1;
        }
        proof {
            lemma_take_all(rec);
            assert forall|x: EdgeIdx|
                #[trigger] r@.to_multiset().count(x) == orient_multiplicity(
                    DIRECTED,
                    self.has_edge_spec(x),
                    self.edge_src_spec(x),
                    self.edge_dst_spec(x),
                    src,
                    dst,
                ) by {
                assert(rec.to_multiset().count((dst, x)) == self.out_owed(src, dst, x));
            }
        }
        r
    }

    fn add_node(&mut self, value: N) -> (r: NodeIdx) {
        let (i, g) = self.nodes.insert(
            MultiNode { data: value, adj: Vec::new(), inc: Vec::new() },
        );
        let r = NodeIdx { index: i, generation: g };
        proof {
            let g0 = *old(self);
            let g1 = *self;
            let ii = i as int;
            assert(g1.edges == g0.edges);
            assert(g1.rec_at(ii) =~= Seq::<(NodeIdx, EdgeIdx)>::empty());
            assert(g1.inc_at(ii) =~= Seq::<(NodeIdx, EdgeIdx)>::empty());
            assert forall|i2: int|
                0 <= i2 < g1.nodes.slot_count() && (#[trigger] g1.nodes.slots_spec()[i2]).value
                    is Some implies g1.rec_ok_at(i2) by {
                if i2 == ii {
                    assert forall|m: NodeIdx, e: EdgeIdx|
                        #[trigger] g1.rec_at(i2).to_multiset().count((m, e)) == g1.out_owed(
                            g1.owner_at(i2),
                            m,
                            e,
                        ) by {
                        assert(g1.rec_at(i2).to_multiset().count((m, e)) == 0) by {
                            if g1.rec_at(i2).to_multiset().count((m, e)) > 0 {
                                assert(g1.rec_at(i2).contains((m, e)));
                            }
                        }
                        if g1.edges.is_live(e.index as int, e.generation) {
                            let j = e.index as int;
                            assert(g0.edges.slots_spec()[j].value is Some);
                            let ed = g0.edges.slots_spec()[j].value.unwrap();
                            assert(g0.nodes.is_live(ed.src.index as int, ed.src.generation));
                            assert(g0.nodes.is_live(ed.dst.index as int, ed.dst.generation));
                            assert(g1.owner_at(i2) == r);
                            assert(ed.src != r && ed.dst != r);
                        }
                    }
                    if DIRECTED {
                        assert forall|m: NodeIdx, e: EdgeIdx|
                            #[trigger] g1.inc_at(i2).to_multiset().count((m, e)) == g1.in_owed(
                                g1.owner_at(i2),
                                m,
                                e,
                            ) by {
                            assert(g1.inc_at(i2).to_multiset().count((m, e)) == 0) by {
                                if g1.inc_at(i2).to_multiset().count((m, e)) > 0 {
                                    assert(g1.inc_at(i2).contains((m, e)));
                                }
                            }
                            if g1.edges.is_live(e.index as int, e.generation) {
                                let j = e.index as int;
                                assert(g0.edges.slots_spec()[j].value is Some);
                                let ed = g0.edges.slots_spec()[j].value.unwrap();
                                assert(g0.nodes.is_live(ed.dst.index as int, ed.dst.generation));
                                assert(g1.owner_at(i2) == r);
                                assert(ed.dst != r);
                            }
                        }
                    }
                } else {
                    assert(g1.nodes.slots_spec()[i2] == g0.nodes.slots_spec()[i2]);
                    assert(g0.rec_ok_at(i2));
                    assert(g1.owner_at(i2) == g0.owner_at(i2));
                    assert forall|m: NodeIdx, e: EdgeIdx|
                        #[trigger] g1.rec_at(i2).to_multiset().count((m, e)) == g1.out_owed(
                            g1.owner_at(i2),
                            m,
                            e,
                        ) by {
                        assert(g0.rec_at(i2).to_multiset().count((m, e)) == g0.out_owed(
                            g0.owner_at(i2),
                            m,
                            e,
                        ));
                    }
                    if DIRECTED {
                        assert forall|m: NodeIdx, e: EdgeIdx|
                            #[trigger] g1.inc_at(i2).to_multiset().count((m, e)) == g1.in_owed(
                                g1.owner_at(i2),
                                m,
                                e,
                            ) by {
                            assert(g0.inc_at(i2).to_multiset().count((m, e)) == g0.in_owed(
                                g0.owner_at(i2),
                                m,
                                e,
                            ));
                        }
                    }
                }
            }
            assert forall|j: int|
                0 <= j < g1.edges.slot_count() && (#[trigger] g1.edges.slots_spec()[j]).value
                    is Some implies ({
                let ed = g1.edges.slots_spec()[j].value.unwrap();
                &&& g1.nodes.is_live(ed.src.index as int, ed.src.generation)
                &&& g1.nodes.is_live(ed.dst.index as int, ed.dst.generation)
            }) by {
                assert(g0.edges.slots_spec()[j].value is Some);
                let ed = g0.edges.slots_spec()[j].value.unwrap();
                assert(g0.nodes.is_live(ed.src.index as int, ed.src.generation));
                assert(g0.nodes.is_live(ed.dst.index as int, ed.dst.generation));
                assert(ed.src != r && ed.dst != r);
            }
        }
        r
    }

    #[verifier::rlimit(100)]
    fn get_node_mut(&mut self, n: NodeIdx) -> (r: Option<&mut N>) {
        let present = self.nodes.contains(n.index, n.generation);
        if !present {
            return None;
        }
        proof {
            let i = n.index as int;
            assert forall|g2: Self|
                ({
                    &&& g2.edges == old(self).edges
                    &&& g2.nodes.free_list@ == old(self).nodes.free_list@
                    &&& g2.nodes.live == old(self).nodes.live
                    &&& g2.nodes.slots_spec().len() == old(self).nodes.slots_spec().len()
                    &&& (forall|j: int|
                        0 <= j < old(self).nodes.slots_spec().len() && j != i
                            ==> g2.nodes.slots_spec()[j] == old(self).nodes.slots_spec()[j])
                    &&& g2.nodes.slots_spec()[i].generation == n.generation
                    &&& g2.nodes.slots_spec()[i].value is Some
                    &&& g2.nodes.slots_spec()[i].value.unwrap().adj@.len() == old(
                        self,
                    ).nodes.slots_spec()[i].value.unwrap().adj@.len()
                    &&& (forall|k2: int|
                        0 <= k2 < old(self).nodes.slots_spec()[i].value.unwrap().adj@.len()
                            ==> #[trigger] g2.nodes.slots_spec()[i].value.unwrap().adj@[k2]
                            == old(self).nodes.slots_spec()[i].value.unwrap().adj@[k2])
                    &&& g2.nodes.slots_spec()[i].value.unwrap().inc@.len() == old(
                        self,
                    ).nodes.slots_spec()[i].value.unwrap().inc@.len()
                    &&& (forall|k2: int|
                        0 <= k2 < old(self).nodes.slots_spec()[i].value.unwrap().inc@.len()
                            ==> #[trigger] g2.nodes.slots_spec()[i].value.unwrap().inc@[k2]
                            == old(self).nodes.slots_spec()[i].value.unwrap().inc@[k2])
                }) implies ({
                &&& #[trigger] g2.wf()
                &&& g2.node_count_spec() == old(self).node_count_spec()
                &&& (forall|m: NodeIdx|
                    #[trigger] g2.has_node_spec(m) == old(self).has_node_spec(m))
                &&& (forall|m: NodeIdx|
                    m != n && old(self).has_node_spec(m) ==> #[trigger] g2.node_value_spec(m)
                        == old(self).node_value_spec(m))
                &&& (forall|m: NodeIdx|
                    old(self).has_node_spec(m) ==> #[trigger] g2.adj_seq(m) =~= old(
                        self,
                    ).adj_seq(m))
                &&& (forall|e2: EdgeIdx|
                    #[trigger] g2.has_edge_spec(e2) == old(self).has_edge_spec(e2))
                &&& (forall|e2: EdgeIdx|
                    old(self).has_edge_spec(e2) ==> #[trigger] g2.edge_src_spec(e2) == old(
                        self,
                    ).edge_src_spec(e2) && g2.edge_dst_spec(e2) == old(self).edge_dst_spec(e2)
                        && g2.edge_value_spec(e2) == old(self).edge_value_spec(e2))
                &&& g2.edge_count_spec() == old(self).edge_count_spec()
                &&& g2.node_slot_count() == old(self).node_slot_count()
                &&& (forall|i2: int|
                    0 <= i2 < old(self).node_slot_count() ==> #[trigger] g2.node_gen_spec(i2)
                        == old(self).node_gen_spec(i2))
                &&& g2.edge_slot_count() == old(self).edge_slot_count()
                &&& (forall|i2: int|
                    0 <= i2 < old(self).edge_slot_count() ==> #[trigger] g2.edge_gen_spec(i2)
                        == old(self).edge_gen_spec(i2))
                &&& g2.node_value_spec(n) == g2.nodes.slots_spec()[i].value.unwrap().data
            }) by {
                assert(g2.nodes.slots_spec()[i].value.unwrap().adj@ =~= old(
                    self,
                ).nodes.slots_spec()[i].value.unwrap().adj@);
                assert(g2.nodes.slots_spec()[i].value.unwrap().inc@ =~= old(
                    self,
                ).nodes.slots_spec()[i].value.unwrap().inc@);
                lemma_m_node_payload_update(*old(self), g2, i);
                assert forall|i2: int|
                    0 <= i2 < old(self).node_slot_count() implies #[trigger] g2.node_gen_spec(i2)
                        == old(self).node_gen_spec(i2) by {
                    if i2 != i {
                        assert(g2.nodes.slots_spec()[i2] == old(self).nodes.slots_spec()[i2]);
                    } else {
                        assert(old(self).nodes.gen_at(i) == n.generation);
                    }
                }
                assert forall|m: NodeIdx|
                    m != n && old(self).has_node_spec(m) implies #[trigger] g2.node_value_spec(m)
                        == old(self).node_value_spec(m) by {
                    assert(m.index as int != i) by {
                        if m.index as int == i {
                            assert(m.generation == old(self).nodes.gen_at(i));
                            assert(n.generation == old(self).nodes.gen_at(i));
                        }
                    }
                    assert(g2.nodes.slots_spec()[m.index as int] == old(
                        self,
                    ).nodes.slots_spec()[m.index as int]);
                }
                assert forall|m: NodeIdx|
                    old(self).has_node_spec(m) implies #[trigger] g2.adj_seq(m) =~= old(
                        self,
                    ).adj_seq(m) by {
                    if m.index as int == i {
                        assert(g2.rec_at(i) =~= old(self).rec_at(i));
                    } else {
                        assert(g2.nodes.slots_spec()[m.index as int] == old(
                            self,
                        ).nodes.slots_spec()[m.index as int]);
                    }
                }
                assert(g2.node_count_spec() == old(self).node_count_spec()) by {
                    assert(g2.nodes.live == count_some(g2.nodes.slots_spec()));
                }
            }
        }
        match self.nodes.get_mut(n.index, n.generation) {
            Some(nd) => Some(&mut nd.data),
            None => {
                proof {
                    assert(false);
                }
                None
            },
        }
    }

    #[verifier::rlimit(100)]
    fn get_edge_mut(&mut self, e: EdgeIdx) -> (r: Option<&mut E>) {
        let present = self.edges.contains(e.index, e.generation);
        if !present {
            return None;
        }
        proof {
            let i = e.index as int;
            assert forall|g2: Self|
                ({
                    &&& g2.nodes == old(self).nodes
                    &&& g2.edges.free_list@ == old(self).edges.free_list@
                    &&& g2.edges.live == old(self).edges.live
                    &&& g2.edges.slots_spec().len() == old(self).edges.slots_spec().len()
                    &&& (forall|j: int|
                        0 <= j < old(self).edges.slots_spec().len() && j != i
                            ==> g2.edges.slots_spec()[j] == old(self).edges.slots_spec()[j])
                    &&& g2.edges.slots_spec()[i].generation == e.generation
                    &&& g2.edges.slots_spec()[i].value is Some
                    &&& g2.edges.slots_spec()[i].value.unwrap().src == old(
                        self,
                    ).edges.slots_spec()[i].value.unwrap().src
                    &&& g2.edges.slots_spec()[i].value.unwrap().dst == old(
                        self,
                    ).edges.slots_spec()[i].value.unwrap().dst
                }) implies ({
                &&& #[trigger] g2.wf()
                &&& g2.edge_count_spec() == old(self).edge_count_spec()
                &&& (forall|e2: EdgeIdx|
                    #[trigger] g2.has_edge_spec(e2) == old(self).has_edge_spec(e2))
                &&& (forall|e2: EdgeIdx|
                    old(self).has_edge_spec(e2) ==> #[trigger] g2.edge_src_spec(e2) == old(
                        self,
                    ).edge_src_spec(e2) && g2.edge_dst_spec(e2) == old(self).edge_dst_spec(e2))
                &&& (forall|e2: EdgeIdx|
                    e2 != e && old(self).has_edge_spec(e2) ==> #[trigger] g2.edge_value_spec(e2)
                        == old(self).edge_value_spec(e2))
                &&& (forall|m: NodeIdx|
                    #[trigger] g2.has_node_spec(m) == old(self).has_node_spec(m))
                &&& (forall|m: NodeIdx|
                    old(self).has_node_spec(m) ==> #[trigger] g2.node_value_spec(m) == old(
                        self,
                    ).node_value_spec(m))
                &&& (forall|m: NodeIdx|
                    old(self).has_node_spec(m) ==> #[trigger] g2.adj_seq(m) == old(self).adj_seq(
                        m,
                    ))
                &&& g2.node_count_spec() == old(self).node_count_spec()
                &&& g2.node_slot_count() == old(self).node_slot_count()
                &&& (forall|i2: int|
                    0 <= i2 < old(self).node_slot_count() ==> #[trigger] g2.node_gen_spec(i2)
                        == old(self).node_gen_spec(i2))
                &&& g2.edge_slot_count() == old(self).edge_slot_count()
                &&& (forall|i2: int|
                    0 <= i2 < old(self).edge_slot_count() ==> #[trigger] g2.edge_gen_spec(i2)
                        == old(self).edge_gen_spec(i2))
                &&& g2.edge_value_spec(e) == g2.edges.slots_spec()[i].value.unwrap().data
            }) by {
                lemma_m_edge_payload_update(*old(self), g2, i);
                assert forall|i2: int|
                    0 <= i2 < old(self).edge_slot_count() implies #[trigger] g2.edge_gen_spec(i2)
                        == old(self).edge_gen_spec(i2) by {
                    if i2 != i {
                        assert(g2.edges.slots_spec()[i2] == old(self).edges.slots_spec()[i2]);
                    } else {
                        assert(old(self).edges.gen_at(i) == e.generation);
                    }
                }
                assert forall|e2: EdgeIdx|
                    old(self).has_edge_spec(e2) implies #[trigger] g2.edge_src_spec(e2) == old(
                        self,
                    ).edge_src_spec(e2) && g2.edge_dst_spec(e2) == old(self).edge_dst_spec(
                        e2,
                    ) by {
                    if e2.index as int != i {
                        assert(g2.edges.slots_spec()[e2.index as int] == old(
                            self,
                        ).edges.slots_spec()[e2.index as int]);
                    }
                }
                assert forall|e2: EdgeIdx|
                    e2 != e && old(self).has_edge_spec(e2) implies #[trigger] g2.edge_value_spec(
                        e2,
                    ) == old(self).edge_value_spec(e2) by {
                    assert(e2.index as int != i) by {
                        if e2.index as int == i {
                            assert(e2.generation == old(self).edges.gen_at(i));
                            assert(e.generation == old(self).edges.gen_at(i));
                        }
                    }
                    assert(g2.edges.slots_spec()[e2.index as int] == old(
                        self,
                    ).edges.slots_spec()[e2.index as int]);
                }
                assert(g2.edge_count_spec() == old(self).edge_count_spec()) by {
                    assert(g2.edges.live == count_some(g2.edges.slots_spec()));
                }
            }
        }
        match self.edges.get_mut(e.index, e.generation) {
            Some(ed) => Some(&mut ed.data),
            None => {
                proof {
                    assert(false);
                }
                None
            },
        }
    }

    #[verifier::rlimit(100)]
    fn try_add_edge(&mut self, src: NodeIdx, dst: NodeIdx, value: E) -> (r: Result<
        EdgeIdx,
        GraphError,
    >) {
        if !self.nodes.contains(src.index, src.generation) {
            return Err(GraphError::NodeNotFound(src));
        }
        if !self.nodes.contains(dst.index, dst.generation) {
            return Err(GraphError::NodeNotFound(dst));
        }
        let ghost g0 = *self;
        let (ei, eg) = self.edges.insert(Edge { src, dst, data: value });
        let e = EdgeIdx { index: ei, generation: eg };
        if src.index == dst.index {
            proof {
                assert(src == dst) by {
                    assert(src.generation == g0.nodes.gen_at(src.index as int));
                    assert(dst.generation == g0.nodes.gen_at(dst.index as int));
                }
            }
            let nd = match self.nodes.get_mut(src.index, src.generation) {
                Some(nd) => nd,
                None => vstd::pervasive::unreached(),
            };
            let ghost rec0 = nd.adj@;
            let ghost inc0 = nd.inc@;
            nd.adj.push((dst, e));
            if DIRECTED {
                nd.inc.push((src, e));
            } else {
                nd.adj.push((src, e));
            }
            proof {
                assert(self.nodes.slots_spec() =~= g0.nodes.slots_spec().update(
                    src.index as int,
                    Slot {
                        generation: src.generation,
                        value: Some(self.nodes.slots_spec()[src.index as int].value.unwrap()),
                    },
                ));
                lemma_wf_after_value_update(
                    g0.nodes,
                    self.nodes,
                    src.index as int,
                    self.nodes.slots_spec()[src.index as int].value.unwrap(),
                );
                let si = src.index as int;
                assert(rec0 == g0.adj_seq(src));
                if DIRECTED {
                    assert(self.rec_at(si) =~= rec0.push((dst, e)));
                    assert(self.inc_at(si) =~= inc0.push((src, e)));
                    assert(self.rec_at(si).to_multiset() =~= rec0.to_multiset().insert((dst, e)));
                    assert(self.inc_at(si).to_multiset() =~= inc0.to_multiset().insert((src, e)));
                    assert(self.adj_seq(src) == g0.adj_seq(src).push((dst, e)));
                } else {
                    assert(self.rec_at(si) =~= rec0.push((dst, e)).push((src, e)));
                    assert(self.rec_at(si).to_multiset() =~= rec0.to_multiset().insert(
                        (dst, e),
                    ).insert((src, e)));
                    assert(self.inc_at(si) == inc0);
                    assert(self.adj_seq(src) == g0.adj_seq(src).push((dst, e)).push((src, e)));
                }
                lemma_uniform_add_counts(g0, *self, src, dst, e);
            }
        } else {
            let nd = match self.nodes.get_mut(src.index, src.generation) {
                Some(nd) => nd,
                None => vstd::pervasive::unreached(),
            };
            nd.adj.push((dst, e));
            let ghost gb = *self;
            proof {
                assert(gb.nodes.slots_spec() =~= g0.nodes.slots_spec().update(
                    src.index as int,
                    Slot {
                        generation: src.generation,
                        value: Some(gb.nodes.slots_spec()[src.index as int].value.unwrap()),
                    },
                ));
                lemma_wf_after_value_update(
                    g0.nodes,
                    gb.nodes,
                    src.index as int,
                    gb.nodes.slots_spec()[src.index as int].value.unwrap(),
                );
                assert(gb.nodes.is_live(dst.index as int, dst.generation));
            }
            let nd2 = match self.nodes.get_mut(dst.index, dst.generation) {
                Some(n2) => n2,
                None => vstd::pervasive::unreached(),
            };
            if DIRECTED {
                nd2.inc.push((src, e));
            } else {
                nd2.adj.push((src, e));
            }
            proof {
                assert(self.nodes.slots_spec() =~= gb.nodes.slots_spec().update(
                    dst.index as int,
                    Slot {
                        generation: dst.generation,
                        value: Some(self.nodes.slots_spec()[dst.index as int].value.unwrap()),
                    },
                ));
                lemma_wf_after_value_update(
                    gb.nodes,
                    self.nodes,
                    dst.index as int,
                    self.nodes.slots_spec()[dst.index as int].value.unwrap(),
                );
                let si = src.index as int;
                let di = dst.index as int;
                assert(self.rec_at(si) == gb.rec_at(si));
                assert(gb.rec_at(si) =~= g0.rec_at(si).push((dst, e)));
                assert(self.rec_at(si).to_multiset() =~= g0.rec_at(si).to_multiset().insert(
                    (dst, e),
                ));
                assert(self.inc_at(si) == gb.inc_at(si));
                assert(gb.inc_at(si) == g0.inc_at(si));
                assert(gb.rec_at(di) == g0.rec_at(di));
                assert(gb.inc_at(di) == g0.inc_at(di));
                assert(self.adj_seq(src) == g0.adj_seq(src).push((dst, e)));
                assert(self.adj_seq(src) == (if Self::adj_prepends_spec() {
                    seq![(dst, e)] + g0.adj_seq(src)
                } else {
                    g0.adj_seq(src).push((dst, e))
                }));
                if DIRECTED {
                    assert(self.rec_at(di) == gb.rec_at(di));
                    assert(self.inc_at(di) =~= g0.inc_at(di).push((src, e)));
                    assert(self.inc_at(di).to_multiset() =~= g0.inc_at(di).to_multiset().insert(
                        (src, e),
                    ));
                    assert(self.adj_seq(dst) == g0.adj_seq(dst));
                } else {
                    assert(self.rec_at(di) =~= g0.rec_at(di).push((src, e)));
                    assert(self.rec_at(di).to_multiset() =~= g0.rec_at(di).to_multiset().insert(
                        (src, e),
                    ));
                    assert(self.inc_at(di) == g0.inc_at(di));
                    assert(self.adj_seq(dst) == g0.adj_seq(dst).push((src, e)));
                }
                lemma_uniform_add_counts(g0, *self, src, dst, e);
            }
        }
        proof {
            assert(g0 == *old(self));
            lemma_madd_edge_restores(g0, *self, src, dst, e, value);
            assert(self.node_slot_count() == g0.node_slot_count());
            assert forall|i: int|
                0 <= i < g0.node_slot_count() implies #[trigger] self.node_gen_spec(i)
                == g0.node_gen_spec(i) by {
                if i == src.index as int {
                    assert(self.nodes.slots_spec()[i].generation == src.generation);
                    assert(g0.nodes.gen_at(i) == src.generation);
                } else if i == dst.index as int {
                    assert(self.nodes.slots_spec()[i].generation == dst.generation);
                    assert(g0.nodes.gen_at(i) == dst.generation);
                } else {
                    assert(self.nodes.slots_spec()[i] == g0.nodes.slots_spec()[i]);
                }
            }
            assert(g0.edge_slot_count() <= self.edge_slot_count() <= g0.edge_slot_count() + 1);
            assert forall|i: int|
                0 <= i < g0.edge_slot_count() implies #[trigger] self.edge_gen_spec(i)
                == g0.edge_gen_spec(i) by {
                assert(self.edges.gen_at(i) == g0.edges.gen_at(i));
            }
            assert forall|e2: EdgeIdx|
                e2 != e implies #[trigger] self.has_edge_spec(e2) == g0.has_edge_spec(e2) by {
                if e2.index as int == e.index as int && e2.generation == e.generation {
                    assert(e2 == e);
                }
                assert(self.edges.is_live(e2.index as int, e2.generation) == g0.edges.is_live(
                    e2.index as int,
                    e2.generation,
                ));
            }
            assert forall|e2: EdgeIdx|
                e2 != e && g0.has_edge_spec(e2) implies #[trigger] self.edge_src_spec(e2)
                == g0.edge_src_spec(e2) && self.edge_dst_spec(e2) == g0.edge_dst_spec(e2)
                && self.edge_value_spec(e2) == g0.edge_value_spec(e2) by {
                assert((e2.index as int) < g0.edges.slot_count());
                assert(e2.index as int != e.index as int) by {
                    if e2.index as int == e.index as int {
                        assert(g0.edges.is_live(e2.index as int, e2.generation));
                    }
                }
                assert(self.edges.slots_spec()[e2.index as int]
                    == g0.edges.slots_spec()[e2.index as int]);
            }
            assert forall|m: NodeIdx|
                #[trigger] self.has_node_spec(m) == g0.has_node_spec(m) by {
                if 0 <= m.index as int && (m.index as int) < g0.nodes.slot_count() {
                    assert((self.nodes.slots_spec()[m.index as int]).value is Some
                        == (g0.nodes.slots_spec()[m.index as int]).value is Some) by {
                        if m.index as int == src.index as int {
                        } else if m.index as int == dst.index as int {
                        } else {
                            assert(self.nodes.slots_spec()[m.index as int]
                                == g0.nodes.slots_spec()[m.index as int]);
                        }
                    }
                }
            }
            assert forall|m: NodeIdx|
                g0.has_node_spec(m) implies #[trigger] self.node_value_spec(m)
                == g0.node_value_spec(m) by {
                if m.index as int == src.index as int {
                } else if m.index as int == dst.index as int {
                } else {
                    assert(self.nodes.slots_spec()[m.index as int]
                        == g0.nodes.slots_spec()[m.index as int]);
                }
            }
            assert forall|m: NodeIdx|
                m != src && m != dst && g0.has_node_spec(m) implies #[trigger] self.adj_seq(m)
                == g0.adj_seq(m) by {
                assert(m.index as int != src.index as int) by {
                    if m.index as int == src.index as int {
                        assert(m.generation == g0.nodes.gen_at(src.index as int));
                        assert(src.generation == g0.nodes.gen_at(src.index as int));
                    }
                }
                assert(m.index as int != dst.index as int) by {
                    if m.index as int == dst.index as int {
                        assert(m.generation == g0.nodes.gen_at(dst.index as int));
                        assert(dst.generation == g0.nodes.gen_at(dst.index as int));
                    }
                }
                assert(self.nodes.slots_spec()[m.index as int]
                    == g0.nodes.slots_spec()[m.index as int]);
            }
        }
        Ok(e)
    }

    #[verifier::rlimit(100)]
    fn remove_edge(&mut self, e: EdgeIdx) -> (r: Option<E>) {
        let (esrc, edst) = match self.edges.get(e.index, e.generation) {
            Some(ed) => (ed.src, ed.dst),
            None => {
                return None;
            },
        };
        let ghost g0 = *self;
        proof {
            assert(g0.edges.slots_spec()[e.index as int].value is Some);
            assert(g0.nodes.is_live(esrc.index as int, esrc.generation));
            assert(g0.nodes.is_live(edst.index as int, edst.generation));
            assert(g0.rec_ok_at(esrc.index as int));
            assert(g0.owner_at(esrc.index as int) == esrc);
            assert(g0.rec_ok_at(edst.index as int));
            assert(g0.owner_at(edst.index as int) == edst);
        }
        if esrc.index == edst.index {
            proof {
                assert(esrc == edst) by {
                    assert(esrc.generation == g0.nodes.gen_at(esrc.index as int));
                    assert(edst.generation == g0.nodes.gen_at(edst.index as int));
                }
            }
            let nd = match self.nodes.get_mut(esrc.index, esrc.generation) {
                Some(nd) => nd,
                None => vstd::pervasive::unreached(),
            };
            let ghost rec0 = nd.adj@;
            let ghost inc0 = nd.inc@;
            proof {
                assert(rec0 == g0.rec_at(esrc.index as int));
                assert(g0.rec_at(esrc.index as int).to_multiset().count((edst, e))
                    == g0.out_owed(esrc, edst, e));
                assert(rec0.to_multiset().count((edst, e)) == g0.out_owed(esrc, edst, e));
                assert(rec0.contains((edst, e)));
            }
            let pos = match mfind_by_edge(&nd.adj, e) {
                Some(k) => k,
                None => {
                    proof {
                        let k = choose|k: int| 0 <= k < rec0.len() && rec0[k] == (edst, e);
                        assert(rec0[k].1 == e);
                        assert(false);
                    }
                    vstd::pervasive::unreached()
                },
            };
            let ghost entry1 = nd.adj@[pos as int];
            proof {
                assert(rec0.contains(entry1));
                assert(rec0.to_multiset().count((entry1.0, entry1.1)) > 0) by {
                    assert(rec0.to_multiset().count(entry1) > 0);
                }
                assert(g0.out_owed(esrc, entry1.0, e) > 0);
                assert(entry1 == (esrc, e));
            }
            nd.adj.remove(pos);
            if DIRECTED {
                let ghost incb = nd.inc@;
                proof {
                    assert(incb == inc0);
                    assert(inc0 == g0.inc_at(edst.index as int));
                    assert(g0.inc_at(edst.index as int).to_multiset().count((esrc, e))
                        == g0.in_owed(edst, esrc, e));
                    assert(inc0.to_multiset().count((esrc, e)) == g0.in_owed(edst, esrc, e));
                    assert(inc0.contains((esrc, e)));
                }
                let pos2 = match mfind_by_edge(&nd.inc, e) {
                    Some(k) => k,
                    None => {
                        proof {
                            let k = choose|k: int|
                                0 <= k < inc0.len() && inc0[k] == (esrc, e);
                            assert(inc0[k].1 == e);
                            assert(false);
                        }
                        vstd::pervasive::unreached()
                    },
                };
                let ghost entry2 = nd.inc@[pos2 as int];
                proof {
                    assert(inc0.contains(entry2));
                    assert(inc0.to_multiset().count((entry2.0, entry2.1)) > 0) by {
                        assert(inc0.to_multiset().count(entry2) > 0);
                    }
                    assert(g0.in_owed(edst, entry2.0, e) > 0);
                    assert(entry2 == (esrc, e));
                }
                nd.inc.remove(pos2);
            } else {
                let ghost recb = nd.adj@;
                proof {
                    assert(recb =~= rec0.remove(pos as int));
                    assert(recb.to_multiset() =~= rec0.to_multiset().remove((esrc, e)));
                    assert(rec0.to_multiset().count((esrc, e)) == 2);
                    assert(recb.to_multiset().count((esrc, e)) == 1);
                    assert(recb.contains((esrc, e)));
                }
                let pos2 = match mfind_by_edge(&nd.adj, e) {
                    Some(k) => k,
                    None => {
                        proof {
                            let k = choose|k: int|
                                0 <= k < recb.len() && recb[k] == (esrc, e);
                            assert(recb[k].1 == e);
                            assert(false);
                        }
                        vstd::pervasive::unreached()
                    },
                };
                let ghost entry2 = nd.adj@[pos2 as int];
                proof {
                    assert(recb.contains(entry2));
                    assert(recb.to_multiset().count((entry2.0, entry2.1)) > 0) by {
                        assert(recb.to_multiset().count(entry2) > 0);
                    }
                    assert(g0.out_owed(esrc, entry2.0, e) >= recb.to_multiset().count(
                        (entry2.0, e),
                    )) by {
                        assert(rec0.to_multiset().count((entry2.0, e)) >= recb.to_multiset().count(
                            (entry2.0, e),
                        ));
                    }
                    assert(entry2 == (esrc, e));
                }
                nd.adj.remove(pos2);
            }
            proof {
                assert(self.nodes.slots_spec() =~= g0.nodes.slots_spec().update(
                    esrc.index as int,
                    Slot {
                        generation: esrc.generation,
                        value: Some(self.nodes.slots_spec()[esrc.index as int].value.unwrap()),
                    },
                ));
                lemma_wf_after_value_update(
                    g0.nodes,
                    self.nodes,
                    esrc.index as int,
                    self.nodes.slots_spec()[esrc.index as int].value.unwrap(),
                );
                let si = esrc.index as int;
                if DIRECTED {
                    assert(self.rec_at(si).to_multiset() =~= rec0.to_multiset().remove(
                        (edst, e),
                    ));
                    assert(self.inc_at(si).to_multiset() =~= inc0.to_multiset().remove(
                        (esrc, e),
                    ));
                } else {
                    assert(self.rec_at(si).to_multiset() =~= rec0.to_multiset().remove(
                        (edst, e),
                    ).remove((esrc, e)));
                    assert(self.inc_at(si) == inc0);
                }
                lemma_uniform_remove_counts(g0, *self, esrc, edst, e);
            }
        } else {
            let nd = match self.nodes.get_mut(esrc.index, esrc.generation) {
                Some(nd) => nd,
                None => vstd::pervasive::unreached(),
            };
            let ghost rec0 = nd.adj@;
            proof {
                assert(rec0 == g0.rec_at(esrc.index as int));
                assert(g0.rec_at(esrc.index as int).to_multiset().count((edst, e))
                    == g0.out_owed(esrc, edst, e));
                assert(rec0.to_multiset().count((edst, e)) == g0.out_owed(esrc, edst, e));
                assert(rec0.contains((edst, e)));
            }
            let pos = match mfind_by_edge(&nd.adj, e) {
                Some(k) => k,
                None => {
                    proof {
                        let k = choose|k: int| 0 <= k < rec0.len() && rec0[k] == (edst, e);
                        assert(rec0[k].1 == e);
                        assert(false);
                    }
                    vstd::pervasive::unreached()
                },
            };
            let ghost entry1 = nd.adj@[pos as int];
            proof {
                assert(rec0.contains(entry1));
                assert(rec0.to_multiset().count((entry1.0, entry1.1)) > 0) by {
                    assert(rec0.to_multiset().count(entry1) > 0);
                }
                assert(g0.out_owed(esrc, entry1.0, e) > 0);
                assert(entry1 == (edst, e));
            }
            nd.adj.remove(pos);
            let ghost gb = *self;
            proof {
                assert(gb.nodes.slots_spec() =~= g0.nodes.slots_spec().update(
                    esrc.index as int,
                    Slot {
                        generation: esrc.generation,
                        value: Some(gb.nodes.slots_spec()[esrc.index as int].value.unwrap()),
                    },
                ));
                lemma_wf_after_value_update(
                    g0.nodes,
                    gb.nodes,
                    esrc.index as int,
                    gb.nodes.slots_spec()[esrc.index as int].value.unwrap(),
                );
                assert(gb.nodes.is_live(edst.index as int, edst.generation));
            }
            let nd2 = match self.nodes.get_mut(edst.index, edst.generation) {
                Some(n2) => n2,
                None => vstd::pervasive::unreached(),
            };
            if DIRECTED {
                let ghost inc0 = nd2.inc@;
                proof {
                    assert(inc0 == g0.inc_at(edst.index as int));
                    assert(g0.inc_at(edst.index as int).to_multiset().count((esrc, e))
                        == g0.in_owed(edst, esrc, e));
                    assert(inc0.to_multiset().count((esrc, e)) == g0.in_owed(edst, esrc, e));
                    assert(inc0.contains((esrc, e)));
                }
                let pos2 = match mfind_by_edge(&nd2.inc, e) {
                    Some(k) => k,
                    None => {
                        proof {
                            let k = choose|k: int|
                                0 <= k < inc0.len() && inc0[k] == (esrc, e);
                            assert(inc0[k].1 == e);
                            assert(false);
                        }
                        vstd::pervasive::unreached()
                    },
                };
                let ghost entry2 = nd2.inc@[pos2 as int];
                proof {
                    assert(inc0.contains(entry2));
                    assert(inc0.to_multiset().count((entry2.0, entry2.1)) > 0) by {
                        assert(inc0.to_multiset().count(entry2) > 0);
                    }
                    assert(g0.in_owed(edst, entry2.0, e) > 0);
                    assert(entry2 == (esrc, e));
                }
                nd2.inc.remove(pos2);
            } else {
                let ghost rec0d = nd2.adj@;
                proof {
                    assert(rec0d == g0.rec_at(edst.index as int));
                    assert(g0.rec_at(edst.index as int).to_multiset().count((esrc, e))
                        == g0.out_owed(edst, esrc, e));
                    assert(rec0d.to_multiset().count((esrc, e)) == g0.out_owed(edst, esrc, e));
                    assert(rec0d.contains((esrc, e)));
                }
                let pos2 = match mfind_by_edge(&nd2.adj, e) {
                    Some(k) => k,
                    None => {
                        proof {
                            let k = choose|k: int|
                                0 <= k < rec0d.len() && rec0d[k] == (esrc, e);
                            assert(rec0d[k].1 == e);
                            assert(false);
                        }
                        vstd::pervasive::unreached()
                    },
                };
                let ghost entry2 = nd2.adj@[pos2 as int];
                proof {
                    assert(rec0d.contains(entry2));
                    assert(rec0d.to_multiset().count((entry2.0, entry2.1)) > 0) by {
                        assert(rec0d.to_multiset().count(entry2) > 0);
                    }
                    assert(g0.out_owed(edst, entry2.0, e) > 0);
                    assert(entry2 == (esrc, e));
                }
                nd2.adj.remove(pos2);
            }
            proof {
                let gb2 = *self;
                assert(gb2.nodes.slots_spec() =~= gb.nodes.slots_spec().update(
                    edst.index as int,
                    Slot {
                        generation: edst.generation,
                        value: Some(gb2.nodes.slots_spec()[edst.index as int].value.unwrap()),
                    },
                ));
                lemma_wf_after_value_update(
                    gb.nodes,
                    self.nodes,
                    edst.index as int,
                    self.nodes.slots_spec()[edst.index as int].value.unwrap(),
                );
                let si = esrc.index as int;
                let di = edst.index as int;
                assert(self.rec_at(si) == gb.rec_at(si));
                assert(gb.rec_at(si) =~= rec0.remove(pos as int));
                assert(self.rec_at(si).to_multiset() =~= rec0.to_multiset().remove((edst, e)));
                assert(self.inc_at(si) == gb.inc_at(si));
                assert(gb.inc_at(si) == g0.inc_at(si));
                assert(gb.rec_at(di) == g0.rec_at(di));
                assert(gb.inc_at(di) == g0.inc_at(di));
                if DIRECTED {
                    assert(self.rec_at(di) == gb.rec_at(di));
                    assert(self.inc_at(di).to_multiset() =~= g0.inc_at(di).to_multiset().remove(
                        (esrc, e),
                    ));
                } else {
                    assert(self.rec_at(di).to_multiset() =~= g0.rec_at(di).to_multiset().remove(
                        (esrc, e),
                    ));
                    assert(self.inc_at(di) == g0.inc_at(di));
                }
                lemma_uniform_remove_counts(g0, *self, esrc, edst, e);
            }
        }
        let ghost gc = *self;
        let data = match self.edges.remove(e.index, e.generation) {
            Some(ed) => ed.data,
            None => vstd::pervasive::unreached(),
        };
        proof {
            assert(g0 == *old(self));
            lemma_mremove_edge_restores(g0, gc, *self, e, esrc, edst);
            assert(!self.has_edge_spec(e));
            assert forall|e2: EdgeIdx|
                e2 != e implies #[trigger] self.has_edge_spec(e2) == g0.has_edge_spec(e2) by {
                if e2.index as int == e.index as int {
                    assert(!self.edges.is_live(e2.index as int, e2.generation));
                    assert(!g0.edges.is_live(e2.index as int, e2.generation)) by {
                        if g0.edges.is_live(e2.index as int, e2.generation) {
                            assert(e2.generation == g0.edges.gen_at(e.index as int));
                            assert(e.generation == g0.edges.gen_at(e.index as int));
                            assert(e2 == e);
                        }
                    }
                } else {
                    assert(self.edges.is_live(e2.index as int, e2.generation)
                        == g0.edges.is_live(e2.index as int, e2.generation));
                }
            }
            assert forall|e2: EdgeIdx|
                e2 != e && g0.has_edge_spec(e2) implies #[trigger] self.edge_src_spec(e2)
                == g0.edge_src_spec(e2) && self.edge_dst_spec(e2) == g0.edge_dst_spec(e2)
                && self.edge_value_spec(e2) == g0.edge_value_spec(e2) by {
                assert(e2.index as int != e.index as int) by {
                    if e2.index as int == e.index as int {
                        assert(e2.generation == g0.edges.gen_at(e.index as int));
                        assert(e.generation == g0.edges.gen_at(e.index as int));
                    }
                }
                assert(self.edges.slots_spec()[e2.index as int]
                    == g0.edges.slots_spec()[e2.index as int]);
            }
            assert forall|m: NodeIdx|
                #[trigger] self.has_node_spec(m) == g0.has_node_spec(m) by {
                assert(self.nodes.is_live(m.index as int, m.generation) == g0.nodes.is_live(
                    m.index as int,
                    m.generation,
                ));
            }
            assert forall|m: NodeIdx|
                g0.has_node_spec(m) implies #[trigger] self.node_value_spec(m)
                == g0.node_value_spec(m) by {
                if m.index as int == esrc.index as int {
                } else if m.index as int == edst.index as int {
                } else {
                    assert(self.nodes.slots_spec()[m.index as int]
                        == g0.nodes.slots_spec()[m.index as int]);
                }
            }
            assert forall|m: NodeIdx|
                g0.has_node_spec(m) && m != esrc && m != edst implies #[trigger] self.adj_seq(m)
                == g0.adj_seq(m) by {
                assert(m.index as int != esrc.index as int) by {
                    if m.index as int == esrc.index as int {
                        assert(m.generation == g0.nodes.gen_at(esrc.index as int));
                        assert(esrc.generation == g0.nodes.gen_at(esrc.index as int));
                    }
                }
                assert(m.index as int != edst.index as int) by {
                    if m.index as int == edst.index as int {
                        assert(m.generation == g0.nodes.gen_at(edst.index as int));
                        assert(edst.generation == g0.nodes.gen_at(edst.index as int));
                    }
                }
                assert(self.nodes.slots_spec()[m.index as int]
                    == g0.nodes.slots_spec()[m.index as int]);
            }
            assert(self.node_slot_count() == g0.node_slot_count());
            assert forall|i: int|
                0 <= i < g0.node_slot_count() implies #[trigger] self.node_gen_spec(i)
                == g0.node_gen_spec(i) by {
                assert(gc.nodes.gen_at(i) == g0.nodes.gen_at(i));
            }
            assert(self.edge_slot_count() == g0.edge_slot_count());
            assert(self.edge_gen_spec(e.index as int) > e.generation);
            assert forall|i: int|
                0 <= i < g0.edge_slot_count() && i != e.index as int
                    implies #[trigger] self.edge_gen_spec(i) == g0.edge_gen_spec(i) by {
                assert(self.edges.slots_spec()[i] == g0.edges.slots_spec()[i]);
            }
            assert(self.node_count_spec() == g0.node_count_spec()) by {
                crate::arena::lemma_count_some_same_someness(
                    g0.nodes.slots_spec(),
                    self.nodes.slots_spec(),
                );
            }
        }
        Some(data)
    }

    #[verifier::rlimit(100)]
    fn remove_node(&mut self, n: NodeIdx) -> (r: Option<N>) {
        if !self.nodes.contains(n.index, n.generation) {
            return None;
        }
        let ghost g0 = *self;
        let victims = collect_incident(&self.edges, n);
        let vlen = victims.len();
        let mut k: usize = 0;
        while k < vlen
            invariant
                vlen == victims@.len(),
                k <= vlen,
                g0.inv(),
                g0.nodes.is_live(n.index as int, n.generation),
                victims@.len() == incident_count(g0.edges.slots_spec(), n),
                forall|k2: int|
                    0 <= k2 < victims@.len() ==> crate::graphs::edge_live_in(
                        g0.edges.slots_spec(),
                        #[trigger] victims@[k2],
                    ) && (crate::graphs::edge_at(g0.edges.slots_spec(), victims@[k2]).src == n
                        || crate::graphs::edge_at(g0.edges.slots_spec(), victims@[k2]).dst == n),
                forall|k1: int, k2: int|
                    0 <= k1 < k2 < victims@.len() ==> victims@[k1] != victims@[k2],
                forall|e2: EdgeIdx|
                    crate::graphs::edge_live_in(g0.edges.slots_spec(), e2) && (
                    crate::graphs::edge_at(g0.edges.slots_spec(), e2).src == n
                        || crate::graphs::edge_at(g0.edges.slots_spec(), e2).dst == n)
                        ==> victims@.contains(e2),
                self.inv(),
                forall|m: NodeIdx|
                    #[trigger] self.nodes.is_live(m.index as int, m.generation)
                        == g0.nodes.is_live(m.index as int, m.generation),
                forall|m: NodeIdx|
                    g0.nodes.is_live(m.index as int, m.generation)
                        ==> #[trigger] self.nodes.value_at(m.index as int).data
                        == g0.nodes.value_at(m.index as int).data,
                self.nodes.slot_count() == g0.nodes.slot_count(),
                forall|j: int|
                    0 <= j < g0.nodes.slot_count() ==> #[trigger] self.nodes.gen_at(j)
                        == g0.nodes.gen_at(j),
                self.nodes.live_count() == g0.nodes.live_count(),
                forall|e2: EdgeIdx|
                    #[trigger] self.edges.is_live(e2.index as int, e2.generation) == (
                    g0.edges.is_live(e2.index as int, e2.generation) && !victims@.take(
                        k as int,
                    ).contains(e2)),
                forall|e2: EdgeIdx|
                    self.edges.is_live(e2.index as int, e2.generation)
                        ==> #[trigger] self.edges.value_at(e2.index as int) == g0.edges.value_at(
                        e2.index as int,
                    ),
                self.edges.live_count() == g0.edges.live_count() - k,
                self.edges.slot_count() == g0.edges.slot_count(),
                forall|j: int|
                    0 <= j < g0.edges.slot_count() ==> #[trigger] self.edges.gen_at(j)
                        >= g0.edges.gen_at(j),
            decreases vlen - k,
        {
            let v = victims[k];
            let ghost spre = *self;
            proof {
                assert(!victims@.take(k as int).contains(v)) by {
                    if victims@.take(k as int).contains(v) {
                        let k1 = choose|k1: int|
                            0 <= k1 < k && #[trigger] victims@.take(k as int)[k1] == v;
                        assert(victims@[k1] == victims@[k as int]);
                    }
                }
                assert(g0.edges.is_live(v.index as int, v.generation));
                assert(self.edges.is_live(v.index as int, v.generation));
            }
            let removed = self.remove_edge(v);
            proof {
                assert(removed is Some);
                assert(victims@.take(k + 1) =~= victims@.take(k as int).push(v));
                assert forall|e2: EdgeIdx|
                    #[trigger] self.edges.is_live(e2.index as int, e2.generation) == (
                    g0.edges.is_live(e2.index as int, e2.generation) && !victims@.take(
                        k + 1,
                    ).contains(e2)) by {
                    if e2 == v {
                        assert(!self.has_edge_spec(v));
                    } else {
                        assert(self.has_edge_spec(e2) == spre.has_edge_spec(e2));
                        assert(spre.edges.is_live(e2.index as int, e2.generation) == (
                        g0.edges.is_live(e2.index as int, e2.generation) && !victims@.take(
                            k as int,
                        ).contains(e2)));
                    }
                    if victims@.take(k + 1).contains(e2) {
                        let k1 = choose|k1: int|
                            0 <= k1 < k + 1 && #[trigger] victims@.take(k + 1)[k1] == e2;
                        if k1 < k {
                            assert(victims@.take(k as int)[k1] == e2);
                        } else {
                            assert(e2 == v);
                        }
                    } else {
                        assert(!victims@.take(k as int).contains(e2)) by {
                            if victims@.take(k as int).contains(e2) {
                                let k1 = choose|k1: int|
                                    0 <= k1 < k && #[trigger] victims@.take(k as int)[k1] == e2;
                                assert(victims@.take(k + 1)[k1] == e2);
                            }
                        }
                        assert(e2 != v) by {
                            if e2 == v {
                                assert(victims@.take(k + 1)[k as int] == e2);
                            }
                        }
                    }
                }
                assert(self.inv()) by {
                    assert(self.wf());
                }
                assert forall|m: NodeIdx|
                    #[trigger] self.nodes.is_live(m.index as int, m.generation)
                        == g0.nodes.is_live(m.index as int, m.generation) by {
                    assert(self.has_node_spec(m) == spre.has_node_spec(m));
                }
                assert forall|m: NodeIdx|
                    g0.nodes.is_live(m.index as int, m.generation)
                        implies #[trigger] self.nodes.value_at(m.index as int).data
                        == g0.nodes.value_at(m.index as int).data by {
                    assert(spre.has_node_spec(m));
                    assert(self.node_value_spec(m) == spre.node_value_spec(m));
                }
                assert(self.nodes.slot_count() == g0.nodes.slot_count()) by {
                    assert(self.node_slot_count() == spre.node_slot_count());
                }
                assert forall|j: int|
                    0 <= j < g0.nodes.slot_count() implies #[trigger] self.nodes.gen_at(j)
                        == g0.nodes.gen_at(j) by {
                    assert(self.node_gen_spec(j) == spre.node_gen_spec(j));
                }
                assert(self.nodes.live_count() == g0.nodes.live_count()) by {
                    assert(self.node_count_spec() == spre.node_count_spec());
                }
                assert forall|e2: EdgeIdx|
                    self.edges.is_live(e2.index as int, e2.generation)
                        implies #[trigger] self.edges.value_at(e2.index as int)
                        == g0.edges.value_at(e2.index as int) by {
                    assert(self.has_edge_spec(e2));
                    assert(e2 != v) by {
                        if e2 == v {
                            assert(!self.has_edge_spec(v));
                        }
                    }
                    assert(spre.has_edge_spec(e2));
                    assert(self.edge_src_spec(e2) == spre.edge_src_spec(e2));
                    assert(self.edge_dst_spec(e2) == spre.edge_dst_spec(e2));
                    assert(self.edge_value_spec(e2) == spre.edge_value_spec(e2));
                    assert(spre.edges.value_at(e2.index as int) == g0.edges.value_at(
                        e2.index as int,
                    ));
                    assert(self.edges.value_at(e2.index as int) == (Edge {
                        src: self.edge_src_spec(e2),
                        dst: self.edge_dst_spec(e2),
                        data: self.edge_value_spec(e2),
                    }));
                }
                assert(self.edges.live_count() == g0.edges.live_count() - (k + 1)) by {
                    assert(self.edge_count_spec() == spre.edge_count_spec() - 1);
                }
                assert(self.edges.slot_count() == g0.edges.slot_count()) by {
                    assert(self.edge_slot_count() == spre.edge_slot_count());
                }
                assert forall|j: int|
                    0 <= j < g0.edges.slot_count() implies #[trigger] self.edges.gen_at(j)
                        >= g0.edges.gen_at(j) by {
                    assert(spre.edges.gen_at(j) >= g0.edges.gen_at(j));
                    if j == v.index as int {
                        assert(self.edge_gen_spec(j) > v.generation);
                        assert(v.generation == spre.edges.gen_at(j));
                    } else {
                        assert(self.edge_gen_spec(j) == spre.edge_gen_spec(j));
                    }
                }
            }
            k = k + 1;
        }
        proof {
            lemma_take_all(victims@);
        }
        let ghost gl = *self;
        let nd = match self.nodes.remove(n.index, n.generation) {
            Some(nd) => nd,
            None => vstd::pervasive::unreached(),
        };
        proof {
            assert(g0 == *old(self));
            lemma_mremove_node_restores(g0, gl, *self, n, victims@);
            assert(!self.has_node_spec(n));
            assert forall|m: NodeIdx|
                m != n implies #[trigger] self.has_node_spec(m) == g0.has_node_spec(m) by {
                if m.index as int == n.index as int {
                    assert(!self.nodes.is_live(m.index as int, m.generation));
                    assert(!g0.nodes.is_live(m.index as int, m.generation)) by {
                        if g0.nodes.is_live(m.index as int, m.generation) {
                            assert(m.generation == g0.nodes.gen_at(n.index as int));
                            assert(n.generation == g0.nodes.gen_at(n.index as int));
                            assert(m == n);
                        }
                    }
                } else {
                    assert(self.nodes.is_live(m.index as int, m.generation) == gl.nodes.is_live(
                        m.index as int,
                        m.generation,
                    ));
                    assert(gl.nodes.is_live(m.index as int, m.generation) == g0.nodes.is_live(
                        m.index as int,
                        m.generation,
                    ));
                }
            }
            assert forall|m: NodeIdx|
                m != n && g0.has_node_spec(m) implies #[trigger] self.node_value_spec(m)
                == g0.node_value_spec(m) by {
                assert(m.index as int != n.index as int) by {
                    if m.index as int == n.index as int {
                        assert(m.generation == g0.nodes.gen_at(n.index as int));
                        assert(n.generation == g0.nodes.gen_at(n.index as int));
                    }
                }
                assert(self.nodes.slots_spec()[m.index as int]
                    == gl.nodes.slots_spec()[m.index as int]);
                assert(gl.nodes.value_at(m.index as int).data == g0.nodes.value_at(
                    m.index as int,
                ).data) by {
                    assert(gl.nodes.is_live(m.index as int, m.generation));
                }
            }
            assert(self.node_count_spec() == g0.node_count_spec() - 1);
            assert forall|e2: EdgeIdx|
                #[trigger] self.has_edge_spec(e2) == (g0.has_edge_spec(e2) && g0.edge_src_spec(
                    e2,
                ) != n && g0.edge_dst_spec(e2) != n) by {
                assert(self.edges == gl.edges);
                assert(gl.edges.is_live(e2.index as int, e2.generation) == (g0.edges.is_live(
                    e2.index as int,
                    e2.generation,
                ) && !victims@.contains(e2)));
                if g0.edges.is_live(e2.index as int, e2.generation) {
                    if victims@.contains(e2) {
                        let k2 = choose|k2: int|
                            0 <= k2 < victims@.len() && victims@[k2] == e2;
                        assert(crate::graphs::edge_at(g0.edges.slots_spec(), victims@[k2]).src
                            == n || crate::graphs::edge_at(g0.edges.slots_spec(), victims@[k2]).dst
                            == n);
                    } else {
                        assert(g0.edge_src_spec(e2) != n && g0.edge_dst_spec(e2) != n) by {
                            if g0.edge_src_spec(e2) == n || g0.edge_dst_spec(e2) == n {
                                assert(crate::graphs::edge_live_in(g0.edges.slots_spec(), e2));
                                assert(victims@.contains(e2));
                            }
                        }
                    }
                }
            }
            assert forall|e2: EdgeIdx|
                self.has_edge_spec(e2) implies #[trigger] self.edge_src_spec(e2)
                == g0.edge_src_spec(e2) && self.edge_dst_spec(e2) == g0.edge_dst_spec(e2)
                && self.edge_value_spec(e2) == g0.edge_value_spec(e2) by {
                assert(gl.edges.is_live(e2.index as int, e2.generation));
                assert(gl.edges.value_at(e2.index as int) == g0.edges.value_at(e2.index as int));
            }
            assert(self.edge_count_spec() == g0.edge_count_spec() - g0.incident_spec(n));
            assert(self.node_slot_count() == g0.node_slot_count());
            assert(self.node_gen_spec(n.index as int) > n.generation);
            assert forall|i: int|
                0 <= i < g0.node_slot_count() && i != n.index as int
                    implies #[trigger] self.node_gen_spec(i) == g0.node_gen_spec(i) by {
                assert(self.nodes.slots_spec()[i] == gl.nodes.slots_spec()[i]);
                assert(gl.nodes.gen_at(i) == g0.nodes.gen_at(i));
            }
            assert(self.edge_slot_count() == g0.edge_slot_count());
            assert forall|i: int|
                0 <= i < g0.edge_slot_count() implies #[trigger] self.edge_gen_spec(i)
                >= g0.edge_gen_spec(i) by {
                assert(gl.edges.gen_at(i) >= g0.edges.gen_at(i));
            }
        }
        Some(nd.data)
    }

    fn clear_edges(&mut self) {
        let len = self.nodes.slots_len();
        let mut i: usize = 0;
        while i < len
            invariant
                len == self.nodes.slot_count(),
                i <= len,
                old(self).inv(),
                self.nodes.wf(),
                self.edges == old(self).edges,
                self.nodes.free_list@ == old(self).nodes.free_list@,
                self.nodes.live == old(self).nodes.live,
                forall|j: int|
                    0 <= j < len ==> (#[trigger] self.nodes.slots_spec()[j]).generation == old(
                        self,
                    ).nodes.slots_spec()[j].generation,
                forall|j: int|
                    0 <= j < len ==> ((#[trigger] self.nodes.slots_spec()[j]).value is Some
                        == old(self).nodes.slots_spec()[j].value is Some),
                forall|j: int|
                    0 <= j < len && (#[trigger] self.nodes.slots_spec()[j]).value is Some
                        ==> self.nodes.slots_spec()[j].value.unwrap().data == old(
                        self,
                    ).nodes.slots_spec()[j].value.unwrap().data,
                forall|j: int|
                    0 <= j < i && (#[trigger] self.nodes.slots_spec()[j]).value is Some
                        ==> self.nodes.slots_spec()[j].value.unwrap().adj@.len() == 0
                        && self.nodes.slots_spec()[j].value.unwrap().inc@.len() == 0,
            decreases len - i,
        {
            if self.nodes.occupied(i) {
                let g = self.nodes.generation_of(i);
                let ghost pre = self.nodes;
                match self.nodes.get_mut(i, g) {
                    Some(nd) => {
                        nd.adj.clear();
                        nd.inc.clear();
                    },
                    None => {
                        proof {
                            assert(false);
                        }
                    },
                }
                proof {
                    assert(self.nodes.slots_spec() =~= pre.slots_spec().update(
                        i as int,
                        Slot {
                            generation: g,
                            value: Some(self.nodes.slots_spec()[i as int].value.unwrap()),
                        },
                    ));
                    lemma_wf_after_value_update(
                        pre,
                        self.nodes,
                        i as int,
                        self.nodes.slots_spec()[i as int].value.unwrap(),
                    );
                }
            }
            i = i + 1;
        }
        self.edges.clear_all();
        proof {
            crate::arena::lemma_count_some_same_someness(
                old(self).nodes.slots_spec(),
                self.nodes.slots_spec(),
            );
            assert forall|j: int|
                0 <= j < self.edges.slot_count() implies !((
            #[trigger] self.edges.slots_spec()[j]).value is Some) by {
                if self.edges.slots_spec()[j].value is Some {
                    assert(self.edges.is_live(j, self.edges.gen_at(j)));
                }
            }
            assert forall|i2: int|
                0 <= i2 < self.nodes.slot_count() && (#[trigger] self.nodes.slots_spec()[i2]).value
                    is Some implies self.rec_ok_at(i2) by {
                assert(self.rec_at(i2).len() == 0);
                assert(self.inc_at(i2).len() == 0);
                assert forall|m: NodeIdx, e: EdgeIdx|
                    #[trigger] self.rec_at(i2).to_multiset().count((m, e)) == self.out_owed(
                        self.owner_at(i2),
                        m,
                        e,
                    ) by {
                    if self.rec_at(i2).to_multiset().count((m, e)) > 0 {
                        assert(self.rec_at(i2).contains((m, e)));
                    }
                    assert(!self.edges.is_live(e.index as int, e.generation)) by {
                        if 0 <= e.index as int && (e.index as int) < self.edges.slot_count() {
                            assert(!(self.edges.slots_spec()[e.index as int].value is Some));
                        }
                    }
                }
                if DIRECTED {
                    assert forall|m: NodeIdx, e: EdgeIdx|
                        #[trigger] self.inc_at(i2).to_multiset().count((m, e)) == self.in_owed(
                            self.owner_at(i2),
                            m,
                            e,
                        ) by {
                        if self.inc_at(i2).to_multiset().count((m, e)) > 0 {
                            assert(self.inc_at(i2).contains((m, e)));
                        }
                        assert(!self.edges.is_live(e.index as int, e.generation)) by {
                            if 0 <= e.index as int && (e.index as int)
                                < self.edges.slot_count() {
                                assert(!(self.edges.slots_spec()[e.index as int].value is Some));
                            }
                        }
                    }
                }
            }
            assert forall|n2: NodeIdx|
                old(self).nodes.is_live(n2.index as int, n2.generation) implies #[trigger] self.rec_at(
                n2.index as int,
            ) =~= Seq::<(NodeIdx, EdgeIdx)>::empty() by {}
        }
    }

    fn clear(&mut self) {
        self.edges.clear_all();
        self.nodes.clear_all();
        proof {
            assert forall|j: int|
                0 <= j < self.edges.slot_count() implies !((
            #[trigger] self.edges.slots_spec()[j]).value is Some) by {
                if self.edges.slots_spec()[j].value is Some {
                    assert(self.edges.is_live(j, self.edges.gen_at(j)));
                }
            }
            assert forall|j: int|
                0 <= j < self.nodes.slot_count() implies !((
            #[trigger] self.nodes.slots_spec()[j]).value is Some) by {
                if self.nodes.slots_spec()[j].value is Some {
                    assert(self.nodes.is_live(j, self.nodes.gen_at(j)));
                }
            }
        }
    }
}

/// After inserting a fresh edge `(src, dst)` and growing the endpoint
/// records by exactly the multiplicities the new edge owes them, the whole
/// invariant holds again.
#[verifier::rlimit(100)]
proof fn lemma_madd_edge_restores<N, E, const DIRECTED: bool, const MAPADJ: bool>(
    g0: MultiGraphCore<N, E, DIRECTED, MAPADJ>,
    g2: MultiGraphCore<N, E, DIRECTED, MAPADJ>,
    src: NodeIdx,
    dst: NodeIdx,
    e: EdgeIdx,
    value: E,
)
    requires
        g0.inv(),
        g0.nodes.is_live(src.index as int, src.generation),
        g0.nodes.is_live(dst.index as int, dst.generation),
        !g0.edges.is_live(e.index as int, e.generation),
        g2.edges.wf(),
        g2.edges.is_live(e.index as int, e.generation),
        g2.edges.value_at(e.index as int) == (Edge { src, dst, data: value }),
        g2.edges.live_count() == g0.edges.live_count() + 1,
        2 * g2.edges.live_count() <= usize::MAX,
        forall|i: int, g: u64|
            !(i == e.index as int && g == e.generation) ==> #[trigger] g2.edges.is_live(i, g)
                == g0.edges.is_live(i, g),
        forall|i: int|
            0 <= i < g0.edges.slot_count() && i != e.index as int
                ==> #[trigger] g2.edges.slots_spec()[i] == g0.edges.slots_spec()[i],
        g0.edges.slot_count() <= g2.edges.slot_count(),
        g2.nodes.wf(),
        g2.nodes.slot_count() == g0.nodes.slot_count(),
        forall|i: int|
            0 <= i < g0.nodes.slot_count() ==> #[trigger] g2.nodes.gen_at(i) == g0.nodes.gen_at(
                i,
            ),
        forall|i: int|
            0 <= i < g0.nodes.slot_count() ==> ((#[trigger] g2.nodes.slots_spec()[i]).value
                is Some == g0.nodes.slots_spec()[i].value is Some),
        forall|i: int, m: NodeIdx, x: EdgeIdx|
            0 <= i < g0.nodes.slot_count() && g0.nodes.slots_spec()[i].value is Some
                ==> #[trigger] g2.rec_at(i).to_multiset().count((m, x)) == g0.rec_at(
                i,
            ).to_multiset().count((m, x)) + (if x == e {
                orient_multiplicity(DIRECTED, true, src, dst, g0.owner_at(i), m)
            } else {
                0nat
            }),
        DIRECTED ==> forall|i: int, m: NodeIdx, x: EdgeIdx|
            0 <= i < g0.nodes.slot_count() && g0.nodes.slots_spec()[i].value is Some
                ==> #[trigger] g2.inc_at(i).to_multiset().count((m, x)) == g0.inc_at(
                i,
            ).to_multiset().count((m, x)) + (if x == e {
                in_multiplicity(true, src, dst, g0.owner_at(i), m)
            } else {
                0nat
            }),
        !DIRECTED ==> forall|i: int|
            0 <= i < g0.nodes.slot_count() && g0.nodes.slots_spec()[i].value is Some
                ==> #[trigger] g2.inc_at(i).len() == g0.inc_at(i).len(),
    ensures
        g2.inv(),
{
    assert forall|m: NodeIdx|
        #[trigger] g2.nodes.is_live(m.index as int, m.generation) == g0.nodes.is_live(
            m.index as int,
            m.generation,
        ) by {
        let mi = m.index as int;
        if 0 <= mi && mi < g0.nodes.slot_count() {
            assert(g2.nodes.gen_at(mi) == g0.nodes.gen_at(mi));
            assert((g2.nodes.slots_spec()[mi]).value is Some == g0.nodes.slots_spec()[mi].value
                is Some);
        }
    }
    assert forall|j: int|
        0 <= j < g2.edges.slot_count() && (#[trigger] g2.edges.slots_spec()[j]).value
            is Some implies ({
        let ed = g2.edges.slots_spec()[j].value.unwrap();
        &&& g2.nodes.is_live(ed.src.index as int, ed.src.generation)
        &&& g2.nodes.is_live(ed.dst.index as int, ed.dst.generation)
    }) by {
        if j == e.index as int {
            assert(g2.edges.slots_spec()[j].value.unwrap() == (Edge { src, dst, data: value }));
        } else {
            assert(g2.edges.is_live(j, g2.edges.gen_at(j)) == g0.edges.is_live(
                j,
                g2.edges.gen_at(j),
            ));
            assert(g0.edges.slots_spec()[j].value is Some);
            let ed = g0.edges.slots_spec()[j].value.unwrap();
            assert(g0.nodes.is_live(ed.src.index as int, ed.src.generation));
            assert(g0.nodes.is_live(ed.dst.index as int, ed.dst.generation));
        }
    }
    assert forall|i2: int|
        0 <= i2 < g2.nodes.slot_count() && (#[trigger] g2.nodes.slots_spec()[i2]).value
            is Some implies g2.rec_ok_at(i2) by {
        let n2 = g2.owner_at(i2);
        assert(g0.nodes.slots_spec()[i2].value is Some);
        assert(g0.rec_ok_at(i2));
        assert(g2.owner_at(i2) == g0.owner_at(i2));
        assert forall|m: NodeIdx, x: EdgeIdx|
            #[trigger] g2.rec_at(i2).to_multiset().count((m, x)) == g2.out_owed(n2, m, x) by {
            assert(g0.rec_at(i2).to_multiset().count((m, x)) == g0.out_owed(n2, m, x));
            if x == e {
                assert(g0.out_owed(n2, m, x) == 0);
                assert(g2.out_owed(n2, m, x) == orient_multiplicity(
                    DIRECTED,
                    true,
                    src,
                    dst,
                    n2,
                    m,
                ));
            } else {
                assert(g2.edges.is_live(x.index as int, x.generation) == g0.edges.is_live(
                    x.index as int,
                    x.generation,
                )) by {
                    if x.index as int == e.index as int && x.generation == e.generation {
                        assert(x == e);
                    }
                }
                if g0.edges.is_live(x.index as int, x.generation) {
                    assert(x.index as int != e.index as int) by {
                        if x.index as int == e.index as int {
                            assert(g0.edges.is_live(e.index as int, x.generation));
                            assert(x.generation == g0.edges.gen_at(e.index as int));
                        }
                    }
                    assert(g2.edges.slots_spec()[x.index as int]
                        == g0.edges.slots_spec()[x.index as int]);
                }
            }
        }
        if DIRECTED {
            assert forall|m: NodeIdx, x: EdgeIdx|
                #[trigger] g2.inc_at(i2).to_multiset().count((m, x)) == g2.in_owed(
                    n2,
                    m,
                    x,
                ) by {
                assert(g0.inc_at(i2).to_multiset().count((m, x)) == g0.in_owed(n2, m, x));
                if x == e {
                    assert(g0.in_owed(n2, m, x) == 0);
                    assert(g2.in_owed(n2, m, x) == in_multiplicity(true, src, dst, n2, m));
                } else {
                    assert(g2.edges.is_live(x.index as int, x.generation) == g0.edges.is_live(
                        x.index as int,
                        x.generation,
                    )) by {
                        if x.index as int == e.index as int && x.generation == e.generation {
                            assert(x == e);
                        }
                    }
                    if g0.edges.is_live(x.index as int, x.generation) {
                        assert(x.index as int != e.index as int) by {
                            if x.index as int == e.index as int {
                                assert(x.generation == g0.edges.gen_at(e.index as int));
                            }
                        }
                        assert(g2.edges.slots_spec()[x.index as int]
                            == g0.edges.slots_spec()[x.index as int]);
                    }
                }
            }
        } else {
            assert(g2.inc_at(i2).len() == g0.inc_at(i2).len());
            assert(g0.inc_at(i2).len() == 0);
        }
    }
}

/// After shrinking the endpoint records by exactly the multiplicities a
/// live edge owed them and freeing its arena slot, the whole invariant
/// holds again.
#[verifier::rlimit(100)]
proof fn lemma_mremove_edge_restores<N, E, const DIRECTED: bool, const MAPADJ: bool>(
    g0: MultiGraphCore<N, E, DIRECTED, MAPADJ>,
    gc: MultiGraphCore<N, E, DIRECTED, MAPADJ>,
    g2: MultiGraphCore<N, E, DIRECTED, MAPADJ>,
    e: EdgeIdx,
    esrc: NodeIdx,
    edst: NodeIdx,
)
    requires
        g0.inv(),
        g0.edges.is_live(e.index as int, e.generation),
        esrc == g0.edges.value_at(e.index as int).src,
        edst == g0.edges.value_at(e.index as int).dst,
        gc.edges == g0.edges,
        gc.nodes.wf(),
        gc.nodes.slot_count() == g0.nodes.slot_count(),
        gc.nodes.live_count() == g0.nodes.live_count(),
        forall|i: int|
            0 <= i < g0.nodes.slot_count() ==> #[trigger] gc.nodes.gen_at(i) == g0.nodes.gen_at(
                i,
            ),
        forall|i: int|
            0 <= i < g0.nodes.slot_count() ==> ((#[trigger] gc.nodes.slots_spec()[i]).value
                is Some == g0.nodes.slots_spec()[i].value is Some),
        forall|i: int, m: NodeIdx, x: EdgeIdx|
            0 <= i < g0.nodes.slot_count() && g0.nodes.slots_spec()[i].value is Some
                ==> #[trigger] gc.rec_at(i).to_multiset().count((m, x)) + (if x == e {
                orient_multiplicity(DIRECTED, true, esrc, edst, g0.owner_at(i), m)
            } else {
                0nat
            }) == g0.rec_at(i).to_multiset().count((m, x)),
        DIRECTED ==> forall|i: int, m: NodeIdx, x: EdgeIdx|
            0 <= i < g0.nodes.slot_count() && g0.nodes.slots_spec()[i].value is Some
                ==> #[trigger] gc.inc_at(i).to_multiset().count((m, x)) + (if x == e {
                in_multiplicity(true, esrc, edst, g0.owner_at(i), m)
            } else {
                0nat
            }) == g0.inc_at(i).to_multiset().count((m, x)),
        !DIRECTED ==> forall|i: int|
            0 <= i < g0.nodes.slot_count() && g0.nodes.slots_spec()[i].value is Some
                ==> #[trigger] gc.inc_at(i).len() == g0.inc_at(i).len(),
        g2.nodes == gc.nodes,
        g2.edges.wf(),
        g2.edges.slot_count() == g0.edges.slot_count(),
        g2.edges.live_count() == g0.edges.live_count() - 1,
        forall|j: int, h: u64|
            j != e.index as int ==> #[trigger] g2.edges.is_live(j, h) == g0.edges.is_live(j, h),
        forall|h: u64| !g2.edges.is_live(e.index as int, h),
        forall|j: int|
            0 <= j < g0.edges.slot_count() && j != e.index as int
                ==> #[trigger] g2.edges.slots_spec()[j] == g0.edges.slots_spec()[j],
    ensures
        g2.inv(),
{
    assert forall|m: NodeIdx|
        #[trigger] g2.nodes.is_live(m.index as int, m.generation) == g0.nodes.is_live(
            m.index as int,
            m.generation,
        ) by {
        let mi = m.index as int;
        if 0 <= mi && mi < g0.nodes.slot_count() {
            assert(gc.nodes.gen_at(mi) == g0.nodes.gen_at(mi));
            assert((gc.nodes.slots_spec()[mi]).value is Some == g0.nodes.slots_spec()[mi].value
                is Some);
        }
    }
    assert forall|j: int|
        0 <= j < g2.edges.slot_count() && (#[trigger] g2.edges.slots_spec()[j]).value
            is Some implies ({
        let ed = g2.edges.slots_spec()[j].value.unwrap();
        &&& g2.nodes.is_live(ed.src.index as int, ed.src.generation)
        &&& g2.nodes.is_live(ed.dst.index as int, ed.dst.generation)
    }) by {
        assert(j != e.index as int) by {
            if j == e.index as int {
                assert(g2.edges.is_live(j, g2.edges.gen_at(j)));
            }
        }
        assert(g0.edges.slots_spec()[j].value is Some);
        let ed = g0.edges.slots_spec()[j].value.unwrap();
        assert(g0.nodes.is_live(ed.src.index as int, ed.src.generation));
        assert(g0.nodes.is_live(ed.dst.index as int, ed.dst.generation));
    }
    assert forall|i2: int|
        0 <= i2 < g2.nodes.slot_count() && (#[trigger] g2.nodes.slots_spec()[i2]).value
            is Some implies g2.rec_ok_at(i2) by {
        let n2 = g2.owner_at(i2);
        assert(g0.nodes.slots_spec()[i2].value is Some);
        assert(g0.rec_ok_at(i2));
        assert(g2.owner_at(i2) == g0.owner_at(i2));
        assert forall|m: NodeIdx, x: EdgeIdx|
            #[trigger] g2.rec_at(i2).to_multiset().count((m, x)) == g2.out_owed(n2, m, x) by {
            assert(g0.rec_at(i2).to_multiset().count((m, x)) == g0.out_owed(n2, m, x));
            assert(gc.rec_at(i2).to_multiset().count((m, x)) + (if x == e {
                orient_multiplicity(DIRECTED, true, esrc, edst, n2, m)
            } else {
                0nat
            }) == g0.rec_at(i2).to_multiset().count((m, x)));
            if x == e {
                assert(g0.out_owed(n2, m, x) == orient_multiplicity(
                    DIRECTED,
                    true,
                    esrc,
                    edst,
                    n2,
                    m,
                ));
                assert(g2.out_owed(n2, m, x) == 0);
            } else {
                assert(g2.edges.is_live(x.index as int, x.generation) == g0.edges.is_live(
                    x.index as int,
                    x.generation,
                )) by {
                    if x.index as int == e.index as int {
                        assert(!g2.edges.is_live(x.index as int, x.generation));
                        if g0.edges.is_live(x.index as int, x.generation) {
                            assert(x.generation == g0.edges.gen_at(e.index as int));
                            assert(e.generation == g0.edges.gen_at(e.index as int));
                            assert(x == e);
                        }
                    }
                }
                if g0.edges.is_live(x.index as int, x.generation) {
                    assert(x.index as int != e.index as int);
                    assert(g2.edges.slots_spec()[x.index as int]
                        == g0.edges.slots_spec()[x.index as int]);
                }
            }
        }
        if DIRECTED {
            assert forall|m: NodeIdx, x: EdgeIdx|
                #[trigger] g2.inc_at(i2).to_multiset().count((m, x)) == g2.in_owed(
                    n2,
                    m,
                    x,
                ) by {
                assert(g0.inc_at(i2).to_multiset().count((m, x)) == g0.in_owed(n2, m, x));
                assert(gc.inc_at(i2).to_multiset().count((m, x)) + (if x == e {
                    in_multiplicity(true, esrc, edst, n2, m)
                } else {
                    0nat
                }) == g0.inc_at(i2).to_multiset().count((m, x)));
                if x == e {
                    assert(g0.in_owed(n2, m, x) == in_multiplicity(true, esrc, edst, n2, m));
                    assert(g2.in_owed(n2, m, x) == 0);
                } else {
                    assert(g2.edges.is_live(x.index as int, x.generation) == g0.edges.is_live(
                        x.index as int,
                        x.generation,
                    )) by {
                        if x.index as int == e.index as int {
                            assert(!g2.edges.is_live(x.index as int, x.generation));
                            if g0.edges.is_live(x.index as int, x.generation) {
                                assert(x.generation == g0.edges.gen_at(e.index as int));
                                assert(e.generation == g0.edges.gen_at(e.index as int));
                                assert(x == e);
                            }
                        }
                    }
                    if g0.edges.is_live(x.index as int, x.generation) {
                        assert(x.index as int != e.index as int);
                        assert(g2.edges.slots_spec()[x.index as int]
                            == g0.edges.slots_spec()[x.index as int]);
                    }
                }
            }
        } else {
            assert(gc.inc_at(i2).len() == g0.inc_at(i2).len());
            assert(g0.inc_at(i2).len() == 0);
        }
    }
}

/// After the cascade has removed every incident edge, freeing the node's
/// own slot restores the whole invariant.
#[verifier::rlimit(100)]
proof fn lemma_mremove_node_restores<N, E, const DIRECTED: bool, const MAPADJ: bool>(
    g0: MultiGraphCore<N, E, DIRECTED, MAPADJ>,
    gl: MultiGraphCore<N, E, DIRECTED, MAPADJ>,
    g2: MultiGraphCore<N, E, DIRECTED, MAPADJ>,
    n: NodeIdx,
    victims: Seq<EdgeIdx>,
)
    requires
        g0.inv(),
        g0.nodes.is_live(n.index as int, n.generation),
        forall|k2: int|
            0 <= k2 < victims.len() ==> crate::graphs::edge_live_in(
                g0.edges.slots_spec(),
                #[trigger] victims[k2],
            ) && (crate::graphs::edge_at(g0.edges.slots_spec(), victims[k2]).src == n
                || crate::graphs::edge_at(g0.edges.slots_spec(), victims[k2]).dst == n),
        forall|e2: EdgeIdx|
            crate::graphs::edge_live_in(g0.edges.slots_spec(), e2) && (crate::graphs::edge_at(
                g0.edges.slots_spec(),
                e2,
            ).src == n || crate::graphs::edge_at(g0.edges.slots_spec(), e2).dst == n)
                ==> victims.contains(e2),
        gl.inv(),
        forall|m: NodeIdx|
            #[trigger] gl.nodes.is_live(m.index as int, m.generation) == g0.nodes.is_live(
                m.index as int,
                m.generation,
            ),
        gl.nodes.slot_count() == g0.nodes.slot_count(),
        forall|e2: EdgeIdx|
            #[trigger] gl.edges.is_live(e2.index as int, e2.generation) == (g0.edges.is_live(
                e2.index as int,
                e2.generation,
            ) && !victims.contains(e2)),
        forall|e2: EdgeIdx|
            gl.edges.is_live(e2.index as int, e2.generation) ==> #[trigger] gl.edges.value_at(
                e2.index as int,
            ) == g0.edges.value_at(e2.index as int),
        g2.edges == gl.edges,
        g2.nodes.wf(),
        g2.nodes.slot_count() == gl.nodes.slot_count(),
        forall|j: int, h: u64|
            j != n.index as int ==> #[trigger] g2.nodes.is_live(j, h) == gl.nodes.is_live(j, h),
        forall|h: u64| !g2.nodes.is_live(n.index as int, h),
        forall|j: int|
            0 <= j < gl.nodes.slot_count() && j != n.index as int
                ==> #[trigger] g2.nodes.slots_spec()[j] == gl.nodes.slots_spec()[j],
    ensures
        g2.inv(),
{
    assert forall|j: int|
        0 <= j < g2.edges.slot_count() && (#[trigger] g2.edges.slots_spec()[j]).value
            is Some implies ({
        let ed = g2.edges.slots_spec()[j].value.unwrap();
        &&& g2.nodes.is_live(ed.src.index as int, ed.src.generation)
        &&& g2.nodes.is_live(ed.dst.index as int, ed.dst.generation)
    }) by {
        let eh = EdgeIdx { index: j as usize, generation: gl.edges.gen_at(j) };
        assert(gl.edges.is_live(j, gl.edges.gen_at(j)));
        assert(g0.edges.is_live(eh.index as int, eh.generation) && !victims.contains(eh));
        assert(g0.edges.slots_spec()[j].value is Some);
        let ed = gl.edges.slots_spec()[j].value.unwrap();
        assert(gl.edges.value_at(j) == g0.edges.value_at(j));
        assert(g0.nodes.is_live(ed.src.index as int, ed.src.generation));
        assert(g0.nodes.is_live(ed.dst.index as int, ed.dst.generation));
        assert(ed.src != n && ed.dst != n) by {
            if ed.src == n || ed.dst == n {
                assert(crate::graphs::edge_live_in(g0.edges.slots_spec(), eh));
                assert(victims.contains(eh));
            }
        }
        assert(g2.nodes.is_live(ed.src.index as int, ed.src.generation)) by {
            if ed.src.index as int == n.index as int {
                assert(ed.src.generation == g0.nodes.gen_at(n.index as int));
                assert(n.generation == g0.nodes.gen_at(n.index as int));
                assert(ed.src == n);
            }
        }
        assert(g2.nodes.is_live(ed.dst.index as int, ed.dst.generation)) by {
            if ed.dst.index as int == n.index as int {
                assert(ed.dst.generation == g0.nodes.gen_at(n.index as int));
                assert(n.generation == g0.nodes.gen_at(n.index as int));
                assert(ed.dst == n);
            }
        }
    }
    assert forall|i2: int|
        0 <= i2 < g2.nodes.slot_count() && (#[trigger] g2.nodes.slots_spec()[i2]).value
            is Some implies g2.rec_ok_at(i2) by {
        assert(i2 != n.index as int) by {
            if i2 == n.index as int {
                assert(g2.nodes.is_live(i2, g2.nodes.gen_at(i2)));
            }
        }
        assert(g2.nodes.slots_spec()[i2] == gl.nodes.slots_spec()[i2]);
        assert(gl.rec_ok_at(i2));
        assert(g2.owner_at(i2) == gl.owner_at(i2));
        assert forall|m: NodeIdx, x: EdgeIdx|
            #[trigger] g2.rec_at(i2).to_multiset().count((m, x)) == g2.out_owed(
                g2.owner_at(i2),
                m,
                x,
            ) by {
            assert(gl.rec_at(i2).to_multiset().count((m, x)) == gl.out_owed(
                gl.owner_at(i2),
                m,
                x,
            ));
        }
        if DIRECTED {
            assert forall|m: NodeIdx, x: EdgeIdx|
                #[trigger] g2.inc_at(i2).to_multiset().count((m, x)) == g2.in_owed(
                    g2.owner_at(i2),
                    m,
                    x,
                ) by {
                assert(gl.inc_at(i2).to_multiset().count((m, x)) == gl.in_owed(
                    gl.owner_at(i2),
                    m,
                    x,
                ));
            }
        } else {
            assert(gl.inc_at(i2).len() == 0);
        }
    }
}

/// Turns the per-slot record updates of an edge insertion into the uniform
/// per-node multiplicity deltas that the invariant proof consumes.
#[verifier::rlimit(100)]
proof fn lemma_uniform_add_counts<N, E, const DIRECTED: bool, const MAPADJ: bool>(
    g0: MultiGraphCore<N, E, DIRECTED, MAPADJ>,
    g2: MultiGraphCore<N, E, DIRECTED, MAPADJ>,
    src: NodeIdx,
    dst: NodeIdx,
    e: EdgeIdx,
)
    requires
        g0.inv(),
        g0.nodes.is_live(src.index as int, src.generation),
        g0.nodes.is_live(dst.index as int, dst.generation),
        g2.nodes.slot_count() == g0.nodes.slot_count(),
        forall|i: int|
            0 <= i < g0.nodes.slot_count() && i != src.index as int && i != dst.index as int
                ==> #[trigger] g2.nodes.slots_spec()[i] == g0.nodes.slots_spec()[i],
        g2.rec_at(src.index as int).to_multiset() == (if !DIRECTED && src == dst {
            g0.rec_at(src.index as int).to_multiset().insert((dst, e)).insert((src, e))
        } else {
            g0.rec_at(src.index as int).to_multiset().insert((dst, e))
        }),
        src != dst ==> g2.rec_at(dst.index as int).to_multiset() == (if DIRECTED {
            g0.rec_at(dst.index as int).to_multiset()
        } else {
            g0.rec_at(dst.index as int).to_multiset().insert((src, e))
        }),
        DIRECTED ==> g2.inc_at(dst.index as int).to_multiset() == g0.inc_at(
            dst.index as int,
        ).to_multiset().insert((src, e)),
        DIRECTED && src != dst ==> g2.inc_at(src.index as int).to_multiset() == g0.inc_at(
            src.index as int,
        ).to_multiset(),
        !DIRECTED ==> g2.inc_at(src.index as int) == g0.inc_at(src.index as int) && g2.inc_at(
            dst.index as int,
        ) == g0.inc_at(dst.index as int),
    ensures
        forall|i: int, m: NodeIdx, x: EdgeIdx|
            0 <= i < g0.nodes.slot_count() && g0.nodes.slots_spec()[i].value is Some
                ==> #[trigger] g2.rec_at(i).to_multiset().count((m, x)) == g0.rec_at(
                i,
            ).to_multiset().count((m, x)) + (if x == e {
                orient_multiplicity(DIRECTED, true, src, dst, g0.owner_at(i), m)
            } else {
                0nat
            }),
        DIRECTED ==> forall|i: int, m: NodeIdx, x: EdgeIdx|
            0 <= i < g0.nodes.slot_count() && g0.nodes.slots_spec()[i].value is Some
                ==> #[trigger] g2.inc_at(i).to_multiset().count((m, x)) == g0.inc_at(
                i,
            ).to_multiset().count((m, x)) + (if x == e {
                in_multiplicity(true, src, dst, g0.owner_at(i), m)
            } else {
                0nat
            }),
        !DIRECTED ==> forall|i: int|
            0 <= i < g0.nodes.slot_count() && g0.nodes.slots_spec()[i].value is Some
                ==> #[trigger] g2.inc_at(i).len() == g0.inc_at(i).len(),
    {
    let si = src.index as int;
    let di = dst.index as int;
    assert(g0.owner_at(si) == src);
    assert(g0.owner_at(di) == dst);
    assert forall|i: int, m: NodeIdx, x: EdgeIdx|
        0 <= i < g0.nodes.slot_count() && g0.nodes.slots_spec()[i].value is Some
            implies #[trigger] g2.rec_at(i).to_multiset().count((m, x)) == g0.rec_at(
            i,
        ).to_multiset().count((m, x)) + (if x == e {
            orient_multiplicity(DIRECTED, true, src, dst, g0.owner_at(i), m)
        } else {
            0nat
        }) by {
        let n2 = g0.owner_at(i);
        if i == si || i == di {
            if src == dst {
                assert(n2 == src);
            } else {
                assert(src != dst);
                if i == si {
                    assert(n2 == src);
                    assert(n2 != dst) by {
                        if n2 == dst {
                            assert(di == si);
                        }
                    }
                } else {
                    assert(n2 == dst);
                    assert(n2 != src) by {
                        if n2 == src {
                            assert(si == di);
                        }
                    }
                }
            }
        } else {
            assert(g2.nodes.slots_spec()[i] == g0.nodes.slots_spec()[i]);
            assert(n2 != src) by {
                if n2 == src {
                    assert(n2.index as int == i);
                }
            }
            assert(n2 != dst) by {
                if n2 == dst {
                    assert(n2.index as int == i);
                }
            }
        }
    }
    if DIRECTED {
        assert forall|i: int, m: NodeIdx, x: EdgeIdx|
            0 <= i < g0.nodes.slot_count() && g0.nodes.slots_spec()[i].value is Some
                implies #[trigger] g2.inc_at(i).to_multiset().count((m, x)) == g0.inc_at(
                i,
            ).to_multiset().count((m, x)) + (if x == e {
                in_multiplicity(true, src, dst, g0.owner_at(i), m)
            } else {
                0nat
            }) by {
            let n2 = g0.owner_at(i);
            if i == di {
                assert(n2 == dst);
            } else if i == si {
                assert(n2 == src);
                assert(n2 != dst) by {
                    if n2 == dst {
                        assert(di == si);
                    }
                }
            } else {
                assert(g2.nodes.slots_spec()[i] == g0.nodes.slots_spec()[i]);
                assert(n2 != dst) by {
                    if n2 == dst {
                        assert(n2.index as int == i);
                    }
                }
            }
        }
    } else {
        assert forall|i: int|
            0 <= i < g0.nodes.slot_count() && g0.nodes.slots_spec()[i].value is Some
                implies #[trigger] g2.inc_at(i).len() == g0.inc_at(i).len() by {
            if i != si && i != di {
                assert(g2.nodes.slots_spec()[i] == g0.nodes.slots_spec()[i]);
            }
        }
    }
}

/// Turns the per-slot record updates of an edge removal into the uniform
/// per-node multiplicity deltas that the invariant proof consumes.
#[verifier::rlimit(100)]
proof fn lemma_uniform_remove_counts<N, E, const DIRECTED: bool, const MAPADJ: bool>(
    g0: MultiGraphCore<N, E, DIRECTED, MAPADJ>,
    g2: MultiGraphCore<N, E, DIRECTED, MAPADJ>,
    esrc: NodeIdx,
    edst: NodeIdx,
    e: EdgeIdx,
)
    requires
        g0.inv(),
        g0.edges.is_live(e.index as int, e.generation),
        esrc == g0.edges.value_at(e.index as int).src,
        edst == g0.edges.value_at(e.index as int).dst,
        g2.nodes.slot_count() == g0.nodes.slot_count(),
        forall|i: int|
            0 <= i < g0.nodes.slot_count() && i != esrc.index as int && i != edst.index as int
                ==> #[trigger] g2.nodes.slots_spec()[i] == g0.nodes.slots_spec()[i],
        g2.rec_at(esrc.index as int).to_multiset() == (if !DIRECTED && esrc == edst {
            g0.rec_at(esrc.index as int).to_multiset().remove((edst, e)).remove((esrc, e))
        } else {
            g0.rec_at(esrc.index as int).to_multiset().remove((edst, e))
        }),
        esrc != edst ==> g2.rec_at(edst.index as int).to_multiset() == (if DIRECTED {
            g0.rec_at(edst.index as int).to_multiset()
        } else {
            g0.rec_at(edst.index as int).to_multiset().remove((esrc, e))
        }),
        DIRECTED ==> g2.inc_at(edst.index as int).to_multiset() == g0.inc_at(
            edst.index as int,
        ).to_multiset().remove((esrc, e)),
        DIRECTED && esrc != edst ==> g2.inc_at(esrc.index as int).to_multiset() == g0.inc_at(
            esrc.index as int,
        ).to_multiset(),
        !DIRECTED ==> g2.inc_at(esrc.index as int) == g0.inc_at(esrc.index as int) && g2.inc_at(
            edst.index as int,
        ) == g0.inc_at(edst.index as int),
    ensures
        forall|i: int, m: NodeIdx, x: EdgeIdx|
            0 <= i < g0.nodes.slot_count() && g0.nodes.slots_spec()[i].value is Some
                ==> #[trigger] g2.rec_at(i).to_multiset().count((m, x)) + (if x == e {
                orient_multiplicity(DIRECTED, true, esrc, edst, g0.owner_at(i), m)
            } else {
                0nat
            }) == g0.rec_at(i).to_multiset().count((m, x)),
        DIRECTED ==> forall|i: int, m: NodeIdx, x: EdgeIdx|
            0 <= i < g0.nodes.slot_count() && g0.nodes.slots_spec()[i].value is Some
                ==> #[trigger] g2.inc_at(i).to_multiset().count((m, x)) + (if x == e {
                in_multiplicity(true, esrc, edst, g0.owner_at(i), m)
            } else {
                0nat
            }) == g0.inc_at(i).to_multiset().count((m, x)),
        !DIRECTED ==> forall|i: int|
            0 <= i < g0.nodes.slot_count() && g0.nodes.slots_spec()[i].value is Some
                ==> #[trigger] g2.inc_at(i).len() == g0.inc_at(i).len(),
    {
    let si = esrc.index as int;
    let di = edst.index as int;
    assert(g0.edges.slots_spec()[e.index as int].value is Some);
    assert(g0.nodes.is_live(si, esrc.generation));
    assert(g0.nodes.is_live(di, edst.generation));
    assert(g0.owner_at(si) == esrc);
    assert(g0.owner_at(di) == edst);
    assert(g0.rec_ok_at(si));
    assert(g0.rec_ok_at(di));
    assert forall|i: int, m: NodeIdx, x: EdgeIdx|
        0 <= i < g0.nodes.slot_count() && g0.nodes.slots_spec()[i].value is Some
            implies #[trigger] g2.rec_at(i).to_multiset().count((m, x)) + (if x == e {
            orient_multiplicity(DIRECTED, true, esrc, edst, g0.owner_at(i), m)
        } else {
            0nat
        }) == g0.rec_at(i).to_multiset().count((m, x)) by {
        let n2 = g0.owner_at(i);
        assert(g0.rec_at(i).to_multiset().count((m, x)) == g0.out_owed(n2, m, x));
        if i == si || i == di {
            if esrc == edst {
                assert(n2 == esrc);
                if !DIRECTED {
                    if m == esrc && x == e {
                        assert(g0.rec_at(si).to_multiset().count((esrc, e)) == 2);
                    }
                } else {
                    if m == edst && x == e {
                        assert(g0.rec_at(si).to_multiset().count((edst, e)) == 1);
                    }
                }
            } else {
                if i == si {
                    assert(n2 == esrc);
                    assert(n2 != edst) by {
                        if n2 == edst {
                            assert(di == si);
                        }
                    }
                    if m == edst && x == e {
                        assert(g0.rec_at(si).to_multiset().count((edst, e)) >= 1);
                    }
                } else {
                    assert(n2 == edst);
                    assert(n2 != esrc) by {
                        if n2 == esrc {
                            assert(si == di);
                        }
                    }
                    if !DIRECTED && m == esrc && x == e {
                        assert(g0.rec_at(di).to_multiset().count((esrc, e)) >= 1);
                    }
                }
            }
        } else {
            assert(g2.nodes.slots_spec()[i] == g0.nodes.slots_spec()[i]);
            assert(n2 != esrc) by {
                if n2 == esrc {
                    assert(n2.index as int == i);
                }
            }
            assert(n2 != edst) by {
                if n2 == edst {
                    assert(n2.index as int == i);
                }
            }
        }
    }
    if DIRECTED {
        assert forall|i: int, m: NodeIdx, x: EdgeIdx|
            0 <= i < g0.nodes.slot_count() && g0.nodes.slots_spec()[i].value is Some
                implies #[trigger] g2.inc_at(i).to_multiset().count((m, x)) + (if x == e {
                in_multiplicity(true, esrc, edst, g0.owner_at(i), m)
            } else {
                0nat
            }) == g0.inc_at(i).to_multiset().count((m, x)) by {
            let n2 = g0.owner_at(i);
            assert(g0.inc_at(i).to_multiset().count((m, x)) == g0.in_owed(n2, m, x));
            if i == di {
                assert(n2 == edst);
                if m == esrc && x == e {
                    assert(g0.inc_at(di).to_multiset().count((esrc, e)) >= 1);
                }
            } else if i == si {
                assert(n2 == esrc);
                assert(n2 != edst) by {
                    if n2 == edst {
                        assert(di == si);
                    }
                }
            } else {
                assert(g2.nodes.slots_spec()[i] == g0.nodes.slots_spec()[i]);
                assert(n2 != edst) by {
                    if n2 == edst {
                        assert(n2.index as int == i);
                    }
                }
            }
        }
    } else {
        assert forall|i: int|
            0 <= i < g0.nodes.slot_count() && g0.nodes.slots_spec()[i].value is Some
                implies #[trigger] g2.inc_at(i).len() == g0.inc_at(i).len() by {
            if i != si && i != di {
                assert(g2.nodes.slots_spec()[i] == g0.nodes.slots_spec()[i]);
            }
        }
    }
}

impl<N, E, const DIRECTED: bool, const MAPADJ: bool> MultiGraphCore<N, E, DIRECTED, MAPADJ> {
    /// Creates an empty graph with room reserved for about `nodes` nodes
    /// and `edges` edges; a pure performance hint.
    pub fn with_capacity(nodes: usize, edges: usize) -> (r: Self)
        ensures
            r.wf(),
            r.node_count_spec() == 0,
            r.edge_count_spec() == 0,
            r.node_slot_count() == 0,
            r.edge_slot_count() == 0,
            forall|n: NodeIdx| !(#[trigger] r.has_node_spec(n)),
            forall|e: EdgeIdx| !(#[trigger] r.has_edge_spec(e)),
    {
        MultiGraphCore { nodes: Arena::with_capacity(nodes), edges: Arena::with_capacity(edges) }
    }
}

impl<N, E, const DIRECTED: bool, const MAPADJ: bool> Default for MultiGraphCore<
    N,
    E,
    DIRECTED,
    MAPADJ,
> {
    /// An empty graph, exactly as `new` builds it.
    fn default() -> (r: Self)
        ensures
            r.wf(),
            r.node_count_spec() == 0,
            r.edge_count_spec() == 0,
            forall|n: NodeIdx| !(#[trigger] r.has_node_spec(n)),
            forall|e: EdgeIdx| !(#[trigger] r.has_edge_spec(e)),
    {
        MultiGraphCore { nodes: Arena::new(), edges: Arena::new() }
    }
}

} // verus!
