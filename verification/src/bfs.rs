//! Breadth-first traversal, driven purely through the [`Graph`] contract.

use crate::graphs::{lemma_take_all, Graph};
use crate::keys::{EdgeIdx, NodeIdx};
use std::collections::VecDeque;
use vstd::prelude::*;

verus! {

/// Whether `v@` holds the node `m`; a linear scan.
fn holds_node(v: &Vec<NodeIdx>, m: NodeIdx) -> (r: bool)
    ensures
        r == v@.contains(m),
{
    let n = v.len();
    let mut k: usize = 0;
    while k < n
        invariant
            n == v@.len(),
            k <= n,
            forall|j: int| 0 <= j < k ==> v@[j] != m,
        decreases n - k,
    {
        if v[k] == m {
            proof {
                assert(v@[k as int] == m);
            }
            return true;
        }
        k = k + 1;
    }
    false
}

/// Membership in a concatenation is membership in either part.
proof fn lemma_concat_contains<A>(a: Seq<A>, b: Seq<A>, v: A)
    ensures
        (a + b).contains(v) <==> (a.contains(v) || b.contains(v)),
{
    if (a + b).contains(v) {
        let k = choose|k: int| 0 <= k < (a + b).len() && (a + b)[k] == v;
        if k < a.len() {
            assert(a[k] == v);
        } else {
            assert(b[k - a.len()] == v);
        }
    }
    if a.contains(v) {
        let k = choose|k: int| 0 <= k < a.len() && a[k] == v;
        assert((a + b)[k] == v);
    }
    if b.contains(v) {
        let k = choose|k: int| 0 <= k < b.len() && b[k] == v;
        assert((a + b)[k + a.len()] == v);
    }
}

/// Membership in a pushed sequence is membership before, or the new element.
proof fn lemma_push_contains<A>(s: Seq<A>, x: A, v: A)
    ensures
        s.push(x).contains(v) <==> (s.contains(v) || v == x),
{
    if s.push(x).contains(v) {
        let k = choose|k: int| 0 <= k < s.push(x).len() && s.push(x)[k] == v;
        if k < s.len() {
            assert(s[k] == v);
        }
    }
    if s.contains(v) {
        let k = choose|k: int| 0 <= k < s.len() && s[k] == v;
        assert(s.push(x)[k] == v);
    }
    if v == x {
        assert(s.push(x)[s.len() as int] == v);
    }
}

/// The nodes one traversal step marks and enqueues: the neighbors named by
/// the adjacency entries `adj`, in record order, first occurrence only,
/// that are not already in `vis`.
pub open spec fn new_frontier(vis: Seq<NodeIdx>, adj: Seq<(NodeIdx, EdgeIdx)>) -> Seq<NodeIdx>
    decreases adj.len(),
{
    if adj.len() == 0 {
        Seq::empty()
    } else if vis.contains(adj.first().0) {
        new_frontier(vis, adj.drop_first())
    } else {
        seq![adj.first().0] + new_frontier(vis.push(adj.first().0), adj.drop_first())
    }
}

/// Extending the adjacency entries by one grows the frontier by the new
/// neighbor exactly when neither the visited set nor the frontier so far
/// holds it: the unfolding a left-to-right expansion loop maintains.
proof fn lemma_new_frontier_push(
    vis: Seq<NodeIdx>,
    adj: Seq<(NodeIdx, EdgeIdx)>,
    x: (NodeIdx, EdgeIdx),
)
    ensures
        new_frontier(vis, adj.push(x)) == (if vis.contains(x.0) || new_frontier(
            vis,
            adj,
        ).contains(x.0) {
            new_frontier(vis, adj)
        } else {
            new_frontier(vis, adj).push(x.0)
        }),
    decreases adj.len(),
{
    if adj.len() == 0 {
        assert(adj.push(x).first() == x);
        assert(adj.push(x).drop_first() =~= Seq::<(NodeIdx, EdgeIdx)>::empty());
        assert(new_frontier(vis, adj) == Seq::<NodeIdx>::empty());
        if vis.contains(x.0) {
            assert(new_frontier(vis, adj.push(x)) == new_frontier(
                vis,
                Seq::<(NodeIdx, EdgeIdx)>::empty(),
            ));
        } else {
            assert(new_frontier(vis.push(x.0), adj.push(x).drop_first()) == Seq::<
                NodeIdx,
            >::empty());
            assert(new_frontier(vis, adj.push(x)) =~= Seq::<NodeIdx>::empty().push(x.0));
        }
    } else {
        let m = adj.first().0;
        assert(adj.push(x).first() == adj.first());
        assert(adj.push(x).drop_first() =~= adj.drop_first().push(x));
        if vis.contains(m) {
            lemma_new_frontier_push(vis, adj.drop_first(), x);
        } else {
            lemma_new_frontier_push(vis.push(m), adj.drop_first(), x);
            let tail = new_frontier(vis.push(m), adj.drop_first());
            lemma_push_contains(vis, m, x.0);
            lemma_concat_contains(seq![m], tail, x.0);
            assert(seq![m].contains(x.0) <==> x.0 == m) by {
                if seq![m].contains(x.0) {
                    let k = choose|k: int| 0 <= k < 1 && seq![m][k] == x.0;
                    assert(seq![m][0] == m);
                }
                assert(seq![m][0] == m);
            }
            assert(new_frontier(vis, adj) == seq![m] + tail);
            if vis.push(m).contains(x.0) || tail.contains(x.0) {
                assert(vis.contains(x.0) || new_frontier(vis, adj).contains(x.0));
                assert(new_frontier(vis, adj.push(x)) == seq![m] + tail);
            } else {
                assert(!(vis.contains(x.0) || new_frontier(vis, adj).contains(x.0)));
                assert(new_frontier(vis, adj.push(x)) == seq![m] + tail.push(x.0));
                assert(seq![m] + tail.push(x.0) =~= (seq![m] + tail).push(x.0));
            }
        }
    }
}

/// Breadth-first search over any graph variant.
///
/// When `d` is the distance from the start node, every node at `d == 1` is
/// produced before any node at `d == 2`, and so on; ties follow the
/// adjacency record order of the graph.  The traversal holds no borrow of
/// the graph between calls, but the graph must not be mutated while a
/// traversal over it is in progress: each call requires that everything the
/// traversal has visited is still live.
pub struct BreadthFirstSearch {
    queue: VecDeque<NodeIdx>,
    visited: Vec<NodeIdx>,
    yielded: Ghost<Seq<NodeIdx>>,
}

impl BreadthFirstSearch {
    /// The nodes waiting to be produced, front first.
    pub closed spec fn queue_spec(&self) -> Seq<NodeIdx> {
        self.queue@
    }

    /// Every node the traversal has marked, produced or pending.
    pub closed spec fn visited_spec(&self) -> Seq<NodeIdx> {
        self.visited@
    }

    /// The nodes produced so far, in order.
    pub closed spec fn yielded_spec(&self) -> Seq<NodeIdx> {
        self.yielded@
    }

    /// The traversal's own invariant: no node is queued or produced twice,
    /// a queued node is never one already produced, and the visited set is
    /// exactly the produced nodes plus the queue.
    pub closed spec fn inv(&self) -> bool {
        &&& forall|k1: int, k2: int|
            0 <= k1 < k2 < self.queue@.len() ==> self.queue@[k1] != self.queue@[k2]
        &&& forall|k1: int, k2: int|
            0 <= k1 < k2 < self.yielded@.len() ==> self.yielded@[k1] != self.yielded@[k2]
        &&& forall|v: NodeIdx|
            #[trigger] self.visited@.contains(v) <==> (self.yielded@.contains(v)
                || self.queue@.contains(v))
        &&& forall|v: NodeIdx|
            !(#[trigger] self.yielded@.contains(v) && self.queue@.contains(v))
    }

    /// Whether the traversal fits the graph `g`: everything it has marked
    /// is live there.  Mutating the graph mid-traversal breaks this, which
    /// is exactly why that is ruled out.
    pub open spec fn valid_for<N, E, G: Graph<N, E>>(&self, g: G) -> bool {
        forall|v: NodeIdx| #[trigger] self.visited_spec().contains(v) ==> g.has_node_spec(v)
    }

    /// Starts a traversal at `start`: the start node is marked visited and
    /// queued.
    pub fn new(start: NodeIdx) -> (r: Self)
        ensures
            r.inv(),
            r.queue_spec() == seq![start],
            r.visited_spec() == seq![start],
            r.yielded_spec() == Seq::<NodeIdx>::empty(),
    {
        let mut queue: VecDeque<NodeIdx> = VecDeque::new();
        let mut visited: Vec<NodeIdx> = Vec::new();
        visited.push(start);
        queue.push_back(start);
        proof {
            assert(queue@ =~= seq![start]);
            assert(visited@ =~= seq![start]);
        }
        BreadthFirstSearch { queue, visited, yielded: Ghost(Seq::empty()) }
    }

    /// Starts a traversal at `start`, reserving room for about `node_count`
    /// nodes; a pure performance hint with no behavioral difference.
    pub fn with_capacity(start: NodeIdx, node_count: usize) -> (r: Self)
        ensures
            r.inv(),
            r.queue_spec() == seq![start],
            r.visited_spec() == seq![start],
            r.yielded_spec() == Seq::<NodeIdx>::empty(),
    {
        let mut queue: VecDeque<NodeIdx> = VecDeque::with_capacity(node_count);
        let mut visited: Vec<NodeIdx> = Vec::with_capacity(node_count);
        visited.push(start);
        queue.push_back(start);
        proof {
            assert(queue@ =~= seq![start]);
            assert(visited@ =~= seq![start]);
        }
        BreadthFirstSearch { queue, visited, yielded: Ghost(Seq::empty()) }
    }

    /// Produces a reference to the payload of the next node: the queue
    /// front is popped, returned, and every not-yet-visited neighbor on an
    /// outgoing edge is marked and queued (marking before queueing keeps a
    /// node reachable over several edges from being queued twice).  Returns
    /// `None` once the queue is empty; a produced node is never produced
    /// again.
    pub fn next<'g, N, E, G: Graph<N, E>>(&mut self, graph: &'g G) -> (r: Option<&'g N>)
        requires
            old(self).inv(),
            graph.wf(),
            old(self).valid_for(*graph),
        ensures
            final(self).inv(),
            final(self).valid_for(*graph),
            match r {
                None => {
                    &&& old(self).queue_spec().len() == 0
                    &&& *final(self) == *old(self)
                },
                Some(p) => {
                    &&& old(self).queue_spec().len() > 0
                    &&& graph.has_node_spec(old(self).queue_spec()[0])
                    &&& *p == graph.node_value_spec(old(self).queue_spec()[0])
                    &&& final(self).yielded_spec() == old(self).yielded_spec().push(
                        old(self).queue_spec()[0],
                    )
                    &&& !old(self).yielded_spec().contains(old(self).queue_spec()[0])
                    &&& final(self).visited_spec() == old(self).visited_spec()
                        + new_frontier(
                        old(self).visited_spec(),
                        graph.adj_seq(old(self).queue_spec()[0]),
                    )
                    &&& final(self).queue_spec() == old(self).queue_spec().drop_first()
                        + new_frontier(
                        old(self).visited_spec(),
                        graph.adj_seq(old(self).queue_spec()[0]),
                    )
                    &&& forall|v: NodeIdx|
                        old(self).visited_spec().contains(v) ==> #[trigger] final(self).visited_spec().contains(v)
                },
            },
    {
        if self.queue.len() == 0 {
            return None;
        }
        match self.queue.pop_front() {
            None => {
                proof {
                    assert(false);
                }
                None
            },
            Some(node) => {
                proof {
                    assert(old(self).queue@[0] == node);
                    assert(old(self).queue@.contains(node)) by {
                        assert(old(self).queue@[0] == node);
                    }
                    assert(self.visited@.contains(node));
                    assert(!old(self).yielded@.contains(node));
                    assert forall|k1: int, k2: int|
                        0 <= k1 < k2 < self.queue@.len() implies self.queue@[k1]
                        != self.queue@[k2] by {
                        assert(old(self).queue@[k1 + 1] == self.queue@[k1]);
                        assert(old(self).queue@[k2 + 1] == self.queue@[k2]);
                    }
                    assert(!self.queue@.contains(node)) by {
                        if self.queue@.contains(node) {
                            let k = choose|k: int|
                                0 <= k < self.queue@.len() && self.queue@[k] == node;
                            assert(old(self).queue@[k + 1] == node);
                            assert(old(self).queue@[0] == node);
                        }
                    }
                }
                proof {
                    assert(old(self).visited_spec().contains(node));
                    assert(graph.has_node_spec(node));
                }
                self.yielded = Ghost(self.yielded@.push(node));
                let ghost yielded1 = self.yielded@;
                proof {
                    let oldq = old(self).queue@;
                    let oldy = old(self).yielded@;
                    assert(self.yielded@[self.yielded@.len() - 1] == node);
                    assert(self.yielded@.contains(node));
                    assert forall|k1: int, k2: int|
                        0 <= k1 < k2 < self.yielded@.len() implies self.yielded@[k1]
                        != self.yielded@[k2] by {
                        if k2 == self.yielded@.len() - 1 {
                            assert(self.yielded@[k1] == oldy[k1]);
                            assert(oldy.contains(oldy[k1]));
                        }
                    }
                    assert forall|v: NodeIdx|
                        #[trigger] self.visited@.contains(v) <==> (self.yielded@.contains(v)
                            || self.queue@.contains(v)) by {
                        if self.visited@.contains(v) {
                            assert(oldy.contains(v) || oldq.contains(v));
                            if oldy.contains(v) {
                                let kk = choose|kk: int| 0 <= kk < oldy.len() && oldy[kk] == v;
                                assert(self.yielded@[kk] == v);
                            } else {
                                let kk = choose|kk: int| 0 <= kk < oldq.len() && oldq[kk] == v;
                                if kk == 0 {
                                    assert(v == node);
                                } else {
                                    assert(self.queue@[kk - 1] == v);
                                }
                            }
                        } else {
                            if self.yielded@.contains(v) {
                                let kk = choose|kk: int|
                                    0 <= kk < self.yielded@.len() && self.yielded@[kk] == v;
                                if kk < oldy.len() {
                                    assert(oldy[kk] == v);
                                    assert(old(self).visited@.contains(v));
                                } else {
                                    assert(v == node);
                                    assert(old(self).visited@.contains(node));
                                }
                                assert(false);
                            }
                            if self.queue@.contains(v) {
                                let kk = choose|kk: int|
                                    0 <= kk < self.queue@.len() && self.queue@[kk] == v;
                                assert(oldq[kk + 1] == v);
                                assert(oldq.contains(v));
                                assert(old(self).visited@.contains(v));
                                assert(false);
                            }
                        }
                    }
                    assert forall|v: NodeIdx|
                        !(#[trigger] self.yielded@.contains(v) && self.queue@.contains(v)) by {
                        if self.yielded@.contains(v) && self.queue@.contains(v) {
                            let kq = choose|kq: int|
                                0 <= kq < self.queue@.len() && self.queue@[kq] == v;
                            assert(oldq[kq + 1] == v);
                            assert(oldq.contains(v));
                            let ky = choose|ky: int|
                                0 <= ky < self.yielded@.len() && self.yielded@[ky] == v;
                            if ky < oldy.len() {
                                assert(oldy[ky] == v);
                                assert(oldy.contains(v));
                                assert(oldq.contains(v));
                                assert(false);
                            } else {
                                assert(v == node);
                                assert(oldq[0] == node);
                                assert(oldq[kq + 1] == oldq[0]);
                                assert(false);
                            }
                        }
                    }
                    assert(self.inv());
                }
                let nbrs = graph.edges_of(node);
                proof {
                    assert forall|j: int|
                        0 <= j < nbrs@.len() implies graph.has_node_spec(
                        #[trigger] nbrs@[j].0,
                    ) by {
                        graph.lemma_adj_entry(node, j);
                    }
                }
                proof {
                    assert(nbrs@.take(0) =~= Seq::<(NodeIdx, EdgeIdx)>::empty());
                    assert(new_frontier(old(self).visited@, nbrs@.take(0)) == Seq::<
                        NodeIdx,
                    >::empty());
                    assert(self.visited@ =~= old(self).visited@ + Seq::<NodeIdx>::empty());
                    assert(self.queue@ =~= old(self).queue@.drop_first() + Seq::<
                        NodeIdx,
                    >::empty());
                }
                let len = nbrs.len();
                let mut k: usize = 0;
                while k < len
                    invariant
                        len == nbrs@.len(),
                        k <= len,
                        graph.wf(),
                        forall|j: int|
                            0 <= j < nbrs@.len() ==> graph.has_node_spec(#[trigger] nbrs@[j].0),
                        self.yielded@ == yielded1,
                        self.yielded@.contains(node),
                        self.visited@ == old(self).visited@ + new_frontier(
                            old(self).visited@,
                            nbrs@.take(k as int),
                        ),
                        self.queue@ == old(self).queue@.drop_first() + new_frontier(
                            old(self).visited@,
                            nbrs@.take(k as int),
                        ),
                        self.inv(),
                        forall|v: NodeIdx|
                            #[trigger] self.visited@.contains(v) ==> graph.has_node_spec(v),
                        forall|v: NodeIdx|
                            old(self).visited@.contains(v) ==> #[trigger] self.visited@.contains(
                                v,
                            ),
                    decreases len - k,
                {
                    let p = nbrs[k];
                    let m = p.0;
                    let ghost qpre = self.queue@;
                    let ghost vpre = self.visited@;
                    let seen = holds_node(&self.visited, m);
                    if !seen {
                        self.visited.push(m);
                        self.queue.push_back(m);
                        proof {
                            assert(!vpre.contains(m));
                            assert(!qpre.contains(m));
                            assert(!yielded1.contains(m));
                            assert forall|v: NodeIdx|
                                #[trigger] self.visited@.contains(v) <==> (
                                self.yielded@.contains(v) || self.queue@.contains(v)) by {
                                if self.visited@.contains(v) {
                                    if v == m {
                                        assert(self.queue@[self.queue@.len() - 1] == m);
                                    } else {
                                        assert(vpre.contains(v)) by {
                                            let kk = choose|kk: int|
                                                0 <= kk < self.visited@.len()
                                                    && self.visited@[kk] == v;
                                            assert(kk < vpre.len());
                                            assert(vpre[kk] == v);
                                        }
                                        if qpre.contains(v) {
                                            let kk = choose|kk: int|
                                                0 <= kk < qpre.len() && qpre[kk] == v;
                                            assert(self.queue@[kk] == v);
                                        }
                                    }
                                } else {
                                    assert(!vpre.contains(m));
                                    if self.yielded@.contains(v) {
                                        assert(vpre.contains(v));
                                        assert(self.visited@[choose|kk: int|
                                            0 <= kk < vpre.len() && vpre[kk] == v] == v);
                                    }
                                    if self.queue@.contains(v) {
                                        let kk = choose|kk: int|
                                            0 <= kk < self.queue@.len() && self.queue@[kk] == v;
                                        if kk < qpre.len() {
                                            assert(qpre[kk] == v);
                                            assert(vpre.contains(v));
                                            assert(self.visited@[choose|jj: int|
                                                0 <= jj < vpre.len() && vpre[jj] == v] == v);
                                        } else {
                                            assert(v == m);
                                            assert(self.visited@[vpre.len() as int] == m);
                                        }
                                    }
                                }
                            }
                            assert forall|k1: int, k2: int|
                                0 <= k1 < k2 < self.queue@.len() implies self.queue@[k1]
                                != self.queue@[k2] by {
                                if k2 == self.queue@.len() - 1 {
                                    assert(self.queue@[k1] == qpre[k1]);
                                    assert(qpre.contains(qpre[k1]));
                                }
                            }
                            assert forall|v: NodeIdx|
                                !(#[trigger] self.yielded@.contains(v)
                                    && self.queue@.contains(v)) by {
                                if self.yielded@.contains(v) && self.queue@.contains(v) {
                                    let kk = choose|kk: int|
                                        0 <= kk < self.queue@.len() && self.queue@[kk] == v;
                                    if kk < qpre.len() {
                                        assert(qpre[kk] == v);
                                    } else {
                                        assert(v == m);
                                    }
                                }
                            }
                            assert forall|v: NodeIdx|
                                #[trigger] self.visited@.contains(v) implies graph.has_node_spec(
                                v,
                            ) by {
                                if v == m {
                                    assert(nbrs@[k as int].0 == m);
                                } else {
                                    assert(vpre.contains(v)) by {
                                        let kk = choose|kk: int|
                                            0 <= kk < self.visited@.len() && self.visited@[kk]
                                                == v;
                                        assert(kk < vpre.len());
                                        assert(vpre[kk] == v);
                                    }
                                }
                            }
                            assert forall|v: NodeIdx|
                                old(self).visited@.contains(v)
                                    implies #[trigger] self.visited@.contains(v) by {
                                assert(vpre.contains(v));
                                let kk = choose|kk: int|
                                    0 <= kk < vpre.len() && vpre[kk] == v;
                                assert(self.visited@[kk] == v);
                            }
                        }
                    }
                    proof {
                        let x = nbrs@[k as int];
                        let vis0 = old(self).visited@;
                        let nfk = new_frontier(vis0, nbrs@.take(k as int));
                        assert(nbrs@.take(k + 1) =~= nbrs@.take(k as int).push(x));
                        lemma_new_frontier_push(vis0, nbrs@.take(k as int), x);
                        lemma_concat_contains(vis0, nfk, m);
                        assert(seen == (vis0.contains(m) || nfk.contains(m)));
                        if !seen {
                            assert(new_frontier(vis0, nbrs@.take(k + 1)) == nfk.push(m));
                            assert(self.visited@ =~= vis0 + nfk.push(m)) by {
                                assert(self.visited@ == vpre.push(m));
                            }
                            assert(self.queue@ =~= old(self).queue@.drop_first() + nfk.push(
                                m,
                            )) by {
                                assert(self.queue@ == qpre.push(m));
                            }
                        } else {
                            assert(new_frontier(vis0, nbrs@.take(k + 1)) == nfk);
                        }
                        assert(self.visited@ == vis0 + new_frontier(vis0, nbrs@.take(k + 1)));
                        assert(self.queue@ == old(self).queue@.drop_first() + new_frontier(
                            vis0,
                            nbrs@.take(k + 1),
                        ));
                    }
                    k = k + 1;
                }
                proof {
                    lemma_take_all(nbrs@);
                    assert(self.visited_spec() == old(self).visited_spec() + new_frontier(
                        old(self).visited_spec(),
                        graph.adj_seq(node),
                    ));
                    assert(self.queue_spec() == old(self).queue_spec().drop_first()
                        + new_frontier(old(self).visited_spec(), graph.adj_seq(node)));
                    assert forall|v: NodeIdx|
                        #[trigger] self.visited_spec().contains(v) implies graph.has_node_spec(
                        v,
                    ) by {
                        assert(self.visited@.contains(v));
                    }
                    assert forall|v: NodeIdx|
                        old(self).visited_spec().contains(v)
                            implies #[trigger] self.visited_spec().contains(v) by {
                        assert(old(self).visited@.contains(v));
                        assert(self.visited@.contains(v));
                    }
                }
                match graph.get_node(node) {
                    Some(v) => Some(v),
                    None => {
                        proof {
                            assert(false);
                        }
                        None
                    },
                }
            },
        }
    }

    /// The in-place-mutation form of [`BreadthFirstSearch::next`]: the same
    /// traversal step, returning a mutable reference to the produced node's
    /// payload.  Whatever the caller writes through it becomes that node's
    /// payload; the graph's structure does not change.
    pub fn next_mut<'g, N, E, G: Graph<N, E>>(&mut self, graph: &'g mut G) -> (r: Option<
        &'g mut N,
    >)
        requires
            old(self).inv(),
            old(graph).wf(),
            old(self).valid_for(*old(graph)),
        ensures
            final(self).inv(),
            final(self).valid_for(*final(graph)),
            final(graph).wf(),
            match r {
                None => {
                    &&& old(self).queue_spec().len() == 0
                    &&& *final(self) == *old(self)
                    &&& *final(graph) == *old(graph)
                },
                Some(p) => {
                    &&& old(self).queue_spec().len() > 0
                    &&& ({
                        let n = old(self).queue_spec()[0];
                        &&& old(graph).has_node_spec(n)
                        &&& *p == old(graph).node_value_spec(n)
                        &&& final(graph).node_value_spec(n) == *final(p)
                        &&& forall|m: NodeIdx|
                            #[trigger] final(graph).has_node_spec(m) == old(graph).has_node_spec(m)
                        &&& forall|m: NodeIdx|
                            m != n && old(graph).has_node_spec(m) ==> #[trigger] final(graph).node_value_spec(m) == old(graph).node_value_spec(m)
                        &&& forall|e: EdgeIdx|
                            #[trigger] final(graph).has_edge_spec(e) == old(graph).has_edge_spec(e)
                        &&& final(graph).node_count_spec() == old(graph).node_count_spec()
                        &&& final(graph).edge_count_spec() == old(graph).edge_count_spec()
                        &&& final(self).visited_spec() == old(self).visited_spec()
                            + new_frontier(old(self).visited_spec(), old(graph).adj_seq(n))
                        &&& final(self).queue_spec() == old(self).queue_spec().drop_first()
                            + new_frontier(old(self).visited_spec(), old(graph).adj_seq(n))
                        &&& final(self).yielded_spec() == old(self).yielded_spec().push(n)
                        &&& !old(self).yielded_spec().contains(n)
                    })
                },
            },
    {
        if self.queue.len() == 0 {
            return None;
        }
        match self.queue.pop_front() {
            None => {
                proof {
                    assert(false);
                }
                None
            },
            Some(node) => {
                proof {
                    assert(old(self).queue@[0] == node);
                    assert(old(self).queue@.contains(node)) by {
                        assert(old(self).queue@[0] == node);
                    }
                    assert(self.visited@.contains(node));
                    assert(!old(self).yielded@.contains(node));
                    assert forall|k1: int, k2: int|
                        0 <= k1 < k2 < self.queue@.len() implies self.queue@[k1]
                        != self.queue@[k2] by {
                        assert(old(self).queue@[k1 + 1] == self.queue@[k1]);
                        assert(old(self).queue@[k2 + 1] == self.queue@[k2]);
                    }
                    assert(!self.queue@.contains(node)) by {
                        if self.queue@.contains(node) {
                            let k = choose|k: int|
                                0 <= k < self.queue@.len() && self.queue@[k] == node;
                            assert(old(self).queue@[k + 1] == node);
                            assert(old(self).queue@[0] == node);
                        }
                    }
                }
                proof {
                    assert(old(self).visited_spec().contains(node));
                    assert(old(graph).has_node_spec(node));
                }
                self.yielded = Ghost(self.yielded@.push(node));
                let ghost yielded1 = self.yielded@;
                proof {
                    let oldq = old(self).queue@;
                    let oldy = old(self).yielded@;
                    assert(self.yielded@[self.yielded@.len() - 1] == node);
                    assert(self.yielded@.contains(node));
                    assert forall|k1: int, k2: int|
                        0 <= k1 < k2 < self.yielded@.len() implies self.yielded@[k1]
                        != self.yielded@[k2] by {
                        if k2 == self.yielded@.len() - 1 {
                            assert(self.yielded@[k1] == oldy[k1]);
                            assert(oldy.contains(oldy[k1]));
                        }
                    }
                    assert forall|v: NodeIdx|
                        #[trigger] self.visited@.contains(v) <==> (self.yielded@.contains(v)
                            || self.queue@.contains(v)) by {
                        if self.visited@.contains(v) {
                            assert(oldy.contains(v) || oldq.contains(v));
                            if oldy.contains(v) {
                                let kk = choose|kk: int| 0 <= kk < oldy.len() && oldy[kk] == v;
                                assert(self.yielded@[kk] == v);
                            } else {
                                let kk = choose|kk: int| 0 <= kk < oldq.len() && oldq[kk] == v;
                                if kk == 0 {
                                    assert(v == node);
                                } else {
                                    assert(self.queue@[kk - 1] == v);
                                }
                            }
                        } else {
                            if self.yielded@.contains(v) {
                                let kk = choose|kk: int|
                                    0 <= kk < self.yielded@.len() && self.yielded@[kk] == v;
                                if kk < oldy.len() {
                                    assert(oldy[kk] == v);
                                    assert(old(self).visited@.contains(v));
                                } else {
                                    assert(v == node);
                                    assert(old(self).visited@.contains(node));
                                }
                                assert(false);
                            }
                            if self.queue@.contains(v) {
                                let kk = choose|kk: int|
                                    0 <= kk < self.queue@.len() && self.queue@[kk] == v;
                                assert(oldq[kk + 1] == v);
                                assert(oldq.contains(v));
                                assert(old(self).visited@.contains(v));
                                assert(false);
                            }
                        }
                    }
                    assert forall|v: NodeIdx|
                        !(#[trigger] self.yielded@.contains(v) && self.queue@.contains(v)) by {
                        if self.yielded@.contains(v) && self.queue@.contains(v) {
                            let kq = choose|kq: int|
                                0 <= kq < self.queue@.len() && self.queue@[kq] == v;
                            assert(oldq[kq + 1] == v);
                            assert(oldq.contains(v));
                            let ky = choose|ky: int|
                                0 <= ky < self.yielded@.len() && self.yielded@[ky] == v;
                            if ky < oldy.len() {
                                assert(oldy[ky] == v);
                                assert(oldy.contains(v));
                                assert(oldq.contains(v));
                                assert(false);
                            } else {
                                assert(v == node);
                                assert(oldq[0] == node);
                                assert(oldq[kq + 1] == oldq[0]);
                                assert(false);
                            }
                        }
                    }
                    assert(self.inv());
                }
                let nbrs = (&*graph).edges_of(node);
                proof {
                    assert forall|j: int|
                        0 <= j < nbrs@.len() implies old(graph).has_node_spec(
                        #[trigger] nbrs@[j].0,
                    ) by {
                        old(graph).lemma_adj_entry(node, j);
                    }
                }
                proof {
                    assert(nbrs@.take(0) =~= Seq::<(NodeIdx, EdgeIdx)>::empty());
                    assert(new_frontier(old(self).visited@, nbrs@.take(0)) == Seq::<
                        NodeIdx,
                    >::empty());
                    assert(self.visited@ =~= old(self).visited@ + Seq::<NodeIdx>::empty());
                    assert(self.queue@ =~= old(self).queue@.drop_first() + Seq::<
                        NodeIdx,
                    >::empty());
                }
                let len = nbrs.len();
                let mut k: usize = 0;
                while k < len
                    invariant
                        len == nbrs@.len(),
                        k <= len,
                        forall|j: int|
                            0 <= j < nbrs@.len() ==> old(graph).has_node_spec(
                                #[trigger] nbrs@[j].0,
                            ),
                        self.yielded@ == yielded1,
                        self.yielded@.contains(node),
                        self.visited@ == old(self).visited@ + new_frontier(
                            old(self).visited@,
                            nbrs@.take(k as int),
                        ),
                        self.queue@ == old(self).queue@.drop_first() + new_frontier(
                            old(self).visited@,
                            nbrs@.take(k as int),
                        ),
                        self.inv(),
                        forall|v: NodeIdx|
                            #[trigger] self.visited@.contains(v) ==> old(graph).has_node_spec(v),
                        forall|v: NodeIdx|
                            old(self).visited@.contains(v) ==> #[trigger] self.visited@.contains(
                                v,
                            ),
                    decreases len - k,
                {
                    let p = nbrs[k];
                    let m = p.0;
                    let ghost qpre = self.queue@;
                    let ghost vpre = self.visited@;
                    let seen = holds_node(&self.visited, m);
                    if !seen {
                        self.visited.push(m);
                        self.queue.push_back(m);
                        proof {
                            assert(!vpre.contains(m));
                            assert(!qpre.contains(m));
                            assert(!yielded1.contains(m));
                            assert forall|v: NodeIdx|
                                #[trigger] self.visited@.contains(v) <==> (
                                self.yielded@.contains(v) || self.queue@.contains(v)) by {
                                if self.visited@.contains(v) {
                                    if v == m {
                                        assert(self.queue@[self.queue@.len() - 1] == m);
                                    } else {
                                        assert(vpre.contains(v)) by {
                                            let kk = choose|kk: int|
                                                0 <= kk < self.visited@.len()
                                                    && self.visited@[kk] == v;
                                            assert(kk < vpre.len());
                                            assert(vpre[kk] == v);
                                        }
                                        if qpre.contains(v) {
                                            let kk = choose|kk: int|
                                                0 <= kk < qpre.len() && qpre[kk] == v;
                                            assert(self.queue@[kk] == v);
                                        }
                                    }
                                } else {
                                    assert(!vpre.contains(m));
                                    if self.yielded@.contains(v) {
                                        assert(vpre.contains(v));
                                        assert(self.visited@[choose|kk: int|
                                            0 <= kk < vpre.len() && vpre[kk] == v] == v);
                                    }
                                    if self.queue@.contains(v) {
                                        let kk = choose|kk: int|
                                            0 <= kk < self.queue@.len() && self.queue@[kk] == v;
                                        if kk < qpre.len() {
                                            assert(qpre[kk] == v);
                                            assert(vpre.contains(v));
                                            assert(self.visited@[choose|jj: int|
                                                0 <= jj < vpre.len() && vpre[jj] == v] == v);
                                        } else {
                                            assert(v == m);
                                            assert(self.visited@[vpre.len() as int] == m);
                                        }
                                    }
                                }
                            }
                            assert forall|k1: int, k2: int|
                                0 <= k1 < k2 < self.queue@.len() implies self.queue@[k1]
                                != self.queue@[k2] by {
                                if k2 == self.queue@.len() - 1 {
                                    assert(self.queue@[k1] == qpre[k1]);
                                    assert(qpre.contains(qpre[k1]));
                                }
                            }
                            assert forall|v: NodeIdx|
                                !(#[trigger] self.yielded@.contains(v)
                                    && self.queue@.contains(v)) by {
                                if self.yielded@.contains(v) && self.queue@.contains(v) {
                                    let kk = choose|kk: int|
                                        0 <= kk < self.queue@.len() && self.queue@[kk] == v;
                                    if kk < qpre.len() {
                                        assert(qpre[kk] == v);
                                    } else {
                                        assert(v == m);
                                    }
                                }
                            }
                            assert forall|v: NodeIdx|
                                #[trigger] self.visited@.contains(v) implies old(graph).has_node_spec(
                                v,
                            ) by {
                                if v == m {
                                    assert(nbrs@[k as int].0 == m);
                                } else {
                                    assert(vpre.contains(v)) by {
                                        let kk = choose|kk: int|
                                            0 <= kk < self.visited@.len() && self.visited@[kk]
                                                == v;
                                        assert(kk < vpre.len());
                                        assert(vpre[kk] == v);
                                    }
                                }
                            }
                            assert forall|v: NodeIdx|
                                old(self).visited@.contains(v)
                                    implies #[trigger] self.visited@.contains(v) by {
                                assert(vpre.contains(v));
                                let kk = choose|kk: int|
                                    0 <= kk < vpre.len() && vpre[kk] == v;
                                assert(self.visited@[kk] == v);
                            }
                        }
                    }
                    proof {
                        let x = nbrs@[k as int];
                        let vis0 = old(self).visited@;
                        let nfk = new_frontier(vis0, nbrs@.take(k as int));
                        assert(nbrs@.take(k + 1) =~= nbrs@.take(k as int).push(x));
                        lemma_new_frontier_push(vis0, nbrs@.take(k as int), x);
                        lemma_concat_contains(vis0, nfk, m);
                        assert(seen == (vis0.contains(m) || nfk.contains(m)));
                        if !seen {
                            assert(new_frontier(vis0, nbrs@.take(k + 1)) == nfk.push(m));
                            assert(self.visited@ =~= vis0 + nfk.push(m)) by {
                                assert(self.visited@ == vpre.push(m));
                            }
                            assert(self.queue@ =~= old(self).queue@.drop_first() + nfk.push(
                                m,
                            )) by {
                                assert(self.queue@ == qpre.push(m));
                            }
                        } else {
                            assert(new_frontier(vis0, nbrs@.take(k + 1)) == nfk);
                        }
                        assert(self.visited@ == vis0 + new_frontier(vis0, nbrs@.take(k + 1)));
                        assert(self.queue@ == old(self).queue@.drop_first() + new_frontier(
                            vis0,
                            nbrs@.take(k + 1),
                        ));
                    }
                    k = k + 1;
                }
                proof {
                    lemma_take_all(nbrs@);
                    assert(self.visited_spec() == old(self).visited_spec() + new_frontier(
                        old(self).visited_spec(),
                        old(graph).adj_seq(node),
                    ));
                    assert(self.queue_spec() == old(self).queue_spec().drop_first()
                        + new_frontier(old(self).visited_spec(), old(graph).adj_seq(node)));
                    assert forall|v: NodeIdx|
                        #[trigger] self.visited_spec().contains(v) implies old(
                        graph,
                    ).has_node_spec(v) by {
                        assert(self.visited@.contains(v));
                    }
                    assert forall|v: NodeIdx|
                        old(self).visited_spec().contains(v)
                            implies #[trigger] self.visited_spec().contains(v) by {
                        assert(old(self).visited@.contains(v));
                        assert(self.visited@.contains(v));
                    }
                }
                match graph.get_node_mut(node) {
                    Some(v) => Some(v),
                    None => {
                        proof {
                            assert(false);
                        }
                        None
                    },
                }
            },
        }
    }
}

/// A traversal can never have produced and queued more nodes than the graph
/// has node slots: together with the produced-once guarantee of `next`,
/// every traversal terminates, after at most one `next` call per live node
/// plus the terminal empty result.
pub proof fn lemma_bfs_bounded<N, E, G: Graph<N, E>>(b: &BreadthFirstSearch, g: &G)
    requires
        b.inv(),
        g.wf(),
        b.valid_for(*g),
    ensures
        b.yielded_spec().len() + b.queue_spec().len() <= g.node_slot_count(),
{
    let combined = b.yielded_spec() + b.queue_spec();
    let yl = b.yielded_spec().len() as int;
    assert forall|k: int| 0 <= k < combined.len() implies g.has_node_spec(
        #[trigger] combined[k],
    ) by {
        let v = combined[k];
        if k < yl {
            assert(b.yielded_spec().contains(v)) by {
                assert(b.yielded_spec()[k] == v);
            }
        } else {
            assert(b.queue_spec().contains(v)) by {
                assert(b.queue_spec()[k - yl] == v);
            }
        }
        assert(b.visited_spec().contains(v));
    }
    assert(combined.no_duplicates()) by {
        assert forall|k1: int, k2: int|
            0 <= k1 < k2 < combined.len() implies combined[k1] != combined[k2] by {
            if k2 < yl {
                assert(combined[k1] == b.yielded_spec()[k1]);
                assert(combined[k2] == b.yielded_spec()[k2]);
            } else if k1 >= yl {
                assert(combined[k1] == b.queue_spec()[k1 - yl]);
                assert(combined[k2] == b.queue_spec()[k2 - yl]);
            } else {
                let v = combined[k1];
                if combined[k1] == combined[k2] {
                    assert(b.yielded_spec().contains(v)) by {
                        assert(b.yielded_spec()[k1] == v);
                    }
                    assert(b.queue_spec().contains(v)) by {
                        assert(b.queue_spec()[k2 - yl] == v);
                    }
                }
            }
        }
    }
    let idxs = combined.map_values(|h: NodeIdx| h.index as int);
    assert(idxs.len() == combined.len());
    assert(idxs.no_duplicates()) by {
        assert forall|k1: int, k2: int|
            0 <= k1 < k2 < idxs.len() implies idxs[k1] != idxs[k2] by {
            let h1 = combined[k1];
            let h2 = combined[k2];
            g.lemma_node_handle(h1);
            g.lemma_node_handle(h2);
            if h1.index == h2.index {
                assert(h1.generation == g.node_gen_spec(h1.index as int));
                assert(h2.generation == g.node_gen_spec(h2.index as int));
                assert(h1 == h2);
            }
        }
    }
    idxs.unique_seq_to_set();
    let bound = g.node_slot_count() as int;
    assert(idxs.to_set().subset_of(vstd::set_lib::set_int_range(0, bound))) by {
        assert forall|i: int| idxs.to_set().contains(i) implies vstd::set_lib::set_int_range(
            0,
            bound,
        ).contains(i) by {
            assert(idxs.contains(i));
            let k = choose|k: int| 0 <= k < idxs.len() && idxs[k] == i;
            g.lemma_node_handle(combined[k]);
        }
    }
    vstd::set_lib::lemma_int_range(0, bound);
    vstd::set_lib::lemma_len_subset(idxs.to_set(), vstd::set_lib::set_int_range(0, bound));
}

} // verus!
