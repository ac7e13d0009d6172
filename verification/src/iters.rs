//! Thin lazy views that convert internal handle sequences into payload
//! references.

use crate::graphs::{EdgeRef, Graph};
use crate::keys::{EdgeIdx, NodeIdx};
use vstd::prelude::*;

verus! {

/// An adapter that converts a sequence of edge handles into [`EdgeRef`]
/// views of a graph, one `next` call at a time.
///
/// The adapter is finite and non-restartable; it holds no borrow of the
/// graph between calls, so each `next` takes the graph it resolves against.
pub struct Edges {
    inner: Vec<EdgeIdx>,
    pos: usize,
}

impl Edges {
    /// The handles not yet consumed, front first.
    pub closed spec fn remaining(&self) -> Seq<EdgeIdx> {
        self.inner@.skip(self.pos as int)
    }

    /// The consumed prefix never outruns the handles.
    pub closed spec fn inv(&self) -> bool {
        self.pos <= self.inner@.len()
    }

    /// Creates an `Edges` adapter over the provided `inner` handles.
    pub fn new(inner: Vec<EdgeIdx>) -> (r: Edges)
        ensures
            r.inv(),
            r.remaining() == inner@,
    {
        let r = Edges { inner, pos: 0 };
        proof {
            assert(r.remaining() =~= r.inner@);
        }
        r
    }

    /// Consumes the next handle and resolves it against `graph`: the edge's
    /// view if the handle is live, `None` for a stale handle.  Returns
    /// `None` without consuming anything once the handles are exhausted.
    pub fn next<'g, N, E, G: Graph<N, E>>(&mut self, graph: &'g G) -> (r: Option<EdgeRef<'g, E>>)
        requires
            old(self).inv(),
            graph.wf(),
        ensures
            final(self).inv(),
            old(self).remaining().len() == 0 ==> r is None && *final(self) == *old(self),
            old(self).remaining().len() > 0 ==> ({
                let h = old(self).remaining()[0];
                &&& final(self).remaining() == old(self).remaining().drop_first()
                &&& match r {
                    Some(er) => {
                        &&& graph.has_edge_spec(h)
                        &&& er.src == graph.edge_src_spec(h)
                        &&& er.dst == graph.edge_dst_spec(h)
                        &&& *er.data == graph.edge_value_spec(h)
                    },
                    None => !graph.has_edge_spec(h),
                }
            }),
    {
        if self.pos >= self.inner.len() {
            return None;
        }
        let h = self.inner[self.pos];
        self.pos = self.pos + 1;
        proof {
            assert(h == old(self).remaining()[0]);
            assert(self.inner@.skip(self.pos as int) =~= old(self).inner@.skip(
                old(self).pos as int,
            ).drop_first());
        }
        graph.get_edge(h)
    }
}

/// An adapter that converts a sequence of node handles into mutable payload
/// references, one `next` call at a time: the mutable counterpart of
/// iterating `nodes`.
pub struct NodesMut {
    inner: Vec<NodeIdx>,
    pos: usize,
}

impl NodesMut {
    /// The handles not yet consumed, front first.
    pub closed spec fn remaining(&self) -> Seq<NodeIdx> {
        self.inner@.skip(self.pos as int)
    }

    /// The consumed prefix never outruns the handles.
    pub closed spec fn inv(&self) -> bool {
        self.pos <= self.inner@.len()
    }

    /// Creates a `NodesMut` adapter over the provided `inner` handles.
    pub fn new(inner: Vec<NodeIdx>) -> (r: NodesMut)
        ensures
            r.inv(),
            r.remaining() == inner@,
    {
        let r = NodesMut { inner, pos: 0 };
        proof {
            assert(r.remaining() =~= r.inner@);
        }
        r
    }

    /// Consumes the next handle and resolves it against `graph`: a mutable
    /// reference to that node's payload if the handle is live, `None` for a
    /// stale handle.  Whatever the caller writes through the reference
    /// becomes the node's payload; nothing else about the graph changes.
    /// Returns `None` without consuming anything once the handles are
    /// exhausted.
    pub fn next<'g, N, E, G: Graph<N, E>>(&mut self, graph: &'g mut G) -> (r: Option<&'g mut N>)
        requires
            old(self).inv(),
            old(graph).wf(),
        ensures
            final(self).inv(),
            final(graph).wf(),
            old(self).remaining().len() == 0 ==> r is None && *final(self) == *old(self)
                && *final(graph) == *old(graph),
            old(self).remaining().len() > 0 ==> ({
                let h = old(self).remaining()[0];
                &&& final(self).remaining() == old(self).remaining().drop_first()
                &&& match r {
                    Some(p) => {
                        &&& old(graph).has_node_spec(h)
                        &&& *p == old(graph).node_value_spec(h)
                        &&& final(graph).node_value_spec(h) == *final(p)
                        &&& forall|m: NodeIdx|
                            #[trigger] final(graph).has_node_spec(m) == old(graph).has_node_spec(m)
                        &&& forall|m: NodeIdx|
                            m != h && old(graph).has_node_spec(m) ==> #[trigger] final(graph).node_value_spec(m) == old(graph).node_value_spec(m)
                        &&& forall|m: NodeIdx|
                            old(graph).has_node_spec(m) ==> #[trigger] final(graph).adj_seq(m)
                                =~= old(graph).adj_seq(m)
                        &&& forall|e: EdgeIdx|
                            #[trigger] final(graph).has_edge_spec(e) == old(graph).has_edge_spec(e)
                        &&& forall|e: EdgeIdx|
                            old(graph).has_edge_spec(e) ==> #[trigger] final(graph).edge_src_spec(e) == old(graph).edge_src_spec(e) && final(graph).edge_dst_spec(e) == old(graph).edge_dst_spec(e) && final(graph).edge_value_spec(e) == old(graph).edge_value_spec(e)
                        &&& final(graph).node_count_spec() == old(graph).node_count_spec()
                        &&& final(graph).edge_count_spec() == old(graph).edge_count_spec()
                    },
                    None => !old(graph).has_node_spec(h) && *final(graph) == *old(graph),
                }
            }),
    {
        if self.pos >= self.inner.len() {
            return None;
        }
        let h = self.inner[self.pos];
        self.pos = self.pos + 1;
        proof {
            assert(h == old(self).remaining()[0]);
            assert(self.inner@.skip(self.pos as int) =~= old(self).inner@.skip(
                old(self).pos as int,
            ).drop_first());
        }
        graph.get_node_mut(h)
    }
}

/// An adapter that converts a sequence of edge handles into mutable payload
/// references, one `next` call at a time: the mutable counterpart of
/// [`Edges`].
pub struct EdgesMut {
    inner: Vec<EdgeIdx>,
    pos: usize,
}

impl EdgesMut {
    /// The handles not yet consumed, front first.
    pub closed spec fn remaining(&self) -> Seq<EdgeIdx> {
        self.inner@.skip(self.pos as int)
    }

    /// The consumed prefix never outruns the handles.
    pub closed spec fn inv(&self) -> bool {
        self.pos <= self.inner@.len()
    }

    /// Creates an `EdgesMut` adapter over the provided `inner` handles.
    pub fn new(inner: Vec<EdgeIdx>) -> (r: EdgesMut)
        ensures
            r.inv(),
            r.remaining() == inner@,
    {
        let r = EdgesMut { inner, pos: 0 };
        proof {
            assert(r.remaining() =~= r.inner@);
        }
        r
    }

    /// Consumes the next handle and resolves it against `graph`: a mutable
    /// reference to that edge's payload if the handle is live, `None` for a
    /// stale handle.  Whatever the caller writes through the reference
    /// becomes the edge's payload; nothing else about the graph changes.
    /// Returns `None` without consuming anything once the handles are
    /// exhausted.
    pub fn next<'g, N, E, G: Graph<N, E>>(&mut self, graph: &'g mut G) -> (r: Option<&'g mut E>)
        requires
            old(self).inv(),
            old(graph).wf(),
        ensures
            final(self).inv(),
            final(graph).wf(),
            old(self).remaining().len() == 0 ==> r is None && *final(self) == *old(self)
                && *final(graph) == *old(graph),
            old(self).remaining().len() > 0 ==> ({
                let h = old(self).remaining()[0];
                &&& final(self).remaining() == old(self).remaining().drop_first()
                &&& match r {
                    Some(p) => {
                        &&& old(graph).has_edge_spec(h)
                        &&& *p == old(graph).edge_value_spec(h)
                        &&& final(graph).edge_value_spec(h) == *final(p)
                        &&& forall|e2: EdgeIdx|
                            #[trigger] final(graph).has_edge_spec(e2) == old(graph).has_edge_spec(e2)
                        &&& forall|e2: EdgeIdx|
                            old(graph).has_edge_spec(e2) ==> #[trigger] final(graph).edge_src_spec(e2) == old(graph).edge_src_spec(e2) && final(graph).edge_dst_spec(e2) == old(graph).edge_dst_spec(e2)
                        &&& forall|e2: EdgeIdx|
                            e2 != h && old(graph).has_edge_spec(e2) ==> #[trigger] final(graph).edge_value_spec(e2) == old(graph).edge_value_spec(e2)
                        &&& forall|m: NodeIdx|
                            #[trigger] final(graph).has_node_spec(m) == old(graph).has_node_spec(m)
                        &&& forall|m: NodeIdx|
                            old(graph).has_node_spec(m) ==> #[trigger] final(graph).node_value_spec(m) == old(graph).node_value_spec(m)
                        &&& forall|m: NodeIdx|
                            old(graph).has_node_spec(m) ==> #[trigger] final(graph).adj_seq(m)
                                == old(graph).adj_seq(m)
                        &&& final(graph).node_count_spec() == old(graph).node_count_spec()
                        &&& final(graph).edge_count_spec() == old(graph).edge_count_spec()
                    },
                    None => !old(graph).has_edge_spec(h) && *final(graph) == *old(graph),
                }
            }),
    {
        if self.pos >= self.inner.len() {
            return None;
        }
        let h = self.inner[self.pos];
        self.pos = self.pos + 1;
        proof {
            assert(h == old(self).remaining()[0]);
            assert(self.inner@.skip(self.pos as int) =~= old(self).inner@.skip(
                old(self).pos as int,
            ).drop_first());
        }
        graph.get_edge_mut(h)
    }
}

} // verus!
