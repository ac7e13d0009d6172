//! The common graph contract and the shared edge model.
//!
//! Every concrete graph variant stores its edges as [`Edge`] records in a
//! generational arena; the spec functions here fold over the edge slots to
//! count degrees, incidences and self-loops, and the [`Graph`] trait states
//! the uniform contract that all four variants satisfy.

pub mod multi;
pub mod simple;

use crate::arena::{count_some, Arena, Slot};
use crate::error::GraphError;
use crate::keys::{EdgeIdx, NodeIdx};
use vstd::prelude::*;

verus! {

/// One stored edge: its two endpoints plus the caller's payload.
///
/// For an undirected graph the `(src, dst)` pair is the fixed internal
/// ordering of an unordered pair; membership queries answer symmetrically.
pub struct Edge<E> {
    /// source endpoint (first endpoint for an undirected graph)
    pub src: NodeIdx,
    /// destination endpoint (second endpoint for an undirected graph)
    pub dst: NodeIdx,
    /// the caller's payload
    pub data: E,
}

/// A borrowed view of one edge: the resolved endpoints plus a reference to
/// the payload.
pub struct EdgeRef<'a, E> {
    /// source endpoint
    pub src: NodeIdx,
    /// destination endpoint
    pub dst: NodeIdx,
    /// the edge's payload
    pub data: &'a E,
}

/// Whether the handle `e` addresses a live edge slot of `s`.
pub open spec fn edge_live_in<E>(s: Seq<Slot<Edge<E>>>, e: EdgeIdx) -> bool {
    &&& (e.index as int) < s.len()
    &&& s[e.index as int].value is Some
    &&& s[e.index as int].generation == e.generation
}

/// The edge record addressed by `e` (meaningful only when live).
pub open spec fn edge_at<E>(s: Seq<Slot<Edge<E>>>, e: EdgeIdx) -> Edge<E> {
    s[e.index as int].value.unwrap()
}

/// How much one slot contributes to the degree of `n`: one per endpoint, so
/// a self-loop contributes two.
pub open spec fn slot_degree<E>(sl: Slot<Edge<E>>, n: NodeIdx) -> nat {
    match sl.value {
        Some(ed) => (if ed.src == n {
            1nat
        } else {
            0nat
        }) + (if ed.dst == n {
            1nat
        } else {
            0nat
        }),
        None => 0,
    }
}

/// Whether one slot holds a live edge incident to `n`.
pub open spec fn slot_incident<E>(sl: Slot<Edge<E>>, n: NodeIdx) -> nat {
    match sl.value {
        Some(ed) => if ed.src == n || ed.dst == n {
            1nat
        } else {
            0nat
        },
        None => 0,
    }
}

/// Whether one slot holds a live self-loop on `n`.
pub open spec fn slot_self_loop<E>(sl: Slot<Edge<E>>, n: NodeIdx) -> nat {
    match sl.value {
        Some(ed) => if ed.src == n && ed.dst == n {
            1nat
        } else {
            0nat
        },
        None => 0,
    }
}

/// The degree of `n`: endpoints of live edges that touch `n`, self-loops
/// counted twice.
pub open spec fn degree_count<E>(s: Seq<Slot<Edge<E>>>, n: NodeIdx) -> nat
    decreases s.len(),
{
    if s.len() == 0 {
        0
    } else {
        degree_count(s.drop_last(), n) + slot_degree(s.last(), n)
    }
}

/// How many live edges touch `n`, each counted once.
pub open spec fn incident_count<E>(s: Seq<Slot<Edge<E>>>, n: NodeIdx) -> nat
    decreases s.len(),
{
    if s.len() == 0 {
        0
    } else {
        incident_count(s.drop_last(), n) + slot_incident(s.last(), n)
    }
}

/// How many live self-loops sit on `n`.
pub open spec fn self_loop_count<E>(s: Seq<Slot<Edge<E>>>, n: NodeIdx) -> nat
    decreases s.len(),
{
    if s.len() == 0 {
        0
    } else {
        self_loop_count(s.drop_last(), n) + slot_self_loop(s.last(), n)
    }
}

/// Degree splits into incidences plus self-loops: the two endpoint counts of
/// an edge collapse to one incidence unless both endpoints are `n`.
pub proof fn lemma_degree_split<E>(s: Seq<Slot<Edge<E>>>, n: NodeIdx)
    ensures
        degree_count(s, n) == incident_count(s, n) + self_loop_count(s, n),
    decreases s.len(),
{
    if s.len() > 0 {
        lemma_degree_split(s.drop_last(), n);
    }
}

/// The degree never exceeds twice the number of live edges.
pub proof fn lemma_degree_le_twice_count<E>(s: Seq<Slot<Edge<E>>>, n: NodeIdx)
    ensures
        degree_count(s, n) <= 2 * count_some(s),
    decreases s.len(),
{
    if s.len() > 0 {
        lemma_degree_le_twice_count(s.drop_last(), n);
    }
}

/// The live edge handles incident to `n` (each counted once, self-loops
/// included).
pub open spec fn incident_handles<E>(s: Seq<Slot<Edge<E>>>, n: NodeIdx) -> Set<EdgeIdx> {
    Set::new(
        |e: EdgeIdx|
            edge_live_in(s, e) && (edge_at(s, e).src == n || edge_at(s, e).dst == n),
    )
}

/// The live self-loop handles on `n`.
pub open spec fn self_loop_handles<E>(s: Seq<Slot<Edge<E>>>, n: NodeIdx) -> Set<EdgeIdx> {
    Set::new(
        |e: EdgeIdx| edge_live_in(s, e) && edge_at(s, e).src == n && edge_at(s, e).dst == n,
    )
}

/// The incidence count is the number of distinct live edges touching `n`,
/// and the self-loop count the number of distinct live loops on `n`: the
/// folds over the slots agree with the handle-set cardinalities, which is
/// what lets a caller compute them from the pointwise edge model.
pub proof fn lemma_counts_are_cardinalities<E>(s: Seq<Slot<Edge<E>>>, n: NodeIdx)
    requires
        s.len() <= usize::MAX,
    ensures
        incident_handles(s, n).finite(),
        incident_count(s, n) == incident_handles(s, n).len(),
        self_loop_handles(s, n).finite(),
        self_loop_count(s, n) == self_loop_handles(s, n).len(),
    decreases s.len(),
{
    broadcast use vstd::set::group_set_axioms;

    if s.len() == 0 {
        assert(incident_handles(s, n) =~= Set::<EdgeIdx>::empty());
        assert(self_loop_handles(s, n) =~= Set::<EdgeIdx>::empty());
    } else {
        let d = s.drop_last();
        lemma_counts_are_cardinalities(d, n);
        let last = s.last();
        let h = EdgeIdx { index: (s.len() - 1) as usize, generation: last.generation };
        assert forall|e: EdgeIdx|
            (e.index as int) < d.len() implies (edge_live_in(s, e) == edge_live_in(d, e) && (
            edge_live_in(d, e) ==> edge_at(s, e) == edge_at(d, e))) by {
            assert(s[e.index as int] == d[e.index as int]);
        }
        if last.value is Some && (last.value.unwrap().src == n || last.value.unwrap().dst == n) {
            assert(incident_handles(s, n) =~= incident_handles(d, n).insert(h)) by {
                assert forall|e: EdgeIdx| #[trigger] incident_handles(s, n).contains(e) implies
                    incident_handles(d, n).insert(h).contains(e) by {
                    if (e.index as int) < d.len() {
                    } else {
                        assert(e.index as int == s.len() - 1);
                        assert(e == h);
                    }
                }
            }
            assert(!incident_handles(d, n).contains(h));
        } else {
            assert(incident_handles(s, n) =~= incident_handles(d, n)) by {
                assert forall|e: EdgeIdx| #[trigger] incident_handles(s, n).contains(e) implies
                    incident_handles(d, n).contains(e) by {
                    if (e.index as int) < d.len() {
                    } else {
                        assert(e.index as int == s.len() - 1);
                    }
                }
            }
        }
        if last.value is Some && last.value.unwrap().src == n && last.value.unwrap().dst == n {
            assert(self_loop_handles(s, n) =~= self_loop_handles(d, n).insert(h)) by {
                assert forall|e: EdgeIdx| #[trigger] self_loop_handles(s, n).contains(e) implies
                    self_loop_handles(d, n).insert(h).contains(e) by {
                    if (e.index as int) < d.len() {
                    } else {
                        assert(e.index as int == s.len() - 1);
                        assert(e == h);
                    }
                }
            }
            assert(!self_loop_handles(d, n).contains(h));
        } else {
            assert(self_loop_handles(s, n) =~= self_loop_handles(d, n)) by {
                assert forall|e: EdgeIdx| #[trigger] self_loop_handles(s, n).contains(e) implies
                    self_loop_handles(d, n).contains(e) by {
                    if (e.index as int) < d.len() {
                    } else {
                        assert(e.index as int == s.len() - 1);
                    }
                }
            }
        }
    }
}

/// Counting over a one-longer prefix adds exactly the contribution of the
/// newly covered slot.
pub proof fn lemma_counts_take_succ<E>(s: Seq<Slot<Edge<E>>>, n: NodeIdx, i: int)
    requires
        0 <= i < s.len(),
    ensures
        degree_count(s.take(i + 1), n) == degree_count(s.take(i), n) + slot_degree(s[i], n),
        incident_count(s.take(i + 1), n) == incident_count(s.take(i), n) + slot_incident(s[i], n),
        self_loop_count(s.take(i + 1), n) == self_loop_count(s.take(i), n) + slot_self_loop(
            s[i],
            n,
        ),
{
    assert(s.take(i + 1).drop_last() =~= s.take(i));
    assert(s.take(i + 1).last() == s[i]);
}

/// Taking the whole sequence is the sequence.
pub proof fn lemma_take_all<T>(s: Seq<T>)
    ensures
        s.take(s.len() as int) =~= s,
{
}

/// Two edge-slot sequences that agree on liveness and endpoints slot by
/// slot give every node the same degree.
pub proof fn lemma_degree_count_equal<E>(
    s1: Seq<Slot<Edge<E>>>,
    s2: Seq<Slot<Edge<E>>>,
    n: NodeIdx,
)
    requires
        s1.len() == s2.len(),
        forall|j: int|
            0 <= j < s1.len() ==> ((#[trigger] s2[j]).value is Some == (#[trigger] s1[j]).value
                is Some) && (s1[j].value is Some ==> s2[j].value.unwrap().src
                == s1[j].value.unwrap().src && s2[j].value.unwrap().dst
                == s1[j].value.unwrap().dst),
    ensures
        degree_count(s2, n) == degree_count(s1, n),
    decreases s1.len(),
{
    if s1.len() > 0 {
        lemma_degree_count_equal(s1.drop_last(), s2.drop_last(), n);
        assert(s1[s1.len() - 1] == s1.last());
        assert(s2[s2.len() - 1] == s2.last());
    }
}

/// The handles of the occupied slots, in slot order.
pub open spec fn node_handle_seq<T>(s: Seq<Slot<T>>) -> Seq<NodeIdx>
    decreases s.len(),
{
    if s.len() == 0 {
        Seq::empty()
    } else if s.last().value is Some {
        node_handle_seq(s.drop_last()).push(
            NodeIdx { index: (s.len() - 1) as usize, generation: s.last().generation },
        )
    } else {
        node_handle_seq(s.drop_last())
    }
}

/// The handles of the occupied slots, in slot order.
pub open spec fn edge_handle_seq<T>(s: Seq<Slot<T>>) -> Seq<EdgeIdx>
    decreases s.len(),
{
    if s.len() == 0 {
        Seq::empty()
    } else if s.last().value is Some {
        edge_handle_seq(s.drop_last()).push(
            EdgeIdx { index: (s.len() - 1) as usize, generation: s.last().generation },
        )
    } else {
        edge_handle_seq(s.drop_last())
    }
}

/// What `node_handle_seq` holds: exactly one handle per occupied slot, each
/// carrying that slot's generation, with indices strictly increasing.
pub proof fn lemma_node_handle_seq<T>(s: Seq<Slot<T>>)
    requires
        s.len() <= usize::MAX,
    ensures
        node_handle_seq(s).len() == count_some(s),
        forall|k: int|
            0 <= k < node_handle_seq(s).len() ==> ((#[trigger] node_handle_seq(s)[k]).index
                as int) < s.len() && s[node_handle_seq(s)[k].index as int].value is Some
                && s[node_handle_seq(s)[k].index as int].generation == node_handle_seq(
                s,
            )[k].generation,
        forall|k1: int, k2: int|
            0 <= k1 < k2 < node_handle_seq(s).len() ==> node_handle_seq(s)[k1].index
                < node_handle_seq(s)[k2].index,
        forall|i: int, g: u64|
            0 <= i < s.len() && s[i].value is Some && s[i].generation == g
                ==> #[trigger] node_handle_seq(s).contains(NodeIdx { index: i as usize, generation: g }),
    decreases s.len(),
{
    if s.len() > 0 {
        lemma_node_handle_seq(s.drop_last());
        let pre = node_handle_seq(s.drop_last());
        let whole = node_handle_seq(s);
        let d = s.drop_last();
        assert forall|idx: int| 0 <= idx < d.len() implies d[idx] == s[idx] by {}
        assert forall|k: int|
            0 <= k < whole.len() implies (((#[trigger] whole[k]).index as int) < s.len()
                && s[whole[k].index as int].value is Some && s[whole[k].index as int].generation
                == whole[k].generation) by {
            if k < pre.len() {
                assert(whole[k] == pre[k]);
                assert((pre[k].index as int) < d.len());
                assert(d[pre[k].index as int] == s[pre[k].index as int]);
            } else {
                assert(s.last().value is Some);
                assert(whole[k] == NodeIdx {
                    index: (s.len() - 1) as usize,
                    generation: s.last().generation,
                });
                assert(s[s.len() - 1] == s.last());
            }
        }
        assert forall|k1: int, k2: int|
            0 <= k1 < k2 < whole.len() implies whole[k1].index < whole[k2].index by {
            if k2 < pre.len() {
                assert(whole[k1] == pre[k1] && whole[k2] == pre[k2]);
            } else {
                assert(s.last().value is Some);
                assert(whole[k1] == pre[k1]);
                assert((pre[k1].index as int) < d.len());
                assert(whole[k2].index == s.len() - 1);
            }
        }
        assert forall|i: int, g: u64|
            0 <= i < s.len() && s[i].value is Some && s[i].generation == g implies #[trigger] whole.contains(
            NodeIdx { index: i as usize, generation: g },
        ) by {
            let h = NodeIdx { index: i as usize, generation: g };
            if i < s.len() - 1 {
                assert(d[i] == s[i]);
                assert(pre.contains(h));
                let k = choose|k: int| 0 <= k < pre.len() && pre[k] == h;
                assert(whole[k] == h);
            } else {
                assert(whole.last() == h);
            }
        }
    }
}

/// What `edge_handle_seq` holds, mirroring [`lemma_node_handle_seq`].
pub proof fn lemma_edge_handle_seq<T>(s: Seq<Slot<T>>)
    requires
        s.len() <= usize::MAX,
    ensures
        edge_handle_seq(s).len() == count_some(s),
        forall|k: int|
            0 <= k < edge_handle_seq(s).len() ==> ((#[trigger] edge_handle_seq(s)[k]).index
                as int) < s.len() && s[edge_handle_seq(s)[k].index as int].value is Some
                && s[edge_handle_seq(s)[k].index as int].generation == edge_handle_seq(
                s,
            )[k].generation,
        forall|k1: int, k2: int|
            0 <= k1 < k2 < edge_handle_seq(s).len() ==> edge_handle_seq(s)[k1].index
                < edge_handle_seq(s)[k2].index,
        forall|i: int, g: u64|
            0 <= i < s.len() && s[i].value is Some && s[i].generation == g
                ==> #[trigger] edge_handle_seq(s).contains(EdgeIdx { index: i as usize, generation: g }),
    decreases s.len(),
{
    if s.len() > 0 {
        lemma_edge_handle_seq(s.drop_last());
        let pre = edge_handle_seq(s.drop_last());
        let whole = edge_handle_seq(s);
        let d = s.drop_last();
        assert forall|idx: int| 0 <= idx < d.len() implies d[idx] == s[idx] by {}
        assert forall|k: int|
            0 <= k < whole.len() implies (((#[trigger] whole[k]).index as int) < s.len()
                && s[whole[k].index as int].value is Some && s[whole[k].index as int].generation
                == whole[k].generation) by {
            if k < pre.len() {
                assert(whole[k] == pre[k]);
                assert((pre[k].index as int) < d.len());
                assert(d[pre[k].index as int] == s[pre[k].index as int]);
            } else {
                assert(s.last().value is Some);
                assert(whole[k] == EdgeIdx {
                    index: (s.len() - 1) as usize,
                    generation: s.last().generation,
                });
                assert(s[s.len() - 1] == s.last());
            }
        }
        assert forall|k1: int, k2: int|
            0 <= k1 < k2 < whole.len() implies whole[k1].index < whole[k2].index by {
            if k2 < pre.len() {
                assert(whole[k1] == pre[k1] && whole[k2] == pre[k2]);
            } else {
                assert(s.last().value is Some);
                assert(whole[k1] == pre[k1]);
                assert((pre[k1].index as int) < d.len());
                assert(whole[k2].index == s.len() - 1);
            }
        }
        assert forall|i: int, g: u64|
            0 <= i < s.len() && s[i].value is Some && s[i].generation == g implies #[trigger] whole.contains(
            EdgeIdx { index: i as usize, generation: g },
        ) by {
            let h = EdgeIdx { index: i as usize, generation: g };
            if i < s.len() - 1 {
                assert(d[i] == s[i]);
                assert(pre.contains(h));
                let k = choose|k: int| 0 <= k < pre.len() && pre[k] == h;
                assert(whole[k] == h);
            } else {
                assert(whole.last() == h);
            }
        }
    }
}

/// Prefix counterpart of `node_handle_seq` for building scans.
pub proof fn lemma_node_handle_seq_take_succ<T>(s: Seq<Slot<T>>, i: int)
    requires
        0 <= i < s.len(),
        i <= usize::MAX,
    ensures
        s[i].value is Some ==> node_handle_seq(s.take(i + 1)) == node_handle_seq(
            s.take(i),
        ).push(NodeIdx { index: i as usize, generation: s[i].generation }),
        !(s[i].value is Some) ==> node_handle_seq(s.take(i + 1)) == node_handle_seq(s.take(i)),
{
    assert(s.take(i + 1).drop_last() =~= s.take(i));
    assert(s.take(i + 1).last() == s[i]);
}

/// Prefix counterpart of `edge_handle_seq` for building scans.
pub proof fn lemma_edge_handle_seq_take_succ<T>(s: Seq<Slot<T>>, i: int)
    requires
        0 <= i < s.len(),
        i <= usize::MAX,
    ensures
        s[i].value is Some ==> edge_handle_seq(s.take(i + 1)) == edge_handle_seq(
            s.take(i),
        ).push(EdgeIdx { index: i as usize, generation: s[i].generation }),
        !(s[i].value is Some) ==> edge_handle_seq(s.take(i + 1)) == edge_handle_seq(s.take(i)),
{
    assert(s.take(i + 1).drop_last() =~= s.take(i));
    assert(s.take(i + 1).last() == s[i]);
}

/// Collects the handles of all live nodes of `a`, in arena order.
pub(crate) fn collect_node_handles<T>(a: &Arena<T>) -> (r: Vec<NodeIdx>)
    ensures
        r@ == node_handle_seq(a.slots_spec()),
{
    let n = a.slots_len();
    let mut r: Vec<NodeIdx> = Vec::new();
    let mut i: usize = 0;
    while i < n
        invariant
            n == a.slot_count(),
            i <= n,
            r@ == node_handle_seq(a.slots_spec().take(i as int)),
        decreases n - i,
    {
        proof {
            lemma_node_handle_seq_take_succ(a.slots_spec(), i as int);
        }
        if a.occupied(i) {
            let g = a.generation_of(i);
            r.push(NodeIdx { index: i, generation: g });
        }
        i = i + 1;
    }
    proof {
        lemma_take_all(a.slots_spec());
    }
    r
}

/// Collects the handles of all live edges of `a`, in arena order.
pub(crate) fn collect_edge_handles<T>(a: &Arena<T>) -> (r: Vec<EdgeIdx>)
    ensures
        r@ == edge_handle_seq(a.slots_spec()),
{
    let n = a.slots_len();
    let mut r: Vec<EdgeIdx> = Vec::new();
    let mut i: usize = 0;
    while i < n
        invariant
            n == a.slot_count(),
            i <= n,
            r@ == edge_handle_seq(a.slots_spec().take(i as int)),
        decreases n - i,
    {
        proof {
            lemma_edge_handle_seq_take_succ(a.slots_spec(), i as int);
        }
        if a.occupied(i) {
            let g = a.generation_of(i);
            r.push(EdgeIdx { index: i, generation: g });
        }
        i = i + 1;
    }
    proof {
        lemma_take_all(a.slots_spec());
    }
    r
}

/// Counts the degree of `n` by one pass over the edge arena.
pub(crate) fn degree_scan<E>(edges: &Arena<Edge<E>>, n: NodeIdx) -> (r: usize)
    requires
        edges.wf(),
        2 * edges.live_count() <= usize::MAX,
    ensures
        r == degree_count(edges.slots_spec(), n),
{
    let len = edges.slots_len();
    let mut r: usize = 0;
    let mut i: usize = 0;
    while i < len
        invariant
            len == edges.slot_count(),
            i <= len,
            edges.wf(),
            2 * edges.live_count() <= usize::MAX,
            r == degree_count(edges.slots_spec().take(i as int), n),
        decreases len - i,
    {
        proof {
            lemma_counts_take_succ(edges.slots_spec(), n, i as int);
            lemma_degree_le_twice_count(edges.slots_spec().take(i as int + 1), n);
            lemma_count_some_take_le(edges.slots_spec(), i as int + 1);
        }
        if edges.occupied(i) {
            let g = edges.generation_of(i);
            match edges.get(i, g) {
                Some(ed) => {
                    if ed.src == n {
                        r = r + 1;
                    }
                    if ed.dst == n {
                        r = r + 1;
                    }
                },
                None => (),
            }
        }
        i = i + 1;
    }
    proof {
        lemma_take_all(edges.slots_spec());
    }
    r
}

/// A prefix never has more occupied slots than the whole sequence.
pub proof fn lemma_count_some_take_le<T>(s: Seq<Slot<T>>, i: int)
    requires
        0 <= i <= s.len(),
    ensures
        count_some(s.take(i)) <= count_some(s),
    decreases s.len() - i,
{
    if i < s.len() {
        lemma_count_some_take_le(s, i + 1);
        assert(s.take(i + 1).drop_last() =~= s.take(i));
    } else {
        assert(s.take(i) =~= s);
    }
}

/// Collects the handles of all live edges incident to `n`, in arena order.
pub(crate) fn collect_incident<E>(edges: &Arena<Edge<E>>, n: NodeIdx) -> (r: Vec<EdgeIdx>)
    requires
        edges.wf(),
    ensures
        r@.len() == incident_count(edges.slots_spec(), n),
        forall|k: int|
            0 <= k < r@.len() ==> edge_live_in(edges.slots_spec(), #[trigger] r@[k]) && (edge_at(
                edges.slots_spec(),
                r@[k],
            ).src == n || edge_at(edges.slots_spec(), r@[k]).dst == n),
        forall|k1: int, k2: int| 0 <= k1 < k2 < r@.len() ==> r@[k1] != r@[k2],
        forall|e: EdgeIdx|
            edge_live_in(edges.slots_spec(), e) && (edge_at(edges.slots_spec(), e).src == n
                || edge_at(edges.slots_spec(), e).dst == n) ==> r@.contains(e),
{
    let len = edges.slots_len();
    let mut r: Vec<EdgeIdx> = Vec::new();
    let mut i: usize = 0;
    while i < len
        invariant
            len == edges.slot_count(),
            i <= len,
            edges.wf(),
            r@.len() == incident_count(edges.slots_spec().take(i as int), n),
            forall|k: int|
                0 <= k < r@.len() ==> edge_live_in(edges.slots_spec(), #[trigger] r@[k]) && ((
                r@[k].index as int) < i) && (edge_at(edges.slots_spec(), r@[k]).src == n
                    || edge_at(edges.slots_spec(), r@[k]).dst == n),
            forall|k1: int, k2: int| 0 <= k1 < k2 < r@.len() ==> r@[k1].index < r@[k2].index,
            forall|e: EdgeIdx|
                edge_live_in(edges.slots_spec(), e) && (e.index as int) < i && (edge_at(
                    edges.slots_spec(),
                    e,
                ).src == n || edge_at(edges.slots_spec(), e).dst == n) ==> r@.contains(e),
        decreases len - i,
    {
        proof {
            lemma_counts_take_succ(edges.slots_spec(), n, i as int);
        }
        let ghost old_r = r@;
        if edges.occupied(i) {
            let g = edges.generation_of(i);
            match edges.get(i, g) {
                Some(ed) => {
                    if ed.src == n || ed.dst == n {
                        r.push(EdgeIdx { index: i, generation: g });
                    }
                },
                None => (),
            }
        }
        proof {
            assert forall|e: EdgeIdx|
                edge_live_in(edges.slots_spec(), e) && (e.index as int) < i + 1 && (edge_at(
                    edges.slots_spec(),
                    e,
                ).src == n || edge_at(edges.slots_spec(), e).dst == n) implies r@.contains(e) by {
                if (e.index as int) < i {
                    assert(old_r.contains(e));
                    let k = choose|k: int| 0 <= k < old_r.len() && old_r[k] == e;
                    assert(r@[k] == e);
                } else {
                    assert(r@.last() == e);
                }
            }
        }
        i = i + 1;
    }
    proof {
        lemma_take_all(edges.slots_spec());
    }
    r
}

/// How often one edge with liveness `live` and endpoints `(s, d)` occurs in
/// the reverse (incoming) index of `n` under the neighbor `m`: once when the
/// edge is live and runs from `m` to `n`.
pub open spec fn in_multiplicity(live: bool, s: NodeIdx, d: NodeIdx, n: NodeIdx, m: NodeIdx) -> nat {
    if live && d == n && s == m {
        1nat
    } else {
        0nat
    }
}

/// Whether an edge with endpoints `(s, d)` connects `a` to `b`: exactly
/// that orientation when `directed` holds, either orientation otherwise.
pub open spec fn connects_flag(
    directed: bool,
    s: NodeIdx,
    d: NodeIdx,
    a: NodeIdx,
    b: NodeIdx,
) -> bool {
    if directed {
        s == a && d == b
    } else {
        (s == a && d == b) || (s == b && d == a)
    }
}

/// How often one edge with liveness `live` and endpoints `(s, d)` occurs in
/// the adjacency record of `n` under the neighbor `m`: once per matching
/// orientation, so an undirected self-loop counts twice; for a directed
/// graph only the outgoing orientation counts.
pub open spec fn orient_multiplicity(
    directed: bool,
    live: bool,
    s: NodeIdx,
    d: NodeIdx,
    n: NodeIdx,
    m: NodeIdx,
) -> nat {
    if !live {
        0nat
    } else if directed {
        if s == n && d == m {
            1nat
        } else {
            0nat
        }
    } else {
        (if s == n && d == m {
            1nat
        } else {
            0nat
        }) + (if d == n && s == m {
            1nat
        } else {
            0nat
        })
    }
}

/// The uniform contract of every graph variant.
///
/// A graph is a pair of generational arenas (nodes and edges) plus an
/// adjacency index; the spec functions below are its mathematical model, and
/// each executable method's contract is stated over that model.  `wf` is the
/// structural invariant: every constructor establishes it and every method
/// preserves it, and all other methods require it.
pub trait Graph<N, E>: Sized {
    /// Whether edges of this variant are directed.
    spec fn directed_spec() -> bool;

    /// Whether this variant permits parallel edges and self-loops.
    spec fn multigraph_spec() -> bool;

    /// Whether an edge insertion puts the new association at the front of
    /// the source's adjacency record rather than at its back; a static,
    /// encoding-dependent fact that pins the record order `edges_of`
    /// reports after every insertion.
    spec fn adj_prepends_spec() -> bool;

    /// The structural invariant tying the arenas and the adjacency index
    /// together.
    spec fn wf(&self) -> bool;

    /// Whether `n` addresses a live node.
    spec fn has_node_spec(&self, n: NodeIdx) -> bool;

    /// The payload of the live node `n`.
    spec fn node_value_spec(&self, n: NodeIdx) -> N;

    /// How many nodes are live.
    spec fn node_count_spec(&self) -> nat;

    /// How many node slots the node arena has laid out.
    spec fn node_slot_count(&self) -> nat;

    /// The current generation of node slot `i`.
    spec fn node_gen_spec(&self, i: int) -> u64;

    /// Whether `e` addresses a live edge.
    spec fn has_edge_spec(&self, e: EdgeIdx) -> bool;

    /// The source endpoint of the live edge `e`.
    spec fn edge_src_spec(&self, e: EdgeIdx) -> NodeIdx;

    /// The destination endpoint of the live edge `e`.
    spec fn edge_dst_spec(&self, e: EdgeIdx) -> NodeIdx;

    /// The payload of the live edge `e`.
    spec fn edge_value_spec(&self, e: EdgeIdx) -> E;

    /// How many edges are live.
    spec fn edge_count_spec(&self) -> nat;

    /// How many edge slots the edge arena has laid out.
    spec fn edge_slot_count(&self) -> nat;

    /// The current generation of edge slot `i`.
    spec fn edge_gen_spec(&self, i: int) -> u64;

    /// The degree of `n`: live edge endpoints touching `n`, self-loops
    /// counted twice.
    spec fn degree_spec(&self, n: NodeIdx) -> nat;

    /// How many live edges touch `n`, each counted once.
    spec fn incident_spec(&self, n: NodeIdx) -> nat;

    /// How many live self-loops sit on `n`.
    spec fn self_loop_spec(&self, n: NodeIdx) -> nat;

    /// The adjacency record of `n` as `edges_of` reports it: `(neighbor,
    /// edge)` pairs in the record's own deterministic order.
    spec fn adj_seq(&self, n: NodeIdx) -> Seq<(NodeIdx, EdgeIdx)>;

    /// The handles of all live nodes in arena order, as `nodes` reports them.
    spec fn nodes_seq(&self) -> Seq<NodeIdx>;

    /// The handles of all live edges in arena order, as `edges` reports them.
    spec fn edges_seq(&self) -> Seq<EdgeIdx>;

    /// A live node handle points into the arena and carries its slot's
    /// current generation.
    proof fn lemma_node_handle(&self, n: NodeIdx)
        requires
            self.wf(),
            self.has_node_spec(n),
        ensures
            (n.index as int) < self.node_slot_count(),
            n.generation == self.node_gen_spec(n.index as int),
    ;

    /// A live edge handle points into the arena, carries its slot's current
    /// generation, and joins two live nodes; on a simple graph they differ.
    proof fn lemma_edge_handle(&self, e: EdgeIdx)
        requires
            self.wf(),
            self.has_edge_spec(e),
        ensures
            (e.index as int) < self.edge_slot_count(),
            e.generation == self.edge_gen_spec(e.index as int),
            self.has_node_spec(self.edge_src_spec(e)),
            self.has_node_spec(self.edge_dst_spec(e)),
            !Self::multigraph_spec() ==> self.edge_src_spec(e) != self.edge_dst_spec(e),
    ;

    /// Every adjacency entry of a live node names a live edge between the
    /// node and the entry's neighbor, outgoing for a directed graph.
    proof fn lemma_adj_entry(&self, n: NodeIdx, k: int)
        requires
            self.wf(),
            self.has_node_spec(n),
            0 <= k < self.adj_seq(n).len(),
        ensures
            self.has_edge_spec(self.adj_seq(n)[k].1),
            self.has_node_spec(self.adj_seq(n)[k].0),
            Self::directed_spec() ==> self.edge_src_spec(self.adj_seq(n)[k].1) == n
                && self.edge_dst_spec(self.adj_seq(n)[k].1) == self.adj_seq(n)[k].0,
            !Self::directed_spec() ==> (self.edge_src_spec(self.adj_seq(n)[k].1) == n
                && self.edge_dst_spec(self.adj_seq(n)[k].1) == self.adj_seq(n)[k].0) || (
            self.edge_src_spec(self.adj_seq(n)[k].1) == self.adj_seq(n)[k].0 && self.edge_dst_spec(
                self.adj_seq(n)[k].1,
            ) == n),
    ;

    /// The adjacency record of a live node holds each `(neighbor, edge)`
    /// pair exactly as often as the live edges require: the record is sound
    /// and complete.
    proof fn lemma_adj_count(&self, n: NodeIdx, m: NodeIdx, e: EdgeIdx)
        requires
            self.wf(),
            self.has_node_spec(n),
        ensures
            self.adj_seq(n).to_multiset().count((m, e)) == orient_multiplicity(
                Self::directed_spec(),
                self.has_edge_spec(e),
                self.edge_src_spec(e),
                self.edge_dst_spec(e),
                n,
                m,
            ),
    ;

    /// Degree splits into incidences plus self-loops.
    proof fn lemma_degree_decomposition(&self, n: NodeIdx)
        requires
            self.wf(),
        ensures
            self.degree_spec(n) == self.incident_spec(n) + self.self_loop_spec(n),
    ;

    /// The incidence and self-loop counts are the cardinalities of the
    /// corresponding sets of live edge handles: any set whose members are
    /// exactly the live edges touching `n` (or exactly the live loops on
    /// `n`) is finite and has the respective count as its size, so a caller
    /// who knows the pointwise edge model can compute both counts.
    proof fn lemma_count_cardinalities(&self, n: NodeIdx, inc: Set<EdgeIdx>, loops: Set<EdgeIdx>)
        requires
            self.wf(),
            forall|e: EdgeIdx|
                #[trigger] inc.contains(e) <==> (self.has_edge_spec(e) && (self.edge_src_spec(e)
                    == n || self.edge_dst_spec(e) == n)),
            forall|e: EdgeIdx|
                #[trigger] loops.contains(e) <==> (self.has_edge_spec(e) && self.edge_src_spec(e)
                    == n && self.edge_dst_spec(e) == n),
        ensures
            inc.finite(),
            self.incident_spec(n) == inc.len(),
            loops.finite(),
            self.self_loop_spec(n) == loops.len(),
    ;

    /// On a graph variant that disallows parallel edges, at most one live
    /// edge connects any pair: two live edges connecting the same (ordered
    /// or unordered) pair are the same edge.
    proof fn lemma_simple_pair_unique(&self, e1: EdgeIdx, e2: EdgeIdx)
        requires
            self.wf(),
            !Self::multigraph_spec(),
            self.has_edge_spec(e1),
            self.has_edge_spec(e2),
            connects_flag(
                Self::directed_spec(),
                self.edge_src_spec(e2),
                self.edge_dst_spec(e2),
                self.edge_src_spec(e1),
                self.edge_dst_spec(e1),
            ),
        ensures
            e1 == e2,
    ;

    /// Creates an empty graph.
    fn new() -> (r: Self)
        ensures
            r.wf(),
            r.node_count_spec() == 0,
            r.edge_count_spec() == 0,
            r.node_slot_count() == 0,
            r.edge_slot_count() == 0,
            forall|n: NodeIdx| !(#[trigger] r.has_node_spec(n)),
            forall|e: EdgeIdx| !(#[trigger] r.has_edge_spec(e)),
    ;

    /// Whether edges of this graph are directed.
    fn is_directed(&self) -> (r: bool)
        ensures
            r == Self::directed_spec(),
    ;

    /// Whether this graph permits parallel edges and self-loops.
    fn is_multigraph(&self) -> (r: bool)
        ensures
            r == Self::multigraph_spec(),
    ;

    /// How many nodes are live.
    fn node_count(&self) -> (r: usize)
        requires
            self.wf(),
        ensures
            r == self.node_count_spec(),
    ;

    /// How many edges are live.
    fn edge_count(&self) -> (r: usize)
        requires
            self.wf(),
        ensures
            r == self.edge_count_spec(),
    ;

    /// Whether the graph has no nodes.
    fn is_empty(&self) -> (r: bool)
        requires
            self.wf(),
        ensures
            r == (self.node_count_spec() == 0),
    {
        self.node_count() == 0
    }

    /// Adds a node holding `value` and returns its fresh handle.  The new
    /// node has an empty adjacency record; nothing else changes.
    fn add_node(&mut self, value: N) -> (r: NodeIdx)
        requires
            old(self).wf(),
            old(self).node_count_spec() < usize::MAX,
        ensures
            final(self).wf(),
            final(self).has_node_spec(r),
            !old(self).has_node_spec(r),
            final(self).node_value_spec(r) == value,
            final(self).node_count_spec() == old(self).node_count_spec() + 1,
            final(self).adj_seq(r) == Seq::<(NodeIdx, EdgeIdx)>::empty(),
            forall|n: NodeIdx|
                n != r ==> #[trigger] final(self).has_node_spec(n) == old(self).has_node_spec(n),
            forall|n: NodeIdx|
                n != r && old(self).has_node_spec(n) ==> #[trigger] final(self).node_value_spec(n)
                    == old(self).node_value_spec(n),
            forall|n: NodeIdx|
                n != r && old(self).has_node_spec(n) ==> #[trigger] final(self).adj_seq(n) == old(self).adj_seq(n),
            forall|e: EdgeIdx|
                #[trigger] final(self).has_edge_spec(e) == old(self).has_edge_spec(e),
            forall|e: EdgeIdx|
                old(self).has_edge_spec(e) ==> #[trigger] final(self).edge_src_spec(e) == old(self).edge_src_spec(e) && final(self).edge_dst_spec(e) == old(self).edge_dst_spec(e)
                    && final(self).edge_value_spec(e) == old(self).edge_value_spec(e),
            final(self).edge_count_spec() == old(self).edge_count_spec(),
            forall|n: NodeIdx|
                #[trigger] final(self).degree_spec(n) == old(self).degree_spec(n),
            old(self).node_slot_count() <= final(self).node_slot_count() <= old(self).node_slot_count() + 1,
            forall|i: int|
                0 <= i < old(self).node_slot_count() ==> #[trigger] final(self).node_gen_spec(i)
                    == old(self).node_gen_spec(i),
            final(self).edge_slot_count() == old(self).edge_slot_count(),
            forall|i: int|
                0 <= i < old(self).edge_slot_count() ==> #[trigger] final(self).edge_gen_spec(i)
                    == old(self).edge_gen_spec(i),
            (r.index as int) < old(self).node_slot_count() ==> r.generation == old(self).node_gen_spec(r.index as int),
            (r.index as int) >= old(self).node_slot_count() ==> r.index == old(self).node_slot_count(),
    ;

    /// Adds an edge between `src` and `dst` holding `value`.
    ///
    /// On a simple graph a self-pair fails with `Loop`, live or not; after
    /// that an absent endpoint fails with `NodeNotFound` (`src` reported
    /// first) and, on a simple graph, an already connected pair with
    /// `DuplicateEdge`.  Otherwise it returns the fresh handle of the new
    /// edge and leaves everything else unchanged.  On failure the graph is
    /// untouched.
    fn try_add_edge(&mut self, src: NodeIdx, dst: NodeIdx, value: E) -> (r: Result<
        EdgeIdx,
        GraphError,
    >)
        requires
            old(self).wf(),
            old(self).edge_count_spec() < usize::MAX / 2,
        ensures
            final(self).wf(),
            r is Ok <==> (old(self).has_node_spec(src) && old(self).has_node_spec(dst) && (
            Self::multigraph_spec() || (src != dst && !(exists|ei: EdgeIdx|
                #[trigger] old(self).has_edge_spec(ei) && connects_flag(
                    Self::directed_spec(),
                    old(self).edge_src_spec(ei),
                    old(self).edge_dst_spec(ei),
                    src,
                    dst,
                ))))),
            match r {
                Ok(e) => {
                    &&& final(self).has_edge_spec(e)
                    &&& !old(self).has_edge_spec(e)
                    &&& final(self).edge_src_spec(e) == src
                    &&& final(self).edge_dst_spec(e) == dst
                    &&& final(self).edge_value_spec(e) == value
                    &&& final(self).edge_count_spec() == old(self).edge_count_spec() + 1
                    &&& forall|e2: EdgeIdx|
                        e2 != e ==> #[trigger] final(self).has_edge_spec(e2) == old(self).has_edge_spec(e2)
                    &&& forall|e2: EdgeIdx|
                        e2 != e && old(self).has_edge_spec(e2) ==> #[trigger] final(self).edge_src_spec(e2) == old(self).edge_src_spec(e2) && final(self).edge_dst_spec(e2) == old(self).edge_dst_spec(e2) && final(self).edge_value_spec(e2) == old(self).edge_value_spec(e2)
                    &&& forall|n: NodeIdx|
                        #[trigger] final(self).has_node_spec(n) == old(self).has_node_spec(n)
                    &&& forall|n: NodeIdx|
                        old(self).has_node_spec(n) ==> #[trigger] final(self).node_value_spec(n)
                            == old(self).node_value_spec(n)
                    &&& final(self).node_count_spec() == old(self).node_count_spec()
                    &&& forall|n: NodeIdx|
                        n != src && n != dst && old(self).has_node_spec(n) ==> #[trigger] final(self).adj_seq(n) == old(self).adj_seq(n)
                    &&& (src == dst ==> final(self).adj_seq(src) == (if Self::directed_spec() {
                        old(self).adj_seq(src).push((dst, e))
                    } else {
                        old(self).adj_seq(src).push((dst, e)).push((src, e))
                    }))
                    &&& (src != dst ==> final(self).adj_seq(src) == (
                    if Self::adj_prepends_spec() {
                        seq![(dst, e)] + old(self).adj_seq(src)
                    } else {
                        old(self).adj_seq(src).push((dst, e))
                    }) && final(self).adj_seq(dst) == (if Self::directed_spec() {
                        old(self).adj_seq(dst)
                    } else {
                        old(self).adj_seq(dst).push((src, e))
                    }))
                    &&& final(self).node_slot_count() == old(self).node_slot_count()
                    &&& forall|i: int|
                        0 <= i < old(self).node_slot_count() ==> #[trigger] final(self).node_gen_spec(i) == old(self).node_gen_spec(i)
                    &&& old(self).edge_slot_count() <= final(self).edge_slot_count() <= old(self).edge_slot_count() + 1
                    &&& forall|i: int|
                        0 <= i < old(self).edge_slot_count() ==> #[trigger] final(self).edge_gen_spec(i) == old(self).edge_gen_spec(i)
                    &&& ((e.index as int) < old(self).edge_slot_count() ==> e.generation == old(self).edge_gen_spec(e.index as int))
                    &&& ((e.index as int) >= old(self).edge_slot_count() ==> e.index == old(self).edge_slot_count())
                },
                Err(ge) => {
                    &&& *final(self) == *old(self)
                    &&& ge == (if !Self::multigraph_spec() && src == dst {
                        GraphError::Loop(src)
                    } else if !old(self).has_node_spec(src) {
                        GraphError::NodeNotFound(src)
                    } else if !old(self).has_node_spec(dst) {
                        GraphError::NodeNotFound(dst)
                    } else {
                        GraphError::DuplicateEdge(src, dst)
                    })
                },
            },
    ;

    /// The unwrapping form of `try_add_edge`, for call sites that have
    /// already established that the edge can be added.
    fn add_edge(&mut self, src: NodeIdx, dst: NodeIdx, value: E) -> (r: EdgeIdx)
        requires
            old(self).wf(),
            old(self).edge_count_spec() < usize::MAX / 2,
            old(self).has_node_spec(src),
            old(self).has_node_spec(dst),
            Self::multigraph_spec() || (src != dst && !(exists|ei: EdgeIdx|
                #[trigger] old(self).has_edge_spec(ei) && connects_flag(
                    Self::directed_spec(),
                    old(self).edge_src_spec(ei),
                    old(self).edge_dst_spec(ei),
                    src,
                    dst,
                ))),
        ensures
            final(self).wf(),
            final(self).has_edge_spec(r),
            !old(self).has_edge_spec(r),
            final(self).edge_src_spec(r) == src,
            final(self).edge_dst_spec(r) == dst,
            final(self).edge_value_spec(r) == value,
            final(self).edge_count_spec() == old(self).edge_count_spec() + 1,
            forall|e2: EdgeIdx|
                e2 != r ==> #[trigger] final(self).has_edge_spec(e2) == old(self).has_edge_spec(
                    e2,
                ),
            forall|e2: EdgeIdx|
                e2 != r && old(self).has_edge_spec(e2) ==> #[trigger] final(self).edge_src_spec(e2)
                    == old(self).edge_src_spec(e2) && final(self).edge_dst_spec(e2) == old(self).edge_dst_spec(e2) && final(self).edge_value_spec(e2) == old(self).edge_value_spec(e2),
            forall|n: NodeIdx|
                #[trigger] final(self).has_node_spec(n) == old(self).has_node_spec(n),
            forall|n: NodeIdx|
                old(self).has_node_spec(n) ==> #[trigger] final(self).node_value_spec(n) == old(self).node_value_spec(n),
            final(self).node_count_spec() == old(self).node_count_spec(),
            forall|n: NodeIdx|
                n != src && n != dst && old(self).has_node_spec(n) ==> #[trigger] final(self).adj_seq(n) == old(self).adj_seq(n),
            src == dst ==> final(self).adj_seq(src) == (if Self::directed_spec() {
                old(self).adj_seq(src).push((dst, r))
            } else {
                old(self).adj_seq(src).push((dst, r)).push((src, r))
            }),
            src != dst ==> final(self).adj_seq(src) == (if Self::adj_prepends_spec() {
                seq![(dst, r)] + old(self).adj_seq(src)
            } else {
                old(self).adj_seq(src).push((dst, r))
            }) && final(self).adj_seq(dst) == (if Self::directed_spec() {
                old(self).adj_seq(dst)
            } else {
                old(self).adj_seq(dst).push((src, r))
            }),
    {
        let r = self.try_add_edge(src, dst, value);
        match r {
            Ok(e) => e,
            Err(_) => vstd::pervasive::unreached(),
        }
    }

    /// Whether `n` addresses a live node.
    fn has_node(&self, n: NodeIdx) -> (r: bool)
        requires
            self.wf(),
        ensures
            r == self.has_node_spec(n),
    ;

    /// Whether a live edge connects `src` to `dst` (in either orientation
    /// for an undirected graph).  Both endpoints must be live; callers check
    /// `has_node` first.
    fn contains_edge_between(&self, src: NodeIdx, dst: NodeIdx) -> (r: bool)
        requires
            self.wf(),
            self.has_node_spec(src),
            self.has_node_spec(dst),
        ensures
            r == exists|ei: EdgeIdx|
                #[trigger] self.has_edge_spec(ei) && connects_flag(
                    Self::directed_spec(),
                    self.edge_src_spec(ei),
                    self.edge_dst_spec(ei),
                    src,
                    dst,
                ),
    ;

    /// Removes the node `n`, first cascading removal of every live edge
    /// incident to it, and returns its payload; returns `None` (leaving the
    /// graph untouched) when `n` is not live.  The freed node slot's
    /// generation is bumped past `n`'s, so the handle is stale from then on.
    fn remove_node(&mut self, n: NodeIdx) -> (r: Option<N>)
        requires
            old(self).wf(),
        ensures
            final(self).wf(),
            match r {
                Some(v) => {
                    &&& old(self).has_node_spec(n)
                    &&& v == old(self).node_value_spec(n)
                    &&& !final(self).has_node_spec(n)
                    &&& final(self).node_count_spec() == old(self).node_count_spec() - 1
                    &&& forall|m: NodeIdx|
                        m != n ==> #[trigger] final(self).has_node_spec(m) == old(self).has_node_spec(m)
                    &&& forall|m: NodeIdx|
                        m != n && old(self).has_node_spec(m) ==> #[trigger] final(self).node_value_spec(m) == old(self).node_value_spec(m)
                    &&& forall|e: EdgeIdx|
                        #[trigger] final(self).has_edge_spec(e) == (old(self).has_edge_spec(e)
                            && old(self).edge_src_spec(e) != n && old(self).edge_dst_spec(e) != n)
                    &&& forall|e: EdgeIdx|
                        final(self).has_edge_spec(e) ==> #[trigger] final(self).edge_src_spec(e)
                            == old(self).edge_src_spec(e) && final(self).edge_dst_spec(e) == old(self).edge_dst_spec(e) && final(self).edge_value_spec(e) == old(self).edge_value_spec(e)
                    &&& final(self).edge_count_spec() == old(self).edge_count_spec() - old(self).incident_spec(n)
                    &&& final(self).node_slot_count() == old(self).node_slot_count()
                    &&& final(self).node_gen_spec(n.index as int) > n.generation
                    &&& forall|i: int|
                        0 <= i < old(self).node_slot_count() && i != n.index as int
                            ==> #[trigger] final(self).node_gen_spec(i) == old(self).node_gen_spec(
                            i,
                        )
                    &&& final(self).edge_slot_count() == old(self).edge_slot_count()
                    &&& forall|i: int|
                        0 <= i < old(self).edge_slot_count() ==> #[trigger] final(self).edge_gen_spec(i) >= old(self).edge_gen_spec(i)
                },
                None => {
                    &&& !old(self).has_node_spec(n)
                    &&& *final(self) == *old(self)
                },
            },
    ;

    /// Removes the edge `e` from the edge arena and from the adjacency
    /// records of both its endpoints, and returns its payload; returns
    /// `None` (leaving the graph untouched) when `e` is not live.  The freed
    /// edge slot's generation is bumped past `e`'s.
    fn remove_edge(&mut self, e: EdgeIdx) -> (r: Option<E>)
        requires
            old(self).wf(),
        ensures
            final(self).wf(),
            match r {
                Some(v) => {
                    &&& old(self).has_edge_spec(e)
                    &&& v == old(self).edge_value_spec(e)
                    &&& !final(self).has_edge_spec(e)
                    &&& final(self).edge_count_spec() == old(self).edge_count_spec() - 1
                    &&& forall|e2: EdgeIdx|
                        e2 != e ==> #[trigger] final(self).has_edge_spec(e2) == old(self).has_edge_spec(e2)
                    &&& forall|e2: EdgeIdx|
                        e2 != e && old(self).has_edge_spec(e2) ==> #[trigger] final(self).edge_src_spec(e2) == old(self).edge_src_spec(e2) && final(self).edge_dst_spec(e2) == old(self).edge_dst_spec(e2) && final(self).edge_value_spec(e2) == old(self).edge_value_spec(e2)
                    &&& forall|m: NodeIdx|
                        #[trigger] final(self).has_node_spec(m) == old(self).has_node_spec(m)
                    &&& forall|m: NodeIdx|
                        old(self).has_node_spec(m) ==> #[trigger] final(self).node_value_spec(m)
                            == old(self).node_value_spec(m)
                    &&& final(self).node_count_spec() == old(self).node_count_spec()
                    &&& forall|m: NodeIdx|
                        old(self).has_node_spec(m) && m != old(self).edge_src_spec(e) && m != old(self).edge_dst_spec(e) ==> #[trigger] final(self).adj_seq(m) == old(self).adj_seq(m)
                    &&& final(self).node_slot_count() == old(self).node_slot_count()
                    &&& forall|i: int|
                        0 <= i < old(self).node_slot_count() ==> #[trigger] final(self).node_gen_spec(i) == old(self).node_gen_spec(i)
                    &&& final(self).edge_slot_count() == old(self).edge_slot_count()
                    &&& final(self).edge_gen_spec(e.index as int) > e.generation
                    &&& forall|i: int|
                        0 <= i < old(self).edge_slot_count() && i != e.index as int
                            ==> #[trigger] final(self).edge_gen_spec(i) == old(self).edge_gen_spec(
                            i,
                        )
                },
                None => {
                    &&& !old(self).has_edge_spec(e)
                    &&& *final(self) == *old(self)
                },
            },
    ;

    /// Removes every edge; the nodes survive with emptied adjacency records.
    /// Every previously issued edge handle is stale afterwards.
    fn clear_edges(&mut self)
        requires
            old(self).wf(),
        ensures
            final(self).wf(),
            final(self).edge_count_spec() == 0,
            forall|e: EdgeIdx| !(#[trigger] final(self).has_edge_spec(e)),
            forall|n: NodeIdx|
                #[trigger] final(self).has_node_spec(n) == old(self).has_node_spec(n),
            forall|n: NodeIdx|
                old(self).has_node_spec(n) ==> #[trigger] final(self).node_value_spec(n) == old(self).node_value_spec(n),
            final(self).node_count_spec() == old(self).node_count_spec(),
            forall|n: NodeIdx|
                old(self).has_node_spec(n) ==> #[trigger] final(self).adj_seq(n) == Seq::<
                    (NodeIdx, EdgeIdx),
                >::empty(),
            final(self).node_slot_count() == old(self).node_slot_count(),
            forall|i: int|
                0 <= i < old(self).node_slot_count() ==> #[trigger] final(self).node_gen_spec(i)
                    == old(self).node_gen_spec(i),
            final(self).edge_slot_count() == old(self).edge_slot_count(),
            forall|e: EdgeIdx|
                #[trigger] old(self).has_edge_spec(e) ==> final(self).edge_gen_spec(
                    e.index as int,
                ) > e.generation,
            forall|i: int|
                0 <= i < old(self).edge_slot_count() ==> #[trigger] final(self).edge_gen_spec(i)
                    >= old(self).edge_gen_spec(i),
    ;

    /// Removes every node and every edge.  The slot layouts survive and
    /// every freed slot's generation is bumped, so every previously issued
    /// handle is stale afterwards: a node added later never compares equal
    /// to a handle from before the clear.
    fn clear(&mut self)
        requires
            old(self).wf(),
        ensures
            final(self).wf(),
            final(self).node_count_spec() == 0,
            final(self).edge_count_spec() == 0,
            forall|n: NodeIdx| !(#[trigger] final(self).has_node_spec(n)),
            forall|e: EdgeIdx| !(#[trigger] final(self).has_edge_spec(e)),
            final(self).node_slot_count() == old(self).node_slot_count(),
            final(self).edge_slot_count() == old(self).edge_slot_count(),
            forall|n: NodeIdx|
                #[trigger] old(self).has_node_spec(n) ==> final(self).node_gen_spec(
                    n.index as int,
                ) > n.generation,
            forall|e: EdgeIdx|
                #[trigger] old(self).has_edge_spec(e) ==> final(self).edge_gen_spec(
                    e.index as int,
                ) > e.generation,
            forall|i: int|
                0 <= i < old(self).node_slot_count() ==> #[trigger] final(self).node_gen_spec(i)
                    >= old(self).node_gen_spec(i),
            forall|i: int|
                0 <= i < old(self).edge_slot_count() ==> #[trigger] final(self).edge_gen_spec(i)
                    >= old(self).edge_gen_spec(i),
    ;

    /// A reference to the payload of node `n`, if it is live.
    fn get_node(&self, n: NodeIdx) -> (r: Option<&N>)
        requires
            self.wf(),
        ensures
            match r {
                Some(v) => self.has_node_spec(n) && *v == self.node_value_spec(n),
                None => !self.has_node_spec(n),
            },
    ;

    /// A mutable reference to the payload of node `n`, if it is live.
    /// Whatever the caller writes through the reference becomes the node's
    /// payload; nothing else about the graph changes.
    fn get_node_mut(&mut self, n: NodeIdx) -> (r: Option<&mut N>)
        requires
            old(self).wf(),
        ensures
            match r {
                Some(p) => {
                    &&& old(self).has_node_spec(n)
                    &&& *p == old(self).node_value_spec(n)
                    &&& final(self).wf()
                    &&& final(self).node_value_spec(n) == *final(p)
                    &&& forall|m: NodeIdx|
                        #[trigger] final(self).has_node_spec(m) == old(self).has_node_spec(m)
                    &&& forall|m: NodeIdx|
                        m != n && old(self).has_node_spec(m) ==> #[trigger] final(self).node_value_spec(m) == old(self).node_value_spec(m)
                    &&& forall|m: NodeIdx|
                        old(self).has_node_spec(m) ==> #[trigger] final(self).adj_seq(m) =~= old(self).adj_seq(m)
                    &&& final(self).node_count_spec() == old(self).node_count_spec()
                    &&& forall|e: EdgeIdx|
                        #[trigger] final(self).has_edge_spec(e) == old(self).has_edge_spec(e)
                    &&& forall|e: EdgeIdx|
                        old(self).has_edge_spec(e) ==> #[trigger] final(self).edge_src_spec(e)
                            == old(self).edge_src_spec(e) && final(self).edge_dst_spec(e) == old(self).edge_dst_spec(e) && final(self).edge_value_spec(e) == old(self).edge_value_spec(e)
                    &&& final(self).edge_count_spec() == old(self).edge_count_spec()
                    &&& final(self).node_slot_count() == old(self).node_slot_count()
                    &&& forall|i: int|
                        0 <= i < old(self).node_slot_count() ==> #[trigger] final(self).node_gen_spec(i) == old(self).node_gen_spec(i)
                    &&& final(self).edge_slot_count() == old(self).edge_slot_count()
                    &&& forall|i: int|
                        0 <= i < old(self).edge_slot_count() ==> #[trigger] final(self).edge_gen_spec(i) == old(self).edge_gen_spec(i)
                },
                None => {
                    &&& !old(self).has_node_spec(n)
                    &&& *final(self) == *old(self)
                },
            },
    ;

    /// A view of the edge `e` — its endpoints plus a reference to its
    /// payload — if it is live.
    fn get_edge(&self, e: EdgeIdx) -> (r: Option<EdgeRef<'_, E>>)
        requires
            self.wf(),
        ensures
            match r {
                Some(er) => {
                    &&& self.has_edge_spec(e)
                    &&& er.src == self.edge_src_spec(e)
                    &&& er.dst == self.edge_dst_spec(e)
                    &&& *er.data == self.edge_value_spec(e)
                },
                None => !self.has_edge_spec(e),
            },
    ;

    /// A mutable reference to the payload of edge `e`, if it is live.
    /// Whatever the caller writes through the reference becomes the edge's
    /// payload; nothing else about the graph changes.
    fn get_edge_mut(&mut self, e: EdgeIdx) -> (r: Option<&mut E>)
        requires
            old(self).wf(),
        ensures
            match r {
                Some(p) => {
                    &&& old(self).has_edge_spec(e)
                    &&& *p == old(self).edge_value_spec(e)
                    &&& final(self).wf()
                    &&& final(self).edge_value_spec(e) == *final(p)
                    &&& forall|e2: EdgeIdx|
                        #[trigger] final(self).has_edge_spec(e2) == old(self).has_edge_spec(e2)
                    &&& forall|e2: EdgeIdx|
                        old(self).has_edge_spec(e2) ==> #[trigger] final(self).edge_src_spec(e2)
                            == old(self).edge_src_spec(e2) && final(self).edge_dst_spec(e2) == old(self).edge_dst_spec(e2)
                    &&& forall|e2: EdgeIdx|
                        e2 != e && old(self).has_edge_spec(e2) ==> #[trigger] final(self).edge_value_spec(e2) == old(self).edge_value_spec(e2)
                    &&& final(self).edge_count_spec() == old(self).edge_count_spec()
                    &&& forall|m: NodeIdx|
                        #[trigger] final(self).has_node_spec(m) == old(self).has_node_spec(m)
                    &&& forall|m: NodeIdx|
                        old(self).has_node_spec(m) ==> #[trigger] final(self).node_value_spec(m)
                            == old(self).node_value_spec(m)
                    &&& forall|m: NodeIdx|
                        old(self).has_node_spec(m) ==> #[trigger] final(self).adj_seq(m) == old(self).adj_seq(m)
                    &&& final(self).node_count_spec() == old(self).node_count_spec()
                    &&& final(self).node_slot_count() == old(self).node_slot_count()
                    &&& forall|i: int|
                        0 <= i < old(self).node_slot_count() ==> #[trigger] final(self).node_gen_spec(i) == old(self).node_gen_spec(i)
                    &&& final(self).edge_slot_count() == old(self).edge_slot_count()
                    &&& forall|i: int|
                        0 <= i < old(self).edge_slot_count() ==> #[trigger] final(self).edge_gen_spec(i) == old(self).edge_gen_spec(i)
                },
                None => {
                    &&& !old(self).has_edge_spec(e)
                    &&& *final(self) == *old(self)
                },
            },
    ;

    /// The degree of the live node `n`: incident live edge endpoints,
    /// self-loops counted twice.
    fn degree(&self, n: NodeIdx) -> (r: usize)
        requires
            self.wf(),
            self.has_node_spec(n),
        ensures
            r == self.degree_spec(n),
    ;

    /// The handles of all live nodes, in arena order.
    fn nodes(&self) -> (r: Vec<NodeIdx>)
        requires
            self.wf(),
        ensures
            r@ == self.nodes_seq(),
            r@.len() == self.node_count_spec(),
            forall|k: int| 0 <= k < r@.len() ==> self.has_node_spec(#[trigger] r@[k]),
            forall|k1: int, k2: int| 0 <= k1 < k2 < r@.len() ==> r@[k1] != r@[k2],
            forall|n: NodeIdx| #[trigger] self.has_node_spec(n) ==> r@.contains(n),
    ;

    /// The handles of all live edges, in arena order.
    fn edges(&self) -> (r: Vec<EdgeIdx>)
        requires
            self.wf(),
        ensures
            r@ == self.edges_seq(),
            r@.len() == self.edge_count_spec(),
            forall|k: int| 0 <= k < r@.len() ==> self.has_edge_spec(#[trigger] r@[k]),
            forall|k1: int, k2: int| 0 <= k1 < k2 < r@.len() ==> r@[k1] != r@[k2],
            forall|e: EdgeIdx| #[trigger] self.has_edge_spec(e) ==> r@.contains(e),
    ;

    /// The `(neighbor, edge)` pairs incident to the live node `n`, in the
    /// adjacency record's own deterministic order; outgoing edges only for a
    /// directed graph.
    fn edges_of(&self, n: NodeIdx) -> (r: Vec<(NodeIdx, EdgeIdx)>)
        requires
            self.wf(),
            self.has_node_spec(n),
        ensures
            r@ == self.adj_seq(n),
    ;

    /// The handles of every live edge connecting `src` to `dst` (an
    /// undirected self-loop is reported once per orientation, hence twice).
    /// The order is unspecified.
    fn edges_between(&self, src: NodeIdx, dst: NodeIdx) -> (r: Vec<EdgeIdx>)
        requires
            self.wf(),
            self.has_node_spec(src),
        ensures
            forall|e: EdgeIdx|
                #[trigger] r@.to_multiset().count(e) == orient_multiplicity(
                    Self::directed_spec(),
                    self.has_edge_spec(e),
                    self.edge_src_spec(e),
                    self.edge_dst_spec(e),
                    src,
                    dst,
                ),
    ;

    /// The checked form of `edges_between`: fails with `NodeNotFound` when
    /// `src` is absent, and otherwise reports the connecting edges exactly
    /// as `edges_between` does.
    fn try_edges_between(&self, src: NodeIdx, dst: NodeIdx) -> (r: Result<Vec<EdgeIdx>, GraphError>)
        requires
            self.wf(),
        ensures
            match r {
                Ok(v) => {
                    &&& self.has_node_spec(src)
                    &&& forall|e: EdgeIdx|
                        #[trigger] v@.to_multiset().count(e) == orient_multiplicity(
                            Self::directed_spec(),
                            self.has_edge_spec(e),
                            self.edge_src_spec(e),
                            self.edge_dst_spec(e),
                            src,
                            dst,
                        )
                },
                Err(ge) => ge == GraphError::NodeNotFound(src) && !self.has_node_spec(src),
            },
    {
        if self.has_node(src) {
            Ok(self.edges_between(src, dst))
        } else {
            Err(GraphError::NodeNotFound(src))
        }
    }
}

/// The refinement of [`Graph`] for the variants that hold at most one edge
/// between any pair of nodes.
pub trait SimpleGraph<N, E>: Graph<N, E> {
    /// The handle of the edge between `from` and `to`, if there is one.
    /// Fails only when `from` is absent; an absent `to` simply finds no
    /// edge.
    fn edge_between(&self, from: NodeIdx, to: NodeIdx) -> (r: Result<Option<EdgeIdx>, GraphError>)
        requires
            self.wf(),
        ensures
            match r {
                Ok(Some(e)) => self.has_node_spec(from) && self.has_edge_spec(e) && connects_flag(
                    Self::directed_spec(),
                    self.edge_src_spec(e),
                    self.edge_dst_spec(e),
                    from,
                    to,
                ),
                Ok(None) => self.has_node_spec(from) && !(exists|ei: EdgeIdx|
                    #[trigger] self.has_edge_spec(ei) && connects_flag(
                        Self::directed_spec(),
                        self.edge_src_spec(ei),
                        self.edge_dst_spec(ei),
                        from,
                        to,
                    )),
                Err(ge) => ge == GraphError::NodeNotFound(from) && !self.has_node_spec(from),
            },
    ;

    /// The precondition-verified form of `edge_between`: callable only when
    /// the edge is already known to exist.
    fn edge_between_unchecked(&self, from: NodeIdx, to: NodeIdx) -> (r: EdgeIdx)
        requires
            self.wf(),
            self.has_node_spec(from),
            exists|ei: EdgeIdx|
                #[trigger] self.has_edge_spec(ei) && connects_flag(
                    Self::directed_spec(),
                    self.edge_src_spec(ei),
                    self.edge_dst_spec(ei),
                    from,
                    to,
                ),
        ensures
            self.has_edge_spec(r) && connects_flag(
                Self::directed_spec(),
                self.edge_src_spec(r),
                self.edge_dst_spec(r),
                from,
                to,
            ),
    ;
}

/// Whether the live edge `e` connects `a` to `b`: exactly that orientation
/// for a directed graph, either orientation for an undirected one.
pub open spec fn edge_connects<N, E, G: Graph<N, E>>(
    g: G,
    e: EdgeIdx,
    a: NodeIdx,
    b: NodeIdx,
) -> bool {
    &&& g.has_edge_spec(e)
    &&& connects_flag(G::directed_spec(), g.edge_src_spec(e), g.edge_dst_spec(e), a, b)
}

/// Whether some live edge connects `a` to `b`.
pub open spec fn has_edge_between<N, E, G: Graph<N, E>>(g: G, a: NodeIdx, b: NodeIdx) -> bool {
    exists|e: EdgeIdx|
        #[trigger] g.has_edge_spec(e) && connects_flag(
            G::directed_spec(),
            g.edge_src_spec(e),
            g.edge_dst_spec(e),
            a,
            b,
        )
}

/// How often the adjacency record of `n` holds the pair `(m, e)`.
pub open spec fn adj_multiplicity<N, E, G: Graph<N, E>>(
    g: G,
    n: NodeIdx,
    m: NodeIdx,
    e: EdgeIdx,
) -> nat {
    orient_multiplicity(
        G::directed_spec(),
        g.has_edge_spec(e),
        g.edge_src_spec(e),
        g.edge_dst_spec(e),
        n,
        m,
    )
}

/// Whether `try_add_edge` must succeed on the given inputs.
pub open spec fn can_add_edge<N, E, G: Graph<N, E>>(g: G, src: NodeIdx, dst: NodeIdx) -> bool {
    &&& g.has_node_spec(src)
    &&& g.has_node_spec(dst)
    &&& (G::multigraph_spec() || (src != dst && !has_edge_between(g, src, dst)))
}

/// The error `try_add_edge` reports for the given inputs.  On a graph
/// variant that disallows self-loops, a self-pair is `Loop` no matter
/// whether the node is live; after that come the missing source, the
/// missing destination, and finally the already-connected pair.
pub open spec fn add_edge_error<N, E, G: Graph<N, E>>(
    g: G,
    src: NodeIdx,
    dst: NodeIdx,
) -> GraphError {
    if !G::multigraph_spec() && src == dst {
        GraphError::Loop(src)
    } else if !g.has_node_spec(src) {
        GraphError::NodeNotFound(src)
    } else if !g.has_node_spec(dst) {
        GraphError::NodeNotFound(dst)
    } else {
        GraphError::DuplicateEdge(src, dst)
    }
}

/// In a sequence of `(neighbor, edge)` pairs whose edge components are
/// pairwise distinct, every pair occurs at most once, so its multiset count
/// is one exactly when the pair is present.
pub proof fn lemma_pair_count_distinct_edges(rec: Seq<(NodeIdx, EdgeIdx)>, m: NodeIdx, e: EdgeIdx)
    requires
        forall|k1: int, k2: int| 0 <= k1 < k2 < rec.len() ==> rec[k1].1 != rec[k2].1,
    ensures
        rec.to_multiset().count((m, e)) == (if rec.contains((m, e)) {
            1nat
        } else {
            0nat
        }),
    decreases rec.len(),
{
    broadcast use vstd::seq_lib::group_to_multiset_ensures;

    if rec.len() == 0 {
        assert(!rec.contains((m, e)));
    } else {
        let pre = rec.drop_last();
        let last = rec.last();
        assert(rec =~= pre.push(last));
        lemma_pair_count_distinct_edges(pre, m, e);
        assert(rec.to_multiset() =~= pre.to_multiset().insert(last));
        if last == (m, e) {
            if pre.contains((m, e)) {
                let k = choose|k: int| 0 <= k < pre.len() && pre[k] == (m, e);
                assert(rec[k] == (m, e));
                assert(rec[rec.len() - 1] == (m, e));
                assert(rec[k].1 == rec[rec.len() - 1].1);
                assert(false);
            }
            assert(rec.contains((m, e))) by {
                assert(rec[rec.len() - 1] == (m, e));
            }
        } else {
            assert(rec.contains((m, e)) == pre.contains((m, e))) by {
                if rec.contains((m, e)) {
                    let k = choose|k: int| 0 <= k < rec.len() && rec[k] == (m, e);
                    assert(k < pre.len() && pre[k] == (m, e));
                }
                if pre.contains((m, e)) {
                    let k = choose|k: int| 0 <= k < pre.len() && pre[k] == (m, e);
                    assert(rec[k] == (m, e));
                }
            }
        }
    }
}

/// On an undirected graph, edge membership between two nodes is symmetric.
pub proof fn lemma_contains_edge_symmetric<N, E, G: Graph<N, E>>(g: G, a: NodeIdx, b: NodeIdx)
    requires
        !G::directed_spec(),
    ensures
        has_edge_between(g, a, b) == has_edge_between(g, b, a),
{
    if has_edge_between(g, a, b) {
        let e = choose|e: EdgeIdx|
            #[trigger] g.has_edge_spec(e) && connects_flag(
                G::directed_spec(),
                g.edge_src_spec(e),
                g.edge_dst_spec(e),
                a,
                b,
            );
        assert(g.has_edge_spec(e) && connects_flag(
            G::directed_spec(),
            g.edge_src_spec(e),
            g.edge_dst_spec(e),
            b,
            a,
        ));
    }
    if has_edge_between(g, b, a) {
        let e = choose|e: EdgeIdx|
            #[trigger] g.has_edge_spec(e) && connects_flag(
                G::directed_spec(),
                g.edge_src_spec(e),
                g.edge_dst_spec(e),
                b,
                a,
            );
        assert(g.has_edge_spec(e) && connects_flag(
            G::directed_spec(),
            g.edge_src_spec(e),
            g.edge_dst_spec(e),
            a,
            b,
        ));
    }
}

/// A removed (or otherwise dead) edge appears in no adjacency record, so
/// removing an undirected edge removes it from both endpoints' records.
pub proof fn lemma_dead_edge_not_in_adj<N, E, G: Graph<N, E>>(
    g: G,
    n: NodeIdx,
    e: EdgeIdx,
    k: int,
)
    requires
        g.wf(),
        g.has_node_spec(n),
        !g.has_edge_spec(e),
        0 <= k < g.adj_seq(n).len(),
    ensures
        g.adj_seq(n)[k].1 != e,
{
    g.lemma_adj_entry(n, k);
}

/// A node handle whose generation does not match its slot's current
/// generation is stale: it addresses nothing, now or ever again, because
/// slot generations only grow.
pub proof fn lemma_stale_node_handle<N, E, G: Graph<N, E>>(g: G, h: NodeIdx)
    requires
        g.wf(),
        (h.index as int) >= g.node_slot_count() || h.generation != g.node_gen_spec(
            h.index as int,
        ),
    ensures
        !g.has_node_spec(h),
{
    if g.has_node_spec(h) {
        g.lemma_node_handle(h);
    }
}

/// Once a slot's generation has moved past a handle's stamp (as removal
/// and clearing guarantee), no later `add_node` hands that handle out
/// again: the fresh handle either reuses a slot under the now-higher
/// generation or sits beyond every slot the old handle could name.
pub proof fn lemma_handle_not_reissued<N, E, G: Graph<N, E>>(g: G, h: NodeIdx, r: NodeIdx)
    requires
        (h.index as int) < g.node_slot_count(),
        h.generation < g.node_gen_spec(h.index as int),
        (r.index as int) < g.node_slot_count() ==> r.generation == g.node_gen_spec(
            r.index as int,
        ),
        (r.index as int) >= g.node_slot_count() ==> r.index == g.node_slot_count(),
    ensures
        r != h,
{
}

/// The edge counterpart of [`lemma_stale_node_handle`].
pub proof fn lemma_stale_edge_handle<N, E, G: Graph<N, E>>(g: G, h: EdgeIdx)
    requires
        g.wf(),
        (h.index as int) >= g.edge_slot_count() || h.generation != g.edge_gen_spec(
            h.index as int,
        ),
    ensures
        !g.has_edge_spec(h),
{
    if g.has_edge_spec(h) {
        g.lemma_edge_handle(h);
    }
}

} // verus!
