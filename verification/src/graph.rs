//! The undirected graph container.
//!
//! A `PyGraph` owns a node slot store and an edge slot store, a `multigraph`
//! flag fixed at construction, and a `node_removed` flag recording whether a
//! node hole may ever have existed.  Node and edge payloads are opaque plain
//! values; the container copies them around but never inspects them.

use vstd::prelude::*;
use vstd::std_specs::cmp::PartialEqSpec;

use crate::slot::SlotStore;
use crate::slot::alloc_result;
use crate::slot::first_free;
use crate::slot::lemma_first_free_facts;
use crate::slot::lemma_live_count_push;
use crate::slot::lemma_live_count_update;
use crate::slot::live_count;
use crate::slot::slot_live;

verus! {

/// The typed failures of the container.
#[derive(Clone, Copy, Debug, PartialEq, Eq, Structural)]
pub enum GraphError {
    /// A handle access or update named no live node or edge.
    NotFound,
    /// An edge-oriented query or update found no matching edge.
    NoEdgeBetweenNodes,
    /// An edge creation referenced a node that is not live.
    InvalidEndpoint,
    /// An encoded state did not describe a reachable container.
    CorruptState,
}

/// A live edge: an ordered endpoint pair (order preserved as given, without
/// directed meaning) and a payload.
#[derive(Clone, Copy, Debug)]
pub struct Edge<E> {
    pub src: usize,
    pub tgt: usize,
    pub weight: E,
}

/// Whether edge `e` joins `a` and `b`, in either orientation.
pub open spec fn connects<E>(e: Edge<E>, a: usize, b: usize) -> bool {
    (e.src == a && e.tgt == b) || (e.src == b && e.tgt == a)
}

/// Whether edge `e` touches node `n`.
pub open spec fn touches<E>(e: Edge<E>, n: usize) -> bool {
    e.src == n || e.tgt == n
}

/// Whether some live edge of `es` joins `a` and `b`.
pub open spec fn has_edge_between<E>(es: Seq<Option<Edge<E>>>, a: usize, b: usize) -> bool {
    exists|j: int| #[trigger] slot_live(es, j) && connects(es[j].unwrap(), a, b)
}

/// Whether `j` is the lowest live edge slot joining `a` and `b`.
pub open spec fn min_connecting<E>(es: Seq<Option<Edge<E>>>, a: usize, b: usize, j: int) -> bool {
    &&& slot_live(es, j)
    &&& connects(es[j].unwrap(), a, b)
    &&& forall|k: int|
        0 <= k < j ==> !(#[trigger] slot_live(es, k) && connects(es[k].unwrap(), a, b))
}

/// What one edge slot adds to the degree of node `n`: two for a self-loop,
/// one for any other incident edge.
pub open spec fn degree_contrib<E>(slot: Option<Edge<E>>, n: usize) -> nat {
    match slot {
        Some(e) => if e.src == n && e.tgt == n {
            2nat
        } else if e.src == n || e.tgt == n {
            1nat
        } else {
            0nat
        },
        None => 0nat,
    }
}

/// The degree of node `n`: every incident live edge counts once, a
/// self-loop counts twice.
pub open spec fn degree_of<E>(es: Seq<Option<Edge<E>>>, n: usize) -> nat
    decreases es.len(),
{
    if es.len() == 0 {
        0
    } else {
        degree_of(es.drop_last(), n) + degree_contrib(es.last(), n)
    }
}

/// The handles of the live edges of `es` that touch node `n`, in
/// increasing order.
pub open spec fn incident_indices<E>(es: Seq<Option<Edge<E>>>, n: usize) -> Seq<usize>
    decreases es.len(),
{
    if es.len() == 0 {
        Seq::empty()
    } else if es.last() is Some && touches(es.last().unwrap(), n) {
        incident_indices(es.drop_last(), n).push((es.len() - 1) as usize)
    } else {
        incident_indices(es.drop_last(), n)
    }
}

/// The handles of the live edges of `es` that join `a` and `b`, in
/// increasing order.
pub open spec fn connecting_indices<E>(es: Seq<Option<Edge<E>>>, a: usize, b: usize) -> Seq<usize>
    decreases es.len(),
{
    if es.len() == 0 {
        Seq::empty()
    } else if es.last() is Some && connects(es.last().unwrap(), a, b) {
        connecting_indices(es.drop_last(), a, b).push((es.len() - 1) as usize)
    } else {
        connecting_indices(es.drop_last(), a, b)
    }
}

/// The payloads of the live edges of `es` that join `a` and `b`, in
/// increasing handle order.
pub open spec fn connecting_weights<E>(es: Seq<Option<Edge<E>>>, a: usize, b: usize) -> Seq<E>
    decreases es.len(),
{
    if es.len() == 0 {
        Seq::empty()
    } else if es.last() is Some && connects(es.last().unwrap(), a, b) {
        connecting_weights(es.drop_last(), a, b).push(es.last().unwrap().weight)
    } else {
        connecting_weights(es.drop_last(), a, b)
    }
}

/// The payloads of the live edges of `es`, in increasing handle order.
pub open spec fn live_weights<E>(es: Seq<Option<Edge<E>>>) -> Seq<E>
    decreases es.len(),
{
    if es.len() == 0 {
        Seq::empty()
    } else if es.last() is Some {
        live_weights(es.drop_last()).push(es.last().unwrap().weight)
    } else {
        live_weights(es.drop_last())
    }
}

/// The endpoint pairs of the live edges of `es`, in increasing handle
/// order and in stored orientation.
pub open spec fn live_endpoint_pairs<E>(es: Seq<Option<Edge<E>>>) -> Seq<(usize, usize)>
    decreases es.len(),
{
    if es.len() == 0 {
        Seq::empty()
    } else if es.last() is Some {
        live_endpoint_pairs(es.drop_last()).push(
            (es.last().unwrap().src, es.last().unwrap().tgt),
        )
    } else {
        live_endpoint_pairs(es.drop_last())
    }
}

/// The `(source, target, payload)` triples of the live edges of `es`, in
/// increasing handle order.
pub open spec fn live_weighted_triples<E>(es: Seq<Option<Edge<E>>>) -> Seq<(usize, usize, E)>
    decreases es.len(),
{
    if es.len() == 0 {
        Seq::empty()
    } else if es.last() is Some {
        live_weighted_triples(es.drop_last()).push(
            (es.last().unwrap().src, es.last().unwrap().tgt, es.last().unwrap().weight),
        )
    } else {
        live_weighted_triples(es.drop_last())
    }
}

/// The `(handle, (source, target, payload))` entries of the live edges of
/// `es`, in increasing handle order.
pub open spec fn live_indexed_triples<E>(es: Seq<Option<Edge<E>>>) -> Seq<
    (usize, (usize, usize, E)),
>
    decreases es.len(),
{
    if es.len() == 0 {
        Seq::empty()
    } else if es.last() is Some {
        live_indexed_triples(es.drop_last()).push(
            (
                (es.len() - 1) as usize,
                (es.last().unwrap().src, es.last().unwrap().tgt, es.last().unwrap().weight),
            ),
        )
    } else {
        live_indexed_triples(es.drop_last())
    }
}

/// The endpoint of edge `e` opposite to `n`; `n` itself for a self-loop.
pub open spec fn opposite<E>(e: Edge<E>, n: usize) -> usize {
    if e.src == n {
        e.tgt
    } else {
        e.src
    }
}

/// The `(neighbor, n, payload)` triples of the live edges touching `n`, in
/// increasing handle order, with `n` always the second endpoint.
pub open spec fn incident_triples_in<E>(es: Seq<Option<Edge<E>>>, n: usize) -> Seq<
    (usize, usize, E),
>
    decreases es.len(),
{
    if es.len() == 0 {
        Seq::empty()
    } else if es.last() is Some && touches(es.last().unwrap(), n) {
        incident_triples_in(es.drop_last(), n).push(
            (opposite(es.last().unwrap(), n), n, es.last().unwrap().weight),
        )
    } else {
        incident_triples_in(es.drop_last(), n)
    }
}

/// The `(n, neighbor, payload)` triples of the live edges touching `n`, in
/// increasing handle order, with `n` always the first endpoint.
pub open spec fn incident_triples_out<E>(es: Seq<Option<Edge<E>>>, n: usize) -> Seq<
    (usize, usize, E),
>
    decreases es.len(),
{
    if es.len() == 0 {
        Seq::empty()
    } else if es.last() is Some && touches(es.last().unwrap(), n) {
        incident_triples_out(es.drop_last(), n).push(
            (n, opposite(es.last().unwrap(), n), es.last().unwrap().weight),
        )
    } else {
        incident_triples_out(es.drop_last(), n)
    }
}

/// The `(handle, (n, neighbor, payload))` entries of the live edges
/// touching `n`, in increasing handle order, with `n` always the first
/// endpoint.
pub open spec fn incident_indexed_triples<E>(es: Seq<Option<Edge<E>>>, n: usize) -> Seq<
    (usize, (usize, usize, E)),
>
    decreases es.len(),
{
    if es.len() == 0 {
        Seq::empty()
    } else if es.last() is Some && touches(es.last().unwrap(), n) {
        incident_indexed_triples(es.drop_last(), n).push(
            (
                (es.len() - 1) as usize,
                (n, opposite(es.last().unwrap(), n), es.last().unwrap().weight),
            ),
        )
    } else {
        incident_indexed_triples(es.drop_last(), n)
    }
}

/// The handle of the lowest live edge joining `a` and `b`; meaningful only
/// when some live edge joins them.
pub open spec fn min_connecting_idx<E>(es: Seq<Option<Edge<E>>>, a: usize, b: usize) -> int {
    choose|j: int| min_connecting(es, a, b, j)
}

/// At most one handle is the lowest edge joining a pair, so a witness pins
/// `min_connecting_idx` down.
pub proof fn lemma_min_connecting_idx<E>(es: Seq<Option<Edge<E>>>, a: usize, b: usize, j: int)
    requires
        min_connecting(es, a, b, j),
    ensures
        min_connecting_idx(es, a, b) == j,
{
    assert(exists|k: int| min_connecting(es, a, b, k)) by {
        assert(min_connecting(es, a, b, j));
    }
    let k = min_connecting_idx(es, a, b);
    assert(min_connecting(es, a, b, k));
    if k < j {
        assert(slot_live(es, k) && connects(es[k].unwrap(), a, b));
    } else if j < k {
        assert(slot_live(es, j) && connects(es[j].unwrap(), a, b));
    }
}

/// The edge arena after removing, for each listed pair in order, the
/// lowest live edge joining it; nothing when some pair has no live edge
/// at its turn.
pub open spec fn remove_edges_result<E>(
    es: Seq<Option<Edge<E>>>,
    list: Seq<(usize, usize)>,
) -> Option<Seq<Option<Edge<E>>>>
    decreases list.len(),
{
    if list.len() == 0 {
        Some(es)
    } else if has_edge_between(es, list[0].0, list[0].1) {
        remove_edges_result(
            es.update(min_connecting_idx(es, list[0].0, list[0].1), None),
            list.subrange(1, list.len() as int),
        )
    } else {
        None
    }
}

/// Removing one more listed pair extends the fold by one step at the end.
pub proof fn lemma_remove_edges_snoc<E>(
    es: Seq<Option<Edge<E>>>,
    list: Seq<(usize, usize)>,
    p: (usize, usize),
)
    ensures
        remove_edges_result(es, list.push(p)) == (match remove_edges_result(es, list) {
            Some(es2) => if has_edge_between(es2, p.0, p.1) {
                Some(es2.update(min_connecting_idx(es2, p.0, p.1), None))
            } else {
                None
            },
            None => None,
        }),
    decreases list.len(),
{
    let lp = list.push(p);
    if list.len() == 0 {
        assert(lp[0] == p);
        assert(lp.subrange(1, 1) =~= Seq::<(usize, usize)>::empty());
        if has_edge_between(es, p.0, p.1) {
            let es2 = es.update(min_connecting_idx(es, p.0, p.1), None);
            assert(remove_edges_result(es, lp) == remove_edges_result(es2, lp.subrange(1, 1)));
            assert(remove_edges_result(es2, lp.subrange(1, 1)) == Some(es2));
        }
    } else {
        assert(lp[0] == list[0]);
        let e0 = list[0];
        if has_edge_between(es, e0.0, e0.1) {
            let es2 = es.update(min_connecting_idx(es, e0.0, e0.1), None);
            let rest = list.subrange(1, list.len() as int);
            assert(lp.subrange(1, lp.len() as int) =~= rest.push(p));
            assert(remove_edges_result(es, lp) == remove_edges_result(es2, rest.push(p)));
            assert(remove_edges_result(es, list) == remove_edges_result(es2, rest));
            lemma_remove_edges_snoc(es2, rest, p);
        } else {
            assert(remove_edges_result(es, lp) is None);
            assert(remove_edges_result(es, list) is None);
        }
    }
}

/// When the whole listed removal succeeds, so does every prefix of it,
/// and each pair still has a live edge at its turn.
pub proof fn lemma_remove_edges_prefix<E>(
    es: Seq<Option<Edge<E>>>,
    list: Seq<(usize, usize)>,
    i: int,
)
    requires
        remove_edges_result(es, list) is Some,
        0 <= i < list.len(),
    ensures
        remove_edges_result(es, list.take(i)) is Some,
        has_edge_between(
            remove_edges_result(es, list.take(i)).unwrap(),
            list[i].0,
            list[i].1,
        ),
    decreases i,
{
    assert(has_edge_between(es, list[0].0, list[0].1));
    if i == 0 {
        assert(list.take(0) =~= Seq::<(usize, usize)>::empty());
    } else {
        let es2 = es.update(min_connecting_idx(es, list[0].0, list[0].1), None);
        let rest = list.subrange(1, list.len() as int);
        lemma_remove_edges_prefix(es2, rest, i - 1);
        assert(list.take(i)[0] == list[0]);
        assert(list.take(i).subrange(1, i) =~= rest.take(i - 1));
        assert(rest[i - 1] == list[i]);
    }
}

/// Whether two weighted edge-list entries name the same unordered node
/// pair.
pub open spec fn same_pair<E>(p: (usize, usize, E), q: (usize, usize, E)) -> bool {
    (p.0 == q.0 && p.1 == q.1) || (p.0 == q.1 && p.1 == q.0)
}

/// Whether some live edge is exactly the listed `(source, target,
/// payload)` triple, in stored orientation.
pub open spec fn edge_present_exact<E>(es: Seq<Option<Edge<E>>>, t: (usize, usize, E)) -> bool {
    exists|j: int|
        #[trigger] slot_live(es, j) && es[j] == Some((Edge { src: t.0, tgt: t.1, weight: t.2 }))
}

/// Whether some live edge joins the listed pair, in either orientation,
/// and carries the listed payload.
pub open spec fn pair_weighted<E>(es: Seq<Option<Edge<E>>>, t: (usize, usize, E)) -> bool {
    exists|j: int|
        #[trigger] slot_live(es, j) && connects(es[j].unwrap(), t.0, t.1) && es[j].unwrap().weight
            == t.2
}

/// Whether two distinct live edges of `es` join the same unordered pair.
pub open spec fn has_parallel<E>(es: Seq<Option<Edge<E>>>) -> bool {
    exists|j: int, k: int|
        #![trigger es[j], es[k]]
        slot_live(es, j) && slot_live(es, k) && j != k && connects(
            es[j].unwrap(),
            es[k].unwrap().src,
            es[k].unwrap().tgt,
        )
}

/// The undirected graph container.
pub struct PyGraph<V, E> {
    pub nodes: SlotStore<V>,
    pub edges: SlotStore<Edge<E>>,
    pub multigraph: bool,
    pub node_removed: bool,
}

/// The post-state of inserting an edge `u -- v` with payload `w` under the
/// multigraph policy, and the handle `h` it reports: on a non-multigraph
/// that already joins `u` and `v`, the lowest such edge keeps its endpoints
/// and takes the new payload; otherwise a fresh edge fills the lowest free
/// edge slot.
pub open spec fn insert_edge_post<V, E>(
    pre: PyGraph<V, E>,
    post: PyGraph<V, E>,
    u: usize,
    v: usize,
    w: E,
    h: usize,
) -> bool {
    &&& post.multigraph == pre.multigraph
    &&& post.node_removed == pre.node_removed
    &&& post.nodes@ == pre.nodes@
    &&& if !pre.multigraph && has_edge_between(pre.edges@, u, v) {
        &&& min_connecting(pre.edges@, u, v, h as int)
        &&& post.edges@ == pre.edges@.update(
            h as int,
            Some(
                (Edge {
                    src: pre.edges@[h as int].unwrap().src,
                    tgt: pre.edges@[h as int].unwrap().tgt,
                    weight: w,
                }),
            ),
        )
        &&& live_count(post.edges@) == live_count(pre.edges@)
    } else {
        &&& h as int == first_free(pre.edges@)
        &&& post.edges@ == alloc_result(pre.edges@, (Edge { src: u, tgt: v, weight: w }))
        &&& live_count(post.edges@) == live_count(pre.edges@) + 1
    }
}

impl<V, E> PyGraph<V, E> {
    /// Every live edge's endpoints are live nodes.
    pub open spec fn edges_valid(self) -> bool {
        forall|j: int|
            #[trigger] slot_live(self.edges@, j) ==> slot_live(
                self.nodes@,
                self.edges@[j].unwrap().src as int,
            ) && slot_live(self.nodes@, self.edges@[j].unwrap().tgt as int)
    }

    /// No two live edges join the same unordered node pair.
    pub open spec fn no_parallel(self) -> bool {
        forall|j: int, k: int|
            #![trigger self.edges@[j], self.edges@[k]]
            slot_live(self.edges@, j) && slot_live(self.edges@, k) && j != k ==> !connects(
                self.edges@[j].unwrap(),
                self.edges@[k].unwrap().src,
                self.edges@[k].unwrap().tgt,
            )
    }

    /// Well-formedness: referential integrity always, and the at-most-one-
    /// edge-per-pair invariant whenever the container is not a multigraph.
    pub open spec fn wf(self) -> bool {
        &&& self.edges_valid()
        &&& !self.multigraph ==> self.no_parallel()
    }

    /// Abbreviation: node `i` is live.
    pub open spec fn node_live(self, i: int) -> bool {
        slot_live(self.nodes@, i)
    }

    /// Abbreviation: edge `j` is live.
    pub open spec fn edge_live(self, j: int) -> bool {
        slot_live(self.edges@, j)
    }
}

impl<V: Copy, E: Copy> PyGraph<V, E> {
    /// An empty container; `multigraph` is fixed for its whole lifetime.
    pub fn new(multigraph: bool) -> (g: Self)
        ensures
            g.nodes@ =~= Seq::<Option<V>>::empty(),
            g.edges@ =~= Seq::<Option<Edge<E>>>::empty(),
            g.multigraph == multigraph,
            g.node_removed == false,
            g.wf(),
    {
        PyGraph {
            nodes: SlotStore::new(),
            edges: SlotStore::new(),
            multigraph,
            node_removed: false,
        }
    }

    /// Number of live nodes.
    pub fn num_nodes(&self) -> (r: usize)
        ensures
            r == live_count(self.nodes@),
    {
        self.nodes.count()
    }

    /// Number of live nodes (alias kept for the mapping-protocol length).
    pub fn node_count(&self) -> (r: usize)
        ensures
            r == live_count(self.nodes@),
    {
        self.nodes.count()
    }

    /// Number of live edges.
    pub fn num_edges(&self) -> (r: usize)
        ensures
            r == live_count(self.edges@),
    {
        self.edges.count()
    }

    /// One past the highest live node handle.
    pub fn node_bound(&self) -> (r: usize)
        ensures
            r == crate::slot::live_bound(self.nodes@),
    {
        self.nodes.bound()
    }

    /// One past the highest live edge handle.
    pub fn edge_bound(&self) -> (r: usize)
        ensures
            r == crate::slot::live_bound(self.edges@),
    {
        self.edges.bound()
    }

    /// Whether the node handle is live.
    pub fn has_node(&self, node: usize) -> (r: bool)
        ensures
            r == self.node_live(node as int),
    {
        self.nodes.is_live(node)
    }

    /// Add a node; returns its handle, the lowest free node slot.
    pub fn add_node(&mut self, obj: V) -> (h: usize)
        ensures
            h as int == first_free(old(self).nodes@),
            final(self).nodes@ == alloc_result(old(self).nodes@, obj),
            final(self).edges@ == old(self).edges@,
            final(self).multigraph == old(self).multigraph,
            final(self).node_removed == old(self).node_removed,
            live_count(final(self).nodes@) == live_count(old(self).nodes@) + 1,
            final(self).node_live(h as int),
            final(self).nodes@[h as int] == Some(obj),
            old(self).wf() ==> final(self).wf(),
    {
        proof {
            lemma_first_free_facts(self.nodes@);
            if first_free(self.nodes@) < self.nodes@.len() {
                lemma_live_count_update(self.nodes@, first_free(self.nodes@), Some(obj));
            } else {
                lemma_live_count_push(self.nodes@, Some(obj));
            }
        }
        let h = self.nodes.allocate(obj);
        proof {
            assert forall|j: int| #[trigger]
                slot_live(self.edges@, j) && old(self).wf() implies slot_live(
                self.nodes@,
                self.edges@[j].unwrap().src as int,
            ) && slot_live(self.nodes@, self.edges@[j].unwrap().tgt as int) by {
                assert(slot_live(old(self).nodes@, self.edges@[j].unwrap().src as int));
                assert(slot_live(old(self).nodes@, self.edges@[j].unwrap().tgt as int));
            }
        }
        h
    }

    /// Add a list of nodes; returns their handles in order.
    pub fn add_nodes_from(&mut self, obj_list: Vec<V>) -> (hs: Vec<usize>)
        requires
            old(self).wf(),
        ensures
            final(self).wf(),
            final(self).multigraph == old(self).multigraph,
            final(self).node_removed == old(self).node_removed,
            final(self).edges@ == old(self).edges@,
            hs@.len() == obj_list@.len(),
            final(self).nodes@ == crate::slot::arena_after_adds(old(self).nodes@, obj_list@),
            hs@ == crate::slot::handles_of_adds(old(self).nodes@, obj_list@),
            forall|k: int|
                0 <= k < hs@.len() ==> final(self).node_live(#[trigger] hs@[k] as int)
                    && final(self).nodes@[hs@[k] as int] == Some(obj_list@[k]),
            live_count(final(self).nodes@) == live_count(old(self).nodes@) + obj_list@.len(),
            forall|i: int|
                #[trigger] slot_live(old(self).nodes@, i) ==> slot_live(final(self).nodes@, i)
                    && final(self).nodes@[i] == old(self).nodes@[i],
    {
        let mut hs: Vec<usize> = Vec::new();
        let n = obj_list.len();
        let mut i: usize = 0;
        while i < n
            invariant
                i <= n,
                n == obj_list@.len(),
                self.wf(),
                self.multigraph == old(self).multigraph,
                self.node_removed == old(self).node_removed,
                self.edges@ == old(self).edges@,
                hs@.len() == i,
                self.nodes@ == crate::slot::arena_after_adds(
                    old(self).nodes@,
                    obj_list@.take(i as int),
                ),
                hs@ == crate::slot::handles_of_adds(old(self).nodes@, obj_list@.take(i as int)),
                forall|k: int|
                    0 <= k < i ==> self.node_live(#[trigger] hs@[k] as int) && self.nodes@[hs@[k]
                        as int] == Some(obj_list@[k]),
                live_count(self.nodes@) == live_count(old(self).nodes@) + i,
                forall|j: int|
                    #[trigger] slot_live(old(self).nodes@, j) ==> slot_live(self.nodes@, j)
                        && self.nodes@[j] == old(self).nodes@[j],
            decreases n - i,
        {
            let ghost pre = self.nodes@;
            let h = self.add_node(obj_list[i]);
            proof {
                lemma_first_free_facts(pre);
                assert forall|k: int|
                    0 <= k < i implies self.node_live(#[trigger] hs@[k] as int) && self.nodes@[hs@[k]
                    as int] == Some(obj_list@[k]) by {
                    assert(slot_live(pre, hs@[k] as int));
                }
                assert(obj_list@.take(i + 1) =~= obj_list@.take(i as int).push(
                    obj_list@[i as int],
                ));
                crate::slot::lemma_adds_snoc(
                    old(self).nodes@,
                    obj_list@.take(i as int),
                    obj_list@[i as int],
                );
            }
            hs.push(h);
            i = i + 1;
        }
        proof {
            assert(obj_list@.take(n as int) =~= obj_list@);
        }
        hs
    }

    /// The payload of a live node.
    pub fn get_node_data(&self, node: usize) -> (r: Result<V, GraphError>)
        ensures
            match r {
                Ok(v) => self.node_live(node as int) && Some(v) == self.nodes@[node as int],
                Err(e) => e == GraphError::NotFound && !self.node_live(node as int),
            },
    {
        match self.nodes.read(node) {
            Some(v) => Ok(v),
            None => Err(GraphError::NotFound),
        }
    }

    /// Replace the payload of a live node.
    pub fn set_node_data(&mut self, node: usize, value: V) -> (r: Result<(), GraphError>)
        ensures
            match r {
                Ok(()) => old(self).node_live(node as int)
                    && final(self).nodes@ == old(self).nodes@.update(node as int, Some(value)),
                Err(e) => {
                    &&& e == GraphError::NotFound
                    &&& !old(self).node_live(node as int)
                    &&& final(self).nodes@ == old(self).nodes@
                },
            },
            final(self).edges@ == old(self).edges@,
            final(self).multigraph == old(self).multigraph,
            final(self).node_removed == old(self).node_removed,
            old(self).wf() ==> final(self).wf(),
            live_count(final(self).nodes@) == live_count(old(self).nodes@),
    {
        proof {
            if slot_live(self.nodes@, node as int) {
                lemma_live_count_update(self.nodes@, node as int, Some(value));
            }
        }
        if self.nodes.set(node, value) {
            Ok(())
        } else {
            Err(GraphError::NotFound)
        }
    }

    /// Remove a node and every edge incident to it.  A handle that names no
    /// live node is ignored; either way the container remembers that a node
    /// removal was attempted.
    pub fn remove_node(&mut self, node: usize)
        requires
            old(self).wf(),
        ensures
            final(self).wf(),
            final(self).multigraph == old(self).multigraph,
            final(self).node_removed == true,
            final(self).nodes@ =~= if slot_live(old(self).nodes@, node as int) {
                old(self).nodes@.update(node as int, None)
            } else {
                old(self).nodes@
            },
            final(self).edges@.len() == old(self).edges@.len(),
            forall|j: int|
                0 <= j < old(self).edges@.len() ==> final(self).edges@[j] == (if slot_live(
                    old(self).edges@,
                    j,
                ) && touches(old(self).edges@[j].unwrap(), node) {
                    None
                } else {
                    old(self).edges@[j]
                }),
    {
        let m = self.edges.arena_len();
        let mut j: usize = 0;
        while j < m
            invariant
                j <= m,
                m == self.edges@.len(),
                self.nodes@ == old(self).nodes@,
                self.multigraph == old(self).multigraph,
                self.node_removed == old(self).node_removed,
                self.edges@.len() == old(self).edges@.len(),
                forall|k: int|
                    j <= k < self.edges@.len() ==> self.edges@[k] == old(self).edges@[k],
                forall|k: int|
                    0 <= k < j ==> self.edges@[k] == (if slot_live(old(self).edges@, k) && touches(
                        old(self).edges@[k].unwrap(),
                        node,
                    ) {
                        None
                    } else {
                        old(self).edges@[k]
                    }),
            decreases m - j,
        {
            let e = self.edges.read(j);
            match e {
                Some(ed) => {
                    if ed.src == node || ed.tgt == node {
                        self.edges.free(j);
                    }
                },
                None => {},
            }
            j = j + 1;
        }
        self.nodes.free(node);
        self.node_removed = true;
        proof {
            assert forall|k: int| #[trigger]
                slot_live(self.edges@, k) implies slot_live(
                self.nodes@,
                self.edges@[k].unwrap().src as int,
            ) && slot_live(self.nodes@, self.edges@[k].unwrap().tgt as int) by {
                assert(slot_live(old(self).edges@, k));
                assert(!touches(old(self).edges@[k].unwrap(), node));
            }
            if !self.multigraph {
                assert forall|a: int, b: int|
                    #![trigger self.edges@[a], self.edges@[b]]
                    slot_live(self.edges@, a) && slot_live(self.edges@, b) && a
                        != b implies !connects(
                    self.edges@[a].unwrap(),
                    self.edges@[b].unwrap().src,
                    self.edges@[b].unwrap().tgt,
                ) by {
                    assert(slot_live(old(self).edges@, a));
                    assert(slot_live(old(self).edges@, b));
                }
            }
        }
    }

    /// Remove a list of nodes; handles that name no live node are ignored.
    pub fn remove_nodes_from(&mut self, index_list: Vec<usize>)
        requires
            old(self).wf(),
        ensures
            final(self).wf(),
            final(self).multigraph == old(self).multigraph,
            final(self).nodes@.len() == old(self).nodes@.len(),
            forall|i: usize|
                i < final(self).nodes@.len() ==> final(self).nodes@[i as int] == (
                if index_list@.contains(i) {
                    None
                } else {
                    old(self).nodes@[i as int]
                }),
            final(self).edges@.len() == old(self).edges@.len(),
            forall|j: int|
                0 <= j < old(self).edges@.len() ==> final(self).edges@[j] == (if slot_live(
                    old(self).edges@,
                    j,
                ) && (index_list@.contains(old(self).edges@[j].unwrap().src) || index_list@.contains(
                    old(self).edges@[j].unwrap().tgt,
                )) {
                    None
                } else {
                    old(self).edges@[j]
                }),
    {
        let n = index_list.len();
        let mut k: usize = 0;
        while k < n
            invariant
                k <= n,
                n == index_list@.len(),
                self.wf(),
                self.multigraph == old(self).multigraph,
                self.nodes@.len() == old(self).nodes@.len(),
                forall|i: usize|
                    i < self.nodes@.len() ==> self.nodes@[i as int] == (
                    if index_list@.take(k as int).contains(i) {
                        None
                    } else {
                        old(self).nodes@[i as int]
                    }),
                self.edges@.len() == old(self).edges@.len(),
                forall|j: int|
                    0 <= j < old(self).edges@.len() ==> self.edges@[j] == (if slot_live(
                        old(self).edges@,
                        j,
                    ) && (index_list@.take(k as int).contains(old(self).edges@[j].unwrap().src)
                        || index_list@.take(k as int).contains(
                        old(self).edges@[j].unwrap().tgt,
                    )) {
                        None
                    } else {
                        old(self).edges@[j]
                    }),
            decreases n - k,
        {
            let ghost pre = self.nodes@;
            let ghost pree = self.edges@;
            self.remove_node(index_list[k]);
            proof {
                let l = index_list@;
                let node = l[k as int];
                assert(l.take(k + 1).drop_last() =~= l.take(k as int));
                assert(l.take(k + 1).last() == node);
                assert forall|j: int| 0 <= j < old(self).edges@.len() implies self.edges@[j] == (
                if slot_live(old(self).edges@, j) && (l.take(k + 1).contains(
                    old(self).edges@[j].unwrap().src,
                ) || l.take(k + 1).contains(old(self).edges@[j].unwrap().tgt)) {
                    None
                } else {
                    old(self).edges@[j]
                }) by {
                    let e = old(self).edges@[j].unwrap();
                    assert(forall|w: int|
                        0 <= w < k ==> l.take(k + 1)[w] == (#[trigger] l.take(k as int)[w]));
                    if slot_live(old(self).edges@, j) {
                        if l.take(k as int).contains(e.src) || l.take(k as int).contains(e.tgt) {
                            assert(pree[j] is None);
                            assert(self.edges@[j] is None);
                            let w = choose|w: int|
                                0 <= w < k && ((#[trigger] l.take(k as int)[w]) == e.src || l.take(
                                    k as int,
                                )[w] == e.tgt);
                            assert(l.take(k + 1)[w] == e.src || l.take(k + 1)[w] == e.tgt);
                            assert(l.take(k + 1).contains(e.src) || l.take(k + 1).contains(e.tgt));
                        } else {
                            assert(pree[j] == old(self).edges@[j]);
                            if touches(e, node) {
                                assert(self.edges@[j] is None);
                                assert(l.take(k + 1)[k as int] == node);
                                assert(l.take(k + 1).contains(e.src) || l.take(k + 1).contains(
                                    e.tgt,
                                ));
                            } else {
                                assert(self.edges@[j] == pree[j]);
                                if l.take(k + 1).contains(e.src) || l.take(k + 1).contains(e.tgt) {
                                    let w = choose|w: int|
                                        0 <= w < k + 1 && ((#[trigger] l.take(k + 1)[w]) == e.src
                                            || l.take(k + 1)[w] == e.tgt);
                                    if w < k {
                                        assert(l.take(k as int)[w] == l.take(k + 1)[w]);
                                        assert(l.take(k as int).contains(e.src) || l.take(
                                            k as int,
                                        ).contains(e.tgt));
                                        assert(false);
                                    } else {
                                        assert(touches(e, node));
                                        assert(false);
                                    }
                                }
                            }
                        }
                    } else {
                        assert(pree[j] == old(self).edges@[j]);
                        assert(pree[j] is None);
                        assert(self.edges@[j] is None);
                        assert(self.edges@[j] == old(self).edges@[j]);
                    }
                }
                assert forall|i: usize| i < self.nodes@.len() implies self.nodes@[i as int] == (
                if l.take(k + 1).contains(i) {
                    None
                } else {
                    old(self).nodes@[i as int]
                }) by {
                    if l.take(k + 1).contains(i) {
                        let w = choose|w: int|
                            0 <= w < k + 1 && #[trigger] l.take(k + 1)[w] == i;
                        if w < k {
                            assert(l.take(k as int)[w] == i);
                            assert(l.take(k as int).contains(i));
                            assert(pre[i as int] is None);
                            assert(self.nodes@[i as int] is None);
                        } else {
                            assert(node == i);
                            if slot_live(pre, node as int) {
                                assert(self.nodes@[i as int] is None);
                            } else {
                                assert(pre[i as int] is None);
                                assert(self.nodes@[i as int] is None);
                            }
                        }
                    } else {
                        assert forall|w: int| 0 <= w < k implies #[trigger] l.take(k as int)[w]
                            != i by {
                            assert(l.take(k + 1)[w] == l.take(k as int)[w]);
                        }
                        assert(!l.take(k as int).contains(i));
                        assert(pre[i as int] == old(self).nodes@[i as int]);
                        assert(l.take(k + 1)[k as int] == node);
                        assert(node != i);
                        assert(self.nodes@[i as int] == pre[i as int]);
                    }
                }
            }
            k = k + 1;
        }
        proof {
            assert(index_list@.take(n as int) =~= index_list@);
        }
    }

    /// The lowest live edge joining `a` and `b`, in either orientation.
    pub fn find_edge(&self, a: usize, b: usize) -> (r: Option<usize>)
        ensures
            match r {
                Some(j) => min_connecting(self.edges@, a, b, j as int),
                None => !has_edge_between(self.edges@, a, b),
            },
            r is Some == has_edge_between(self.edges@, a, b),
    {
        let m = self.edges.arena_len();
        let mut j: usize = 0;
        while j < m
            invariant
                j <= m,
                m == self.edges@.len(),
                forall|k: int|
                    0 <= k < j ==> !(#[trigger] slot_live(self.edges@, k) && connects(
                        self.edges@[k].unwrap(),
                        a,
                        b,
                    )),
            decreases m - j,
        {
            match self.edges.read(j) {
                Some(e) => {
                    if (e.src == a && e.tgt == b) || (e.src == b && e.tgt == a) {
                        return Some(j);
                    }
                },
                None => {},
            }
            j = j + 1;
        }
        None
    }

    /// Whether any edge joins `a` and `b`.
    pub fn has_edge(&self, node_a: usize, node_b: usize) -> (r: bool)
        ensures
            r == has_edge_between(self.edges@, node_a, node_b),
    {
        self.find_edge(node_a, node_b).is_some()
    }

    /// Insert an edge `u -- v` under the multigraph policy: a non-multigraph
    /// that already joins the pair updates that edge's payload in place, any
    /// other case allocates a fresh edge.  Returns the handle touched.
    pub fn insert_or_update_edge(&mut self, u: usize, v: usize, w: E) -> (h: usize)
        requires
            old(self).wf(),
            slot_live(old(self).nodes@, u as int),
            slot_live(old(self).nodes@, v as int),
        ensures
            final(self).wf(),
            insert_edge_post(*old(self), *final(self), u, v, w, h),
    {
        if !self.multigraph {
            match self.find_edge(u, v) {
                Some(j) => {
                    let e = self.edges.read(j).unwrap();
                    proof {
                        lemma_live_count_update(
                            self.edges@,
                            j as int,
                            Some((Edge { src: e.src, tgt: e.tgt, weight: w })),
                        );
                    }
                    self.edges.set(j, Edge { src: e.src, tgt: e.tgt, weight: w });
                    proof {
                        assert forall|k: int| #[trigger]
                            slot_live(self.edges@, k) implies slot_live(
                            self.nodes@,
                            self.edges@[k].unwrap().src as int,
                        ) && slot_live(self.nodes@, self.edges@[k].unwrap().tgt as int) by {
                            assert(slot_live(old(self).edges@, k));
                        }
                        assert forall|x: int, y: int|
                            #![trigger self.edges@[x], self.edges@[y]]
                            slot_live(self.edges@, x) && slot_live(self.edges@, y) && x
                                != y implies !connects(
                            self.edges@[x].unwrap(),
                            self.edges@[y].unwrap().src,
                            self.edges@[y].unwrap().tgt,
                        ) by {
                            assert(slot_live(old(self).edges@, x));
                            assert(slot_live(old(self).edges@, y));
                            assert(connects(
                                old(self).edges@[x].unwrap(),
                                old(self).edges@[y].unwrap().src,
                                old(self).edges@[y].unwrap().tgt,
                            ) == connects(
                                self.edges@[x].unwrap(),
                                self.edges@[y].unwrap().src,
                                self.edges@[y].unwrap().tgt,
                            ));
                        }
                    }
                    return j;
                },
                None => {},
            }
        }
        proof {
            lemma_first_free_facts(self.edges@);
            if first_free(self.edges@) < self.edges@.len() {
                lemma_live_count_update(
                    self.edges@,
                    first_free(self.edges@),
                    Some((Edge { src: u, tgt: v, weight: w })),
                );
            } else {
                lemma_live_count_push(self.edges@, Some((Edge { src: u, tgt: v, weight: w })));
            }
        }
        let h = self.edges.allocate(Edge { src: u, tgt: v, weight: w });
        proof {
            assert forall|k: int| #[trigger] slot_live(self.edges@, k) implies slot_live(
                self.nodes@,
                self.edges@[k].unwrap().src as int,
            ) && slot_live(self.nodes@, self.edges@[k].unwrap().tgt as int) by {
                if k != h as int {
                    assert(slot_live(old(self).edges@, k));
                }
            }
            if !self.multigraph {
                assert forall|x: int, y: int|
                    #![trigger self.edges@[x], self.edges@[y]]
                    slot_live(self.edges@, x) && slot_live(self.edges@, y) && x
                        != y implies !connects(
                    self.edges@[x].unwrap(),
                    self.edges@[y].unwrap().src,
                    self.edges@[y].unwrap().tgt,
                ) by {
                    if x != h as int && y != h as int {
                        assert(slot_live(old(self).edges@, x));
                        assert(slot_live(old(self).edges@, y));
                    } else if x == h as int && y != h as int {
                        assert(slot_live(old(self).edges@, y));
                        assert(!has_edge_between(old(self).edges@, u, v));
                        assert(!connects(old(self).edges@[y].unwrap(), u, v));
                    } else if x != h as int && y == h as int {
                        assert(slot_live(old(self).edges@, x));
                        assert(!has_edge_between(old(self).edges@, u, v));
                        assert(!connects(old(self).edges@[x].unwrap(), u, v));
                    }
                }
            }
        }
        h
    }

    /// Add an edge between two live nodes; fails with `InvalidEndpoint`
    /// when either handle names no live node, and otherwise follows the
    /// multigraph policy.
    pub fn add_edge(&mut self, node_a: usize, node_b: usize, edge: E) -> (r: Result<
        usize,
        GraphError,
    >)
        requires
            old(self).wf(),
        ensures
            final(self).wf(),
            match r {
                Ok(h) => {
                    &&& slot_live(old(self).nodes@, node_a as int)
                    &&& slot_live(old(self).nodes@, node_b as int)
                    &&& insert_edge_post(*old(self), *final(self), node_a, node_b, edge, h)
                },
                Err(e) => {
                    &&& e == GraphError::InvalidEndpoint
                    &&& !(slot_live(old(self).nodes@, node_a as int) && slot_live(
                        old(self).nodes@,
                        node_b as int,
                    ))
                    &&& *final(self) == *old(self)
                },
            },
    {
        if !self.nodes.is_live(node_a) || !self.nodes.is_live(node_b) {
            return Err(GraphError::InvalidEndpoint);
        }
        Ok(self.insert_or_update_edge(node_a, node_b, edge))
    }

    /// Add a list of weighted edges; stops at the first invalid endpoint,
    /// leaving the edges added so far in place.
    pub fn add_edges_from(&mut self, obj_list: Vec<(usize, usize, E)>) -> (r: Result<
        Vec<usize>,
        GraphError,
    >)
        requires
            old(self).wf(),
        ensures
            final(self).wf(),
            final(self).multigraph == old(self).multigraph,
            final(self).node_removed == old(self).node_removed,
            final(self).nodes@ == old(self).nodes@,
            forall|j: int|
                #[trigger] slot_live(old(self).edges@, j) ==> slot_live(final(self).edges@, j)
                    && final(self).edges@[j].unwrap().src == old(self).edges@[j].unwrap().src
                    && final(self).edges@[j].unwrap().tgt == old(self).edges@[j].unwrap().tgt,
            match r {
                Ok(hs) => {
                    &&& hs@.len() == obj_list@.len()
                    &&& forall|k: int|
                        0 <= k < obj_list@.len() ==> slot_live(
                            final(self).edges@,
                            #[trigger] hs@[k] as int,
                        ) && connects(
                            final(self).edges@[hs@[k] as int].unwrap(),
                            obj_list@[k].0,
                            obj_list@[k].1,
                        )
                    &&& old(self).multigraph ==> forall|k: int|
                        0 <= k < obj_list@.len() ==> final(self).edges@[(#[trigger] hs@[k]) as int]
                            == Some(
                            (Edge {
                                src: obj_list@[k].0,
                                tgt: obj_list@[k].1,
                                weight: obj_list@[k].2,
                            }),
                        )
                    &&& !old(self).multigraph ==> forall|k: int|
                        0 <= k < obj_list@.len() && (forall|k2: int|
                            k < k2 < obj_list@.len() ==> !same_pair(
                                obj_list@[k],
                                #[trigger] obj_list@[k2],
                            )) ==> final(self).edges@[(#[trigger] hs@[k]) as int].unwrap().weight
                            == obj_list@[k].2
                },
                Err(e) => {
                    &&& e == GraphError::InvalidEndpoint
                    &&& exists|i: int|
                        0 <= i < obj_list@.len() && !(slot_live(
                            old(self).nodes@,
                            (#[trigger] obj_list@[i]).0 as int,
                        ) && slot_live(old(self).nodes@, obj_list@[i].1 as int)) && (forall|k: int|
                            0 <= k < i ==> slot_live(
                                old(self).nodes@,
                                (#[trigger] obj_list@[k]).0 as int,
                            ) && slot_live(old(self).nodes@, obj_list@[k].1 as int)) && (forall|
                            k: int,
                        |
                            0 <= k < i ==> has_edge_between(
                                final(self).edges@,
                                (#[trigger] obj_list@[k]).0,
                                obj_list@[k].1,
                            ))
                },
            },
    {
        let mut hs: Vec<usize> = Vec::new();
        let n = obj_list.len();
        let mut i: usize = 0;
        while i < n
            invariant
                i <= n,
                n == obj_list@.len(),
                self.wf(),
                self.multigraph == old(self).multigraph,
                self.node_removed == old(self).node_removed,
                self.nodes@ == old(self).nodes@,
                hs@.len() == i,
                forall|j: int|
                    #[trigger] slot_live(old(self).edges@, j) ==> slot_live(self.edges@, j)
                        && self.edges@[j].unwrap().src == old(self).edges@[j].unwrap().src
                        && self.edges@[j].unwrap().tgt == old(self).edges@[j].unwrap().tgt,
                forall|k: int|
                    0 <= k < i ==> slot_live(
                        old(self).nodes@,
                        (#[trigger] obj_list@[k]).0 as int,
                    ) && slot_live(old(self).nodes@, obj_list@[k].1 as int),
                forall|k: int|
                    0 <= k < i ==> slot_live(self.edges@, #[trigger] hs@[k] as int) && connects(
                        self.edges@[hs@[k] as int].unwrap(),
                        obj_list@[k].0,
                        obj_list@[k].1,
                    ),
                self.multigraph ==> forall|k: int|
                    0 <= k < i ==> self.edges@[(#[trigger] hs@[k]) as int] == Some(
                        (Edge {
                            src: obj_list@[k].0,
                            tgt: obj_list@[k].1,
                            weight: obj_list@[k].2,
                        }),
                    ),
                !self.multigraph ==> forall|k: int|
                    0 <= k < i && (forall|k2: int|
                        k < k2 < i ==> !same_pair(obj_list@[k], #[trigger] obj_list@[k2]))
                        ==> self.edges@[(#[trigger] hs@[k]) as int].unwrap().weight
                        == obj_list@[k].2,
            decreases n - i,
        {
            let (a, b, w) = obj_list[i];
            let ghost pre = *self;
            match self.add_edge(a, b, w) {
                Ok(h) => {
                    proof {
                        lemma_first_free_facts(pre.edges@);
                        assert forall|k: int| 0 <= k < i implies slot_live(
                            self.edges@,
                            #[trigger] hs@[k] as int,
                        ) && connects(
                            self.edges@[hs@[k] as int].unwrap(),
                            obj_list@[k].0,
                            obj_list@[k].1,
                        ) by {
                            assert(slot_live(pre.edges@, hs@[k] as int));
                        }
                        if self.multigraph {
                            assert forall|k: int| 0 <= k < i implies self.edges@[(
                            #[trigger] hs@[k]) as int] == Some(
                                (Edge {
                                    src: obj_list@[k].0,
                                    tgt: obj_list@[k].1,
                                    weight: obj_list@[k].2,
                                }),
                            ) by {
                                assert(slot_live(pre.edges@, hs@[k] as int));
                            }
                        } else {
                            assert forall|k: int|
                                0 <= k < i && (forall|k2: int|
                                    k < k2 < i + 1 ==> !same_pair(
                                        obj_list@[k],
                                        #[trigger] obj_list@[k2],
                                    )) implies self.edges@[(#[trigger] hs@[k]) as int].unwrap().weight
                                == obj_list@[k].2 by {
                                assert(!same_pair(obj_list@[k], obj_list@[i as int]));
                                assert(pre.edges@[hs@[k] as int].unwrap().weight
                                    == obj_list@[k].2);
                                assert(slot_live(pre.edges@, hs@[k] as int));
                                assert(connects(
                                    pre.edges@[hs@[k] as int].unwrap(),
                                    obj_list@[k].0,
                                    obj_list@[k].1,
                                ));
                                if self.edges@[hs@[k] as int] != pre.edges@[hs@[k] as int] {
                                    assert(connects(pre.edges@[hs@[k] as int].unwrap(), a, b));
                                    assert(false);
                                }
                            }
                        }
                    }
                    hs.push(h);
                },
                Err(e) => {
                    proof {
                        assert forall|k: int| 0 <= k < i implies has_edge_between(
                            self.edges@,
                            (#[trigger] obj_list@[k]).0,
                            obj_list@[k].1,
                        ) by {
                            assert(slot_live(self.edges@, hs@[k] as int) && connects(
                                self.edges@[hs@[k] as int].unwrap(),
                                obj_list@[k].0,
                                obj_list@[k].1,
                            ));
                        }
                    }
                    return Err(e);
                },
            }
            i = i + 1;
        }
        Ok(hs)
    }

    /// Add a list of edges that all carry the same payload `fill`; stops at
    /// the first invalid endpoint.
    pub fn add_edges_from_no_data(&mut self, obj_list: Vec<(usize, usize)>, fill: E) -> (r: Result<
        Vec<usize>,
        GraphError,
    >)
        requires
            old(self).wf(),
        ensures
            final(self).wf(),
            final(self).multigraph == old(self).multigraph,
            final(self).node_removed == old(self).node_removed,
            final(self).nodes@ == old(self).nodes@,
            match r {
                Ok(hs) => {
                    &&& hs@.len() == obj_list@.len()
                    &&& forall|k: int|
                        0 <= k < obj_list@.len() ==> slot_live(
                            final(self).edges@,
                            #[trigger] hs@[k] as int,
                        ) && connects(
                            final(self).edges@[hs@[k] as int].unwrap(),
                            obj_list@[k].0,
                            obj_list@[k].1,
                        )
                    &&& old(self).multigraph ==> forall|k: int|
                        0 <= k < obj_list@.len() ==> final(self).edges@[(#[trigger] hs@[k]) as int]
                            == Some(
                            (Edge { src: obj_list@[k].0, tgt: obj_list@[k].1, weight: fill }),
                        )
                },
                Err(e) => {
                    &&& e == GraphError::InvalidEndpoint
                    &&& exists|k: int|
                        0 <= k < obj_list@.len() && !(slot_live(
                            old(self).nodes@,
                            (#[trigger] obj_list@[k]).0 as int,
                        ) && slot_live(old(self).nodes@, obj_list@[k].1 as int))
                },
            },
    {
        let mut triples: Vec<(usize, usize, E)> = Vec::new();
        let n = obj_list.len();
        let mut i: usize = 0;
        while i < n
            invariant
                i <= n,
                n == obj_list@.len(),
                triples@.len() == i,
                forall|k: int|
                    0 <= k < i ==> (#[trigger] triples@[k]).0 == obj_list@[k].0 && triples@[k].1
                        == obj_list@[k].1 && triples@[k].2 == fill,
            decreases n - i,
        {
            let (a, b) = obj_list[i];
            triples.push((a, b, fill));
            i = i + 1;
        }
        self.add_edges_from(triples)
    }

    /// Remove the lowest edge joining two nodes; fails with
    /// `NoEdgeBetweenNodes` when no edge joins them.
    pub fn remove_edge(&mut self, node_a: usize, node_b: usize) -> (r: Result<(), GraphError>)
        requires
            old(self).wf(),
        ensures
            final(self).wf(),
            final(self).multigraph == old(self).multigraph,
            final(self).node_removed == old(self).node_removed,
            final(self).nodes@ == old(self).nodes@,
            match r {
                Ok(()) => exists|j: int|
                    min_connecting(old(self).edges@, node_a, node_b, j) && final(self).edges@
                        =~= old(self).edges@.update(j, None),
                Err(e) => {
                    &&& e == GraphError::NoEdgeBetweenNodes
                    &&& !has_edge_between(old(self).edges@, node_a, node_b)
                    &&& final(self).edges@ == old(self).edges@
                },
            },
    {
        match self.find_edge(node_a, node_b) {
            Some(j) => {
                self.edges.free(j);
                proof {
                    assert(min_connecting(old(self).edges@, node_a, node_b, j as int));
                    assert forall|k: int| #[trigger] slot_live(self.edges@, k) implies slot_live(
                        self.nodes@,
                        self.edges@[k].unwrap().src as int,
                    ) && slot_live(self.nodes@, self.edges@[k].unwrap().tgt as int) by {
                        assert(slot_live(old(self).edges@, k));
                    }
                    if !self.multigraph {
                        assert forall|x: int, y: int|
                            #![trigger self.edges@[x], self.edges@[y]]
                            slot_live(self.edges@, x) && slot_live(self.edges@, y) && x
                                != y implies !connects(
                            self.edges@[x].unwrap(),
                            self.edges@[y].unwrap().src,
                            self.edges@[y].unwrap().tgt,
                        ) by {
                            assert(slot_live(old(self).edges@, x));
                            assert(slot_live(old(self).edges@, y));
                        }
                    }
                }
                Ok(())
            },
            None => Err(GraphError::NoEdgeBetweenNodes),
        }
    }

    /// Remove the edge with the given handle; a handle that names no live
    /// edge is ignored.
    pub fn remove_edge_from_index(&mut self, edge: usize)
        requires
            old(self).wf(),
        ensures
            final(self).wf(),
            final(self).multigraph == old(self).multigraph,
            final(self).node_removed == old(self).node_removed,
            final(self).nodes@ == old(self).nodes@,
            final(self).edges@ =~= if slot_live(old(self).edges@, edge as int) {
                old(self).edges@.update(edge as int, None)
            } else {
                old(self).edges@
            },
    {
        self.edges.free(edge);
        proof {
            assert forall|k: int| #[trigger] slot_live(self.edges@, k) implies slot_live(
                self.nodes@,
                self.edges@[k].unwrap().src as int,
            ) && slot_live(self.nodes@, self.edges@[k].unwrap().tgt as int) by {
                assert(slot_live(old(self).edges@, k));
            }
            if !self.multigraph {
                assert forall|x: int, y: int|
                    #![trigger self.edges@[x], self.edges@[y]]
                    slot_live(self.edges@, x) && slot_live(self.edges@, y) && x
                        != y implies !connects(
                    self.edges@[x].unwrap(),
                    self.edges@[y].unwrap().src,
                    self.edges@[y].unwrap().tgt,
                ) by {
                    assert(slot_live(old(self).edges@, x));
                    assert(slot_live(old(self).edges@, y));
                }
            }
        }
    }

    /// Remove one edge for each listed node pair, in list order, each
    /// time the lowest live edge joining the pair; fails with
    /// `NoEdgeBetweenNodes` at the first pair that no edge joins, leaving
    /// the removals made so far in place.
    pub fn remove_edges_from(&mut self, index_list: Vec<(usize, usize)>) -> (r: Result<
        (),
        GraphError,
    >)
        requires
            old(self).wf(),
        ensures
            final(self).wf(),
            final(self).multigraph == old(self).multigraph,
            final(self).node_removed == old(self).node_removed,
            final(self).nodes@ == old(self).nodes@,
            r is Ok <==> remove_edges_result(old(self).edges@, index_list@) is Some,
            r is Ok ==> final(self).edges@ == remove_edges_result(
                old(self).edges@,
                index_list@,
            ).unwrap(),
            match r {
                Ok(()) => true,
                Err(e) => {
                    &&& e == GraphError::NoEdgeBetweenNodes
                    &&& exists|i: int|
                        0 <= i < index_list@.len() && remove_edges_result(
                            old(self).edges@,
                            #[trigger] index_list@.take(i),
                        ) == Some(final(self).edges@) && !has_edge_between(
                            final(self).edges@,
                            index_list@[i].0,
                            index_list@[i].1,
                        )
                },
            },
    {
        let n = index_list.len();
        let mut i: usize = 0;
        while i < n
            invariant
                i <= n,
                n == index_list@.len(),
                self.wf(),
                self.multigraph == old(self).multigraph,
                self.node_removed == old(self).node_removed,
                self.nodes@ == old(self).nodes@,
                remove_edges_result(old(self).edges@, index_list@.take(i as int)) == Some(
                    self.edges@,
                ),
            decreases n - i,
        {
            let (a, b) = index_list[i];
            let ghost pre = self.edges@;
            match self.remove_edge(a, b) {
                Ok(()) => {
                    proof {
                        let j = choose|j: int|
                            min_connecting(pre, a, b, j) && self.edges@ =~= pre.update(j, None);
                        lemma_min_connecting_idx(pre, a, b, j);
                        assert(index_list@.take(i + 1).drop_last() =~= index_list@.take(i as int));
                        assert(index_list@.take(i + 1) =~= index_list@.take(i as int).push(
                            (a, b),
                        ));
                        lemma_remove_edges_snoc(
                            old(self).edges@,
                            index_list@.take(i as int),
                            (a, b),
                        );
                        assert(self.edges@ =~= pre.update(
                            min_connecting_idx(pre, a, b),
                            None,
                        ));
                    }
                },
                Err(e) => {
                    proof {
                        assert(index_list@.take(i as int) == index_list@.take(i as int));
                        assert(!has_edge_between(self.edges@, a, b));
                        if remove_edges_result(old(self).edges@, index_list@) is Some {
                            lemma_remove_edges_prefix(
                                old(self).edges@,
                                index_list@,
                                i as int,
                            );
                        }
                    }
                    return Err(e);
                },
            }
            i = i + 1;
        }
        proof {
            assert(index_list@.take(n as int) =~= index_list@);
        }
        Ok(())
    }

    /// Update the payload of the lowest edge joining two nodes; fails with
    /// `NoEdgeBetweenNodes` when no edge joins them.
    pub fn update_edge(&mut self, source: usize, target: usize, edge: E) -> (r: Result<
        (),
        GraphError,
    >)
        requires
            old(self).wf(),
        ensures
            final(self).wf(),
            final(self).multigraph == old(self).multigraph,
            final(self).node_removed == old(self).node_removed,
            final(self).nodes@ == old(self).nodes@,
            match r {
                Ok(()) => exists|j: int|
                    min_connecting(old(self).edges@, source, target, j) && final(self).edges@
                        =~= old(self).edges@.update(
                        j,
                        Some(
                            (Edge {
                                src: old(self).edges@[j].unwrap().src,
                                tgt: old(self).edges@[j].unwrap().tgt,
                                weight: edge,
                            }),
                        ),
                    ),
                Err(e) => {
                    &&& e == GraphError::NoEdgeBetweenNodes
                    &&& !has_edge_between(old(self).edges@, source, target)
                    &&& final(self).edges@ == old(self).edges@
                },
            },
    {
        match self.find_edge(source, target) {
            Some(j) => {
                let e = self.edges.read(j).unwrap();
                self.edges.set(j, Edge { src: e.src, tgt: e.tgt, weight: edge });
                proof {
                    assert(min_connecting(old(self).edges@, source, target, j as int));
                    assert forall|k: int| #[trigger] slot_live(self.edges@, k) implies slot_live(
                        self.nodes@,
                        self.edges@[k].unwrap().src as int,
                    ) && slot_live(self.nodes@, self.edges@[k].unwrap().tgt as int) by {
                        assert(slot_live(old(self).edges@, k));
                        assert(self.edges@[k].unwrap().src == old(self).edges@[k].unwrap().src);
                    }
                    if !self.multigraph {
                        assert forall|x: int, y: int|
                            #![trigger self.edges@[x], self.edges@[y]]
                            slot_live(self.edges@, x) && slot_live(self.edges@, y) && x
                                != y implies !connects(
                            self.edges@[x].unwrap(),
                            self.edges@[y].unwrap().src,
                            self.edges@[y].unwrap().tgt,
                        ) by {
                            assert(slot_live(old(self).edges@, x));
                            assert(slot_live(old(self).edges@, y));
                            assert(connects(
                                old(self).edges@[x].unwrap(),
                                old(self).edges@[y].unwrap().src,
                                old(self).edges@[y].unwrap().tgt,
                            ) == connects(
                                self.edges@[x].unwrap(),
                                self.edges@[y].unwrap().src,
                                self.edges@[y].unwrap().tgt,
                            ));
                        }
                    }
                }
                Ok(())
            },
            None => Err(GraphError::NoEdgeBetweenNodes),
        }
    }

    /// Update the payload of the edge with the given handle; fails with
    /// `NotFound` when the handle names no live edge.
    pub fn update_edge_by_index(&mut self, edge_index: usize, edge: E) -> (r: Result<
        (),
        GraphError,
    >)
        requires
            old(self).wf(),
        ensures
            final(self).wf(),
            final(self).multigraph == old(self).multigraph,
            final(self).node_removed == old(self).node_removed,
            final(self).nodes@ == old(self).nodes@,
            match r {
                Ok(()) => {
                    &&& slot_live(old(self).edges@, edge_index as int)
                    &&& final(self).edges@ =~= old(self).edges@.update(
                        edge_index as int,
                        Some(
                            (Edge {
                                src: old(self).edges@[edge_index as int].unwrap().src,
                                tgt: old(self).edges@[edge_index as int].unwrap().tgt,
                                weight: edge,
                            }),
                        ),
                    )
                },
                Err(e) => {
                    &&& e == GraphError::NotFound
                    &&& !slot_live(old(self).edges@, edge_index as int)
                    &&& final(self).edges@ == old(self).edges@
                },
            },
    {
        match self.edges.read(edge_index) {
            Some(e) => {
                self.edges.set(edge_index, Edge { src: e.src, tgt: e.tgt, weight: edge });
                proof {
                    assert forall|k: int| #[trigger] slot_live(self.edges@, k) implies slot_live(
                        self.nodes@,
                        self.edges@[k].unwrap().src as int,
                    ) && slot_live(self.nodes@, self.edges@[k].unwrap().tgt as int) by {
                        assert(slot_live(old(self).edges@, k));
                        assert(self.edges@[k].unwrap().src == old(self).edges@[k].unwrap().src);
                    }
                    if !self.multigraph {
                        assert forall|x: int, y: int|
                            #![trigger self.edges@[x], self.edges@[y]]
                            slot_live(self.edges@, x) && slot_live(self.edges@, y) && x
                                != y implies !connects(
                            self.edges@[x].unwrap(),
                            self.edges@[y].unwrap().src,
                            self.edges@[y].unwrap().tgt,
                        ) by {
                            assert(slot_live(old(self).edges@, x));
                            assert(slot_live(old(self).edges@, y));
                            assert(connects(
                                old(self).edges@[x].unwrap(),
                                old(self).edges@[y].unwrap().src,
                                old(self).edges@[y].unwrap().tgt,
                            ) == connects(
                                self.edges@[x].unwrap(),
                                self.edges@[y].unwrap().src,
                                self.edges@[y].unwrap().tgt,
                            ));
                        }
                    }
                }
                Ok(())
            },
            None => Err(GraphError::NotFound),
        }
    }

    /// The payload of the lowest edge joining two nodes; fails with
    /// `NoEdgeBetweenNodes` when no edge joins them.
    pub fn get_edge_data(&self, node_a: usize, node_b: usize) -> (r: Result<E, GraphError>)
        ensures
            match r {
                Ok(w) => exists|j: int|
                    min_connecting(self.edges@, node_a, node_b, j) && w == self.edges@[j].unwrap().weight,
                Err(e) => {
                    &&& e == GraphError::NoEdgeBetweenNodes
                    &&& !has_edge_between(self.edges@, node_a, node_b)
                },
            },
    {
        match self.find_edge(node_a, node_b) {
            Some(j) => Ok(self.edges.read(j).unwrap().weight),
            None => Err(GraphError::NoEdgeBetweenNodes),
        }
    }

    /// The payload of the edge with the given handle; fails with `NotFound`
    /// when the handle names no live edge.
    pub fn get_edge_data_by_index(&self, edge_index: usize) -> (r: Result<E, GraphError>)
        ensures
            match r {
                Ok(w) => slot_live(self.edges@, edge_index as int) && w == self.edges@[edge_index
                    as int].unwrap().weight,
                Err(e) => {
                    &&& e == GraphError::NotFound
                    &&& !slot_live(self.edges@, edge_index as int)
                },
            },
    {
        match self.edges.read(edge_index) {
            Some(e) => Ok(e.weight),
            None => Err(GraphError::NotFound),
        }
    }

    /// The endpoint pair of the edge with the given handle, in the
    /// orientation it was created with; fails with `NotFound` when the
    /// handle names no live edge.
    pub fn get_edge_endpoints_by_index(&self, edge_index: usize) -> (r: Result<
        (usize, usize),
        GraphError,
    >)
        ensures
            match r {
                Ok(p) => slot_live(self.edges@, edge_index as int) && p.0 == self.edges@[edge_index
                    as int].unwrap().src && p.1 == self.edges@[edge_index as int].unwrap().tgt,
                Err(e) => {
                    &&& e == GraphError::NotFound
                    &&& !slot_live(self.edges@, edge_index as int)
                },
            },
    {
        match self.edges.read(edge_index) {
            Some(e) => Ok((e.src, e.tgt)),
            None => Err(GraphError::NotFound),
        }
    }

    /// Drop every node and edge.  The container keeps its multigraph flag
    /// and remembers that holes may have existed.
    pub fn clear(&mut self)
        ensures
            final(self).nodes@ =~= Seq::<Option<V>>::empty(),
            final(self).edges@ =~= Seq::<Option<Edge<E>>>::empty(),
            final(self).multigraph == old(self).multigraph,
            final(self).node_removed == true,
            final(self).wf(),
    {
        self.nodes = SlotStore::new();
        self.edges = SlotStore::new();
        self.node_removed = true;
    }

    /// Drop every edge, leaving the nodes intact.
    pub fn clear_edges(&mut self)
        ensures
            final(self).nodes@ == old(self).nodes@,
            final(self).edges@ =~= Seq::<Option<Edge<E>>>::empty(),
            final(self).multigraph == old(self).multigraph,
            final(self).node_removed == old(self).node_removed,
            final(self).wf(),
    {
        self.edges = SlotStore::new();
    }

    /// The live node handles, in increasing order.
    pub fn node_indices(&self) -> (r: Vec<usize>)
        ensures
            r@ == crate::slot::live_indices(self.nodes@),
    {
        let m = self.nodes.arena_len();
        let mut r: Vec<usize> = Vec::new();
        let mut i: usize = 0;
        while i < m
            invariant
                i <= m,
                m == self.nodes@.len(),
                r@ =~= crate::slot::live_indices(self.nodes@.take(i as int)),
            decreases m - i,
        {
            proof {
                assert(self.nodes@.take(i + 1).drop_last() =~= self.nodes@.take(i as int));
            }
            if self.nodes.is_live(i) {
                r.push(i);
            }
            i = i + 1;
        }
        proof {
            assert(self.nodes@.take(m as int) =~= self.nodes@);
        }
        r
    }

    /// The live node handles, in increasing order (alias kept for
    /// compatibility with earlier callers).
    pub fn node_indexes(&self) -> (r: Vec<usize>)
        ensures
            r@ == crate::slot::live_indices(self.nodes@),
    {
        self.node_indices()
    }

    /// The live node payloads, in increasing handle order.
    pub fn nodes(&self) -> (r: Vec<V>)
        ensures
            r@ == crate::slot::live_values(self.nodes@),
    {
        let m = self.nodes.arena_len();
        let mut r: Vec<V> = Vec::new();
        let mut i: usize = 0;
        while i < m
            invariant
                i <= m,
                m == self.nodes@.len(),
                r@ =~= crate::slot::live_values(self.nodes@.take(i as int)),
            decreases m - i,
        {
            proof {
                assert(self.nodes@.take(i + 1).drop_last() =~= self.nodes@.take(i as int));
            }
            match self.nodes.read(i) {
                Some(v) => {
                    r.push(v);
                },
                None => {},
            }
            i = i + 1;
        }
        proof {
            assert(self.nodes@.take(m as int) =~= self.nodes@);
        }
        r
    }

    /// The live edge handles, in increasing order.
    pub fn edge_indices(&self) -> (r: Vec<usize>)
        ensures
            r@ == crate::slot::live_indices(self.edges@),
    {
        let m = self.edges.arena_len();
        let mut r: Vec<usize> = Vec::new();
        let mut j: usize = 0;
        while j < m
            invariant
                j <= m,
                m == self.edges@.len(),
                r@ =~= crate::slot::live_indices(self.edges@.take(j as int)),
            decreases m - j,
        {
            proof {
                assert(self.edges@.take(j + 1).drop_last() =~= self.edges@.take(j as int));
            }
            if self.edges.is_live(j) {
                r.push(j);
            }
            j = j + 1;
        }
        proof {
            assert(self.edges@.take(m as int) =~= self.edges@);
        }
        r
    }

    /// The live edge payloads, in increasing handle order.
    pub fn edges(&self) -> (r: Vec<E>)
        ensures
            r@ == live_weights(self.edges@),
    {
        let m = self.edges.arena_len();
        let mut r: Vec<E> = Vec::new();
        let mut j: usize = 0;
        while j < m
            invariant
                j <= m,
                m == self.edges@.len(),
                r@ =~= live_weights(self.edges@.take(j as int)),
            decreases m - j,
        {
            proof {
                assert(self.edges@.take(j + 1).drop_last() =~= self.edges@.take(j as int));
            }
            match self.edges.read(j) {
                Some(e) => {
                    r.push(e.weight);
                },
                None => {},
            }
            j = j + 1;
        }
        proof {
            assert(self.edges@.take(m as int) =~= self.edges@);
        }
        r
    }

    /// The endpoint pairs of the live edges, in increasing handle order.
    pub fn edge_list(&self) -> (r: Vec<(usize, usize)>)
        ensures
            r@ == live_endpoint_pairs(self.edges@),
    {
        let m = self.edges.arena_len();
        let mut r: Vec<(usize, usize)> = Vec::new();
        let mut j: usize = 0;
        while j < m
            invariant
                j <= m,
                m == self.edges@.len(),
                r@ =~= live_endpoint_pairs(self.edges@.take(j as int)),
            decreases m - j,
        {
            proof {
                assert(self.edges@.take(j + 1).drop_last() =~= self.edges@.take(j as int));
            }
            match self.edges.read(j) {
                Some(e) => {
                    r.push((e.src, e.tgt));
                },
                None => {},
            }
            j = j + 1;
        }
        proof {
            assert(self.edges@.take(m as int) =~= self.edges@);
        }
        r
    }

    /// The `(source, target, payload)` triples of the live edges, in
    /// increasing handle order.
    pub fn weighted_edge_list(&self) -> (r: Vec<(usize, usize, E)>)
        ensures
            r@ == live_weighted_triples(self.edges@),
    {
        let m = self.edges.arena_len();
        let mut r: Vec<(usize, usize, E)> = Vec::new();
        let mut j: usize = 0;
        while j < m
            invariant
                j <= m,
                m == self.edges@.len(),
                r@ =~= live_weighted_triples(self.edges@.take(j as int)),
            decreases m - j,
        {
            proof {
                assert(self.edges@.take(j + 1).drop_last() =~= self.edges@.take(j as int));
            }
            match self.edges.read(j) {
                Some(e) => {
                    r.push((e.src, e.tgt, e.weight));
                },
                None => {},
            }
            j = j + 1;
        }
        proof {
            assert(self.edges@.take(m as int) =~= self.edges@);
        }
        r
    }

    /// The `(handle, (source, target, payload))` entries of the live edges,
    /// in increasing handle order.
    pub fn edge_index_map(&self) -> (r: Vec<(usize, (usize, usize, E))>)
        ensures
            r@ == live_indexed_triples(self.edges@),
    {
        let m = self.edges.arena_len();
        let mut r: Vec<(usize, (usize, usize, E))> = Vec::new();
        let mut j: usize = 0;
        while j < m
            invariant
                j <= m,
                m == self.edges@.len(),
                r@ =~= live_indexed_triples(self.edges@.take(j as int)),
            decreases m - j,
        {
            proof {
                assert(self.edges@.take(j + 1).drop_last() =~= self.edges@.take(j as int));
            }
            match self.edges.read(j) {
                Some(e) => {
                    r.push((j, (e.src, e.tgt, e.weight)));
                },
                None => {},
            }
            j = j + 1;
        }
        proof {
            assert(self.edges@.take(m as int) =~= self.edges@);
        }
        r
    }

    /// The handles of the edges joining two nodes, in increasing order.
    pub fn edge_indices_from_endpoints(&self, node_a: usize, node_b: usize) -> (r: Vec<usize>)
        ensures
            r@ == connecting_indices(self.edges@, node_a, node_b),
    {
        let m = self.edges.arena_len();
        let mut r: Vec<usize> = Vec::new();
        let mut j: usize = 0;
        while j < m
            invariant
                j <= m,
                m == self.edges@.len(),
                r@ =~= connecting_indices(self.edges@.take(j as int), node_a, node_b),
            decreases m - j,
        {
            proof {
                assert(self.edges@.take(j + 1).drop_last() =~= self.edges@.take(j as int));
            }
            match self.edges.read(j) {
                Some(e) => {
                    if (e.src == node_a && e.tgt == node_b) || (e.src == node_b && e.tgt
                        == node_a) {
                        r.push(j);
                    }
                },
                None => {},
            }
            j = j + 1;
        }
        proof {
            assert(self.edges@.take(m as int) =~= self.edges@);
        }
        r
    }

    /// The payloads of all edges joining two nodes, in increasing handle
    /// order; fails with `NoEdgeBetweenNodes` when no edge joins them.
    pub fn get_all_edge_data(&self, node_a: usize, node_b: usize) -> (r: Result<Vec<E>, GraphError>)
        ensures
            match r {
                Ok(ws) => has_edge_between(self.edges@, node_a, node_b) && ws@ == connecting_weights(
                    self.edges@,
                    node_a,
                    node_b,
                ),
                Err(e) => {
                    &&& e == GraphError::NoEdgeBetweenNodes
                    &&& !has_edge_between(self.edges@, node_a, node_b)
                },
            },
    {
        if self.find_edge(node_a, node_b).is_none() {
            return Err(GraphError::NoEdgeBetweenNodes);
        }
        let m = self.edges.arena_len();
        let mut r: Vec<E> = Vec::new();
        let mut j: usize = 0;
        while j < m
            invariant
                j <= m,
                m == self.edges@.len(),
                r@ =~= connecting_weights(self.edges@.take(j as int), node_a, node_b),
            decreases m - j,
        {
            proof {
                assert(self.edges@.take(j + 1).drop_last() =~= self.edges@.take(j as int));
            }
            match self.edges.read(j) {
                Some(e) => {
                    if (e.src == node_a && e.tgt == node_b) || (e.src == node_b && e.tgt
                        == node_a) {
                        r.push(e.weight);
                    }
                },
                None => {},
            }
            j = j + 1;
        }
        proof {
            assert(self.edges@.take(m as int) =~= self.edges@);
        }
        Ok(r)
    }

    /// The handles of the edges touching a node, in increasing order; a
    /// handle that names no live node yields an empty list.
    pub fn incident_edges(&self, node: usize) -> (r: Vec<usize>)
        ensures
            r@ == incident_indices(self.edges@, node),
    {
        let m = self.edges.arena_len();
        let mut r: Vec<usize> = Vec::new();
        let mut j: usize = 0;
        while j < m
            invariant
                j <= m,
                m == self.edges@.len(),
                r@ =~= incident_indices(self.edges@.take(j as int), node),
            decreases m - j,
        {
            proof {
                assert(self.edges@.take(j + 1).drop_last() =~= self.edges@.take(j as int));
            }
            match self.edges.read(j) {
                Some(e) => {
                    if e.src == node || e.tgt == node {
                        r.push(j);
                    }
                },
                None => {},
            }
            j = j + 1;
        }
        proof {
            assert(self.edges@.take(m as int) =~= self.edges@);
        }
        r
    }

    /// The handles of the edges touching a node (there is no incoming or
    /// outgoing distinction on an undirected container).
    pub fn in_edge_indices(&self, node: usize) -> (r: Vec<usize>)
        ensures
            r@ == incident_indices(self.edges@, node),
    {
        self.incident_edges(node)
    }

    /// The handles of the edges touching a node (there is no incoming or
    /// outgoing distinction on an undirected container).
    pub fn out_edge_indices(&self, node: usize) -> (r: Vec<usize>)
        ensures
            r@ == incident_indices(self.edges@, node),
    {
        self.incident_edges(node)
    }

    /// The `(neighbor, node, payload)` triples of the edges touching a
    /// node, in increasing handle order, the node itself always second.
    pub fn in_edges(&self, node: usize) -> (r: Vec<(usize, usize, E)>)
        ensures
            r@ == incident_triples_in(self.edges@, node),
    {
        let m = self.edges.arena_len();
        let mut r: Vec<(usize, usize, E)> = Vec::new();
        let mut j: usize = 0;
        while j < m
            invariant
                j <= m,
                m == self.edges@.len(),
                r@ =~= incident_triples_in(self.edges@.take(j as int), node),
            decreases m - j,
        {
            proof {
                assert(self.edges@.take(j + 1).drop_last() =~= self.edges@.take(j as int));
            }
            match self.edges.read(j) {
                Some(e) => {
                    if e.src == node || e.tgt == node {
                        let other = if e.src == node {
                            e.tgt
                        } else {
                            e.src
                        };
                        r.push((other, node, e.weight));
                    }
                },
                None => {},
            }
            j = j + 1;
        }
        proof {
            assert(self.edges@.take(m as int) =~= self.edges@);
        }
        r
    }

    /// The `(node, neighbor, payload)` triples of the edges touching a
    /// node, in increasing handle order, the node itself always first.
    pub fn out_edges(&self, node: usize) -> (r: Vec<(usize, usize, E)>)
        ensures
            r@ == incident_triples_out(self.edges@, node),
    {
        let m = self.edges.arena_len();
        let mut r: Vec<(usize, usize, E)> = Vec::new();
        let mut j: usize = 0;
        while j < m
            invariant
                j <= m,
                m == self.edges@.len(),
                r@ =~= incident_triples_out(self.edges@.take(j as int), node),
            decreases m - j,
        {
            proof {
                assert(self.edges@.take(j + 1).drop_last() =~= self.edges@.take(j as int));
            }
            match self.edges.read(j) {
                Some(e) => {
                    if e.src == node || e.tgt == node {
                        let other = if e.src == node {
                            e.tgt
                        } else {
                            e.src
                        };
                        r.push((node, other, e.weight));
                    }
                },
                None => {},
            }
            j = j + 1;
        }
        proof {
            assert(self.edges@.take(m as int) =~= self.edges@);
        }
        r
    }

    /// The `(handle, (node, neighbor, payload))` entries of the edges
    /// touching a node, in increasing handle order, the node itself always
    /// the first endpoint of each entry.
    pub fn incident_edge_index_map(&self, node: usize) -> (r: Vec<(usize, (usize, usize, E))>)
        ensures
            r@ == incident_indexed_triples(self.edges@, node),
    {
        let m = self.edges.arena_len();
        let mut r: Vec<(usize, (usize, usize, E))> = Vec::new();
        let mut j: usize = 0;
        while j < m
            invariant
                j <= m,
                m == self.edges@.len(),
                r@ =~= incident_indexed_triples(self.edges@.take(j as int), node),
            decreases m - j,
        {
            proof {
                assert(self.edges@.take(j + 1).drop_last() =~= self.edges@.take(j as int));
            }
            match self.edges.read(j) {
                Some(e) => {
                    if e.src == node || e.tgt == node {
                        let other = if e.src == node {
                            e.tgt
                        } else {
                            e.src
                        };
                        r.push((j, (node, other, e.weight)));
                    }
                },
                None => {},
            }
            j = j + 1;
        }
        proof {
            assert(self.edges@.take(m as int) =~= self.edges@);
        }
        r
    }

    /// The distinct neighbors of a node, in increasing handle order.
    pub fn neighbors(&self, node: usize) -> (r: Vec<usize>)
        ensures
            forall|k1: int, k2: int| 0 <= k1 < k2 < r@.len() ==> r@[k1] < r@[k2],
            forall|m: usize|
                #[trigger] r@.contains(m) <==> m < self.nodes@.len() && has_edge_between(
                    self.edges@,
                    node,
                    m,
                ),
    {
        let n = self.nodes.arena_len();
        let mut r: Vec<usize> = Vec::new();
        let mut m: usize = 0;
        while m < n
            invariant
                m <= n,
                n == self.nodes@.len(),
                forall|k1: int, k2: int| 0 <= k1 < k2 < r@.len() ==> r@[k1] < r@[k2],
                forall|k: int| 0 <= k < r@.len() ==> r@[k] < m,
                forall|x: usize|
                    #[trigger] r@.contains(x) <==> x < m && has_edge_between(
                        self.edges@,
                        node,
                        x,
                    ),
            decreases n - m,
        {
            let ghost prefix = r@;
            if self.has_edge(node, m) {
                r.push(m);
                proof {
                    assert forall|x: usize| #[trigger]
                        r@.contains(x) <==> x < m + 1 && has_edge_between(
                        self.edges@,
                        node,
                        x,
                    ) by {
                        assert(r@ == prefix.push(m));
                        if r@.contains(x) {
                            let k = choose|k: int| 0 <= k < r@.len() && r@[k] == x;
                            if k < prefix.len() {
                                assert(prefix.contains(x));
                            }
                        }
                        if x < m + 1 && has_edge_between(self.edges@, node, x) {
                            if x < m {
                                assert(prefix.contains(x));
                                let k = choose|k: int| 0 <= k < prefix.len() && prefix[k] == x;
                                assert(r@[k] == x);
                            } else {
                                assert(r@[r@.len() - 1] == x);
                            }
                        }
                    }
                }
            } else {
                proof {
                    assert forall|x: usize| #[trigger]
                        r@.contains(x) <==> x < m + 1 && has_edge_between(
                        self.edges@,
                        node,
                        x,
                    ) by {
                        if x == m {
                            assert(!has_edge_between(self.edges@, node, x));
                        }
                    }
                }
            }
            m = m + 1;
        }
        r
    }

    /// One `(neighbor, payload)` entry per neighbor of a node, neighbors in
    /// increasing handle order, each payload taken from the lowest edge
    /// joining the pair.
    pub fn adj(&self, node: usize) -> (r: Vec<(usize, E)>)
        ensures
            forall|k1: int, k2: int| 0 <= k1 < k2 < r@.len() ==> r@[k1].0 < r@[k2].0,
            forall|k: int|
                0 <= k < r@.len() ==> has_edge_between(self.edges@, node, (#[trigger] r@[k]).0)
                    && r@[k].1 == self.edges@[min_connecting_idx(
                    self.edges@,
                    node,
                    r@[k].0,
                )].unwrap().weight,
            forall|x: usize|
                x < self.nodes@.len() && has_edge_between(self.edges@, node, x) ==> exists|k: int|
                    0 <= k < r@.len() && (#[trigger] r@[k]).0 == x,
    {
        let n = self.nodes.arena_len();
        let mut r: Vec<(usize, E)> = Vec::new();
        let mut m: usize = 0;
        while m < n
            invariant
                m <= n,
                n == self.nodes@.len(),
                forall|k1: int, k2: int| 0 <= k1 < k2 < r@.len() ==> r@[k1].0 < r@[k2].0,
                forall|k: int| 0 <= k < r@.len() ==> (#[trigger] r@[k]).0 < m,
                forall|k: int|
                    0 <= k < r@.len() ==> has_edge_between(self.edges@, node, (#[trigger] r@[k]).0)
                        && r@[k].1 == self.edges@[min_connecting_idx(
                        self.edges@,
                        node,
                        r@[k].0,
                    )].unwrap().weight,
                forall|x: usize|
                    x < m && has_edge_between(self.edges@, node, x) ==> exists|k: int|
                        0 <= k < r@.len() && (#[trigger] r@[k]).0 == x,
            decreases n - m,
        {
            let ghost prefix = r@;
            match self.find_edge(node, m) {
                Some(j) => {
                    let e = self.edges.read(j).unwrap();
                    r.push((m, e.weight));
                    proof {
                        lemma_min_connecting_idx(self.edges@, node, m, j as int);
                        assert forall|x: usize|
                            x < m + 1 && has_edge_between(self.edges@, node, x) implies exists|
                            k: int,
                        |
                            0 <= k < r@.len() && (#[trigger] r@[k]).0 == x by {
                            if x < m {
                                let k = choose|k: int|
                                    0 <= k < prefix.len() && (#[trigger] prefix[k]).0 == x;
                                assert(r@[k].0 == x);
                            } else {
                                assert(r@[r@.len() - 1].0 == x);
                            }
                        }
                    }
                },
                None => {},
            }
            m = m + 1;
        }
        r
    }

    /// The degree of a node: each incident edge counts once, a self-loop
    /// counts twice.
    pub fn degree(&self, node: usize) -> (r: usize)
        requires
            degree_of(self.edges@, node) <= usize::MAX,
        ensures
            r == degree_of(self.edges@, node),
    {
        let m = self.edges.arena_len();
        let mut r: usize = 0;
        let mut j: usize = 0;
        while j < m
            invariant
                j <= m,
                m == self.edges@.len(),
                degree_of(self.edges@, node) <= usize::MAX,
                r == degree_of(self.edges@.take(j as int), node),
            decreases m - j,
        {
            proof {
                assert(self.edges@.take(j + 1).drop_last() =~= self.edges@.take(j as int));
                lemma_degree_take_le(self.edges@, node, j + 1);
            }
            match self.edges.read(j) {
                Some(e) => {
                    if e.src == node && e.tgt == node {
                        r = r + 2;
                    } else if e.src == node || e.tgt == node {
                        r = r + 1;
                    }
                },
                None => {},
            }
            j = j + 1;
        }
        proof {
            assert(self.edges@.take(m as int) =~= self.edges@);
        }
        r
    }

    /// Whether two distinct edges join the same unordered node pair; false
    /// on a non-multigraph, whose invariant rules such a pair out.
    pub fn has_parallel_edges(&self) -> (r: bool)
        requires
            self.wf(),
        ensures
            r == has_parallel(self.edges@),
    {
        if !self.multigraph {
            return false;
        }
        let m = self.edges.arena_len();
        let mut j: usize = 0;
        while j < m
            invariant
                j <= m,
                m == self.edges@.len(),
                forall|x: int, y: int|
                    #![trigger self.edges@[x], self.edges@[y]]
                    0 <= x < j && 0 <= y < m && x != y ==> !(slot_live(self.edges@, x)
                        && slot_live(self.edges@, y) && connects(
                        self.edges@[x].unwrap(),
                        self.edges@[y].unwrap().src,
                        self.edges@[y].unwrap().tgt,
                    )),
            decreases m - j,
        {
            match self.edges.read(j) {
                Some(e) => {
                    let mut k: usize = j + 1;
                    while k < m
                        invariant
                            j < k <= m,
                            m == self.edges@.len(),
                            slot_live(self.edges@, j as int),
                            e == self.edges@[j as int].unwrap(),
                            forall|y: int|
                                j < y < k ==> !(#[trigger] slot_live(self.edges@, y) && connects(
                                    self.edges@[y].unwrap(),
                                    e.src,
                                    e.tgt,
                                )),
                        decreases m - k,
                    {
                        match self.edges.read(k) {
                            Some(f) => {
                                if (f.src == e.src && f.tgt == e.tgt) || (f.src == e.tgt && f.tgt
                                    == e.src) {
                                    return true;
                                }
                            },
                            None => {},
                        }
                        k = k + 1;
                    }
                    proof {
                        assert forall|x: int, y: int|
                            #![trigger self.edges@[x], self.edges@[y]]
                            0 <= x < j + 1 && 0 <= y < m && x != y implies !(slot_live(
                            self.edges@,
                            x,
                        ) && slot_live(self.edges@, y) && connects(
                            self.edges@[x].unwrap(),
                            self.edges@[y].unwrap().src,
                            self.edges@[y].unwrap().tgt,
                        )) by {
                            if x == j as int && slot_live(self.edges@, y) {
                                if y > j as int {
                                    assert(!connects(
                                        self.edges@[y].unwrap(),
                                        self.edges@[x].unwrap().src,
                                        self.edges@[x].unwrap().tgt,
                                    ));
                                }
                            }
                        }
                    }
                },
                None => {},
            }
            j = j + 1;
        }
        false
    }

    /// Grow the node set until it has more live nodes than `limit`, filling
    /// the lowest free slots with the sentinel payload first.
    fn grow_nodes_to(&mut self, limit: usize, node_fill: V)
        requires
            old(self).wf(),
        ensures
            final(self).wf(),
            final(self).multigraph == old(self).multigraph,
            final(self).node_removed == old(self).node_removed,
            final(self).edges@ == old(self).edges@,
            live_count(final(self).nodes@) > limit,
            forall|i: int|
                #[trigger] slot_live(old(self).nodes@, i) ==> slot_live(final(self).nodes@, i)
                    && final(self).nodes@[i] == old(self).nodes@[i],
            forall|i: int|
                #[trigger] slot_live(final(self).nodes@, i) && !slot_live(old(self).nodes@, i)
                    ==> final(self).nodes@[i] == Some(node_fill),
            crate::slot::contiguous_live(old(self).nodes@) ==> crate::slot::contiguous_live(
                final(self).nodes@,
            ),
    {
        proof {
            crate::slot::lemma_live_count_le_len(self.nodes@);
        }
        while self.nodes.count() <= limit
            invariant
                self.wf(),
                self.multigraph == old(self).multigraph,
                self.node_removed == old(self).node_removed,
                self.edges@ == old(self).edges@,
                forall|i: int|
                    #[trigger] slot_live(old(self).nodes@, i) ==> slot_live(self.nodes@, i)
                        && self.nodes@[i] == old(self).nodes@[i],
                forall|i: int|
                    #[trigger] slot_live(self.nodes@, i) && !slot_live(old(self).nodes@, i)
                        ==> self.nodes@[i] == Some(node_fill),
                crate::slot::contiguous_live(old(self).nodes@) ==> crate::slot::contiguous_live(
                    self.nodes@,
                ),
            decreases limit + 1 - live_count(self.nodes@),
        {
            let ghost pre = self.nodes@;
            self.add_node(node_fill);
            proof {
                lemma_first_free_facts(pre);
                assert forall|i: int| #[trigger] slot_live(old(self).nodes@, i) implies slot_live(
                    self.nodes@,
                    i,
                ) && self.nodes@[i] == old(self).nodes@[i] by {
                    assert(slot_live(pre, i));
                }
                assert forall|i: int|
                    #[trigger] slot_live(self.nodes@, i) && !slot_live(
                        old(self).nodes@,
                        i,
                    ) implies self.nodes@[i] == Some(node_fill) by {
                    if self.nodes@[i] == pre[i] && slot_live(pre, i) {
                    } else {
                        assert(self.nodes@[i] == Some(node_fill) || (slot_live(pre, i)
                            && self.nodes@[i] == pre[i]));
                    }
                }
                if crate::slot::contiguous_live(old(self).nodes@) {
                    crate::slot::lemma_contiguous_first_free(pre);
                    assert(first_free(pre) == live_count(pre));
                    assert(live_count(self.nodes@) == live_count(pre) + 1);
                    assert forall|i: int|
                        0 <= i < live_count(self.nodes@) implies slot_live(self.nodes@, i) by {
                        if i < live_count(pre) {
                            assert(slot_live(pre, i));
                        } else {
                            assert(i == first_free(pre));
                        }
                    }
                }
            }
        }
    }

    /// Add the listed unweighted edges, first adding sentinel-payload nodes
    /// until every index seen so far is below the live node count, as the
    /// edge-list loaders do.  Fails with `InvalidEndpoint` when an endpoint
    /// still names no live node (which can happen when holes keep the live
    /// count and the handle range apart), leaving earlier additions in
    /// place.
    pub fn extend_from_edge_list(&mut self, edge_list: Vec<(usize, usize)>, node_fill: V, edge_fill: E) -> (r:
        Result<(), GraphError>)
        requires
            old(self).wf(),
        ensures
            final(self).wf(),
            final(self).multigraph == old(self).multigraph,
            forall|i: int|
                #[trigger] slot_live(old(self).nodes@, i) ==> slot_live(final(self).nodes@, i)
                    && final(self).nodes@[i] == old(self).nodes@[i],
            forall|j: int|
                #[trigger] slot_live(old(self).edges@, j) ==> slot_live(final(self).edges@, j)
                    && final(self).edges@[j].unwrap().src == old(self).edges@[j].unwrap().src
                    && final(self).edges@[j].unwrap().tgt == old(self).edges@[j].unwrap().tgt,
            match r {
                Ok(()) => forall|k: int|
                    0 <= k < edge_list@.len() ==> has_edge_between(
                        final(self).edges@,
                        (#[trigger] edge_list@[k]).0,
                        edge_list@[k].1,
                    ),
                Err(e) => e == GraphError::InvalidEndpoint,
            },
            crate::slot::contiguous_live(old(self).nodes@) ==> r is Ok,
            forall|i: int|
                #[trigger] slot_live(final(self).nodes@, i) && !slot_live(old(self).nodes@, i)
                    ==> final(self).nodes@[i] == Some(node_fill),
            r is Ok && old(self).multigraph ==> forall|k: int|
                0 <= k < edge_list@.len() ==> edge_present_exact(
                    final(self).edges@,
                    ((#[trigger] edge_list@[k]).0, edge_list@[k].1, edge_fill),
                ),
            r is Ok && !old(self).multigraph ==> forall|k: int|
                0 <= k < edge_list@.len() ==> pair_weighted(
                    final(self).edges@,
                    ((#[trigger] edge_list@[k]).0, edge_list@[k].1, edge_fill),
                ),
    {
        let n = edge_list.len();
        let mut i: usize = 0;
        while i < n
            invariant
                i <= n,
                n == edge_list@.len(),
                self.wf(),
                self.multigraph == old(self).multigraph,
                forall|x: int|
                    #[trigger] slot_live(old(self).nodes@, x) ==> slot_live(self.nodes@, x)
                        && self.nodes@[x] == old(self).nodes@[x],
                forall|x: int|
                    #[trigger] slot_live(self.nodes@, x) && !slot_live(old(self).nodes@, x)
                        ==> self.nodes@[x] == Some(node_fill),
                crate::slot::contiguous_live(old(self).nodes@) ==> crate::slot::contiguous_live(
                    self.nodes@,
                ),
                forall|j: int|
                    #[trigger] slot_live(old(self).edges@, j) ==> slot_live(self.edges@, j)
                        && self.edges@[j].unwrap().src == old(self).edges@[j].unwrap().src
                        && self.edges@[j].unwrap().tgt == old(self).edges@[j].unwrap().tgt,
                forall|k: int|
                    0 <= k < i ==> has_edge_between(
                        self.edges@,
                        (#[trigger] edge_list@[k]).0,
                        edge_list@[k].1,
                    ),
                self.multigraph ==> forall|k: int|
                    0 <= k < i ==> edge_present_exact(
                        self.edges@,
                        ((#[trigger] edge_list@[k]).0, edge_list@[k].1, edge_fill),
                    ),
                !self.multigraph ==> forall|k: int|
                    0 <= k < i ==> pair_weighted(
                        self.edges@,
                        ((#[trigger] edge_list@[k]).0, edge_list@[k].1, edge_fill),
                    ),
            decreases n - i,
        {
            let (a, b) = edge_list[i];
            let mx = if a > b {
                a
            } else {
                b
            };
            self.grow_nodes_to(mx, node_fill);
            if !self.nodes.is_live(a) || !self.nodes.is_live(b) {
                proof {
                    if crate::slot::contiguous_live(old(self).nodes@) {
                        assert(crate::slot::contiguous_live(self.nodes@));
                        assert(slot_live(self.nodes@, a as int));
                        assert(slot_live(self.nodes@, b as int));
                        assert(false);
                    }
                }
                return Err(GraphError::InvalidEndpoint);
            }
            let ghost pre = *self;
            let h = self.insert_or_update_edge(a, b, edge_fill);
            proof {
                lemma_first_free_facts(pre.edges@);
                assert forall|j: int| #[trigger] slot_live(pre.edges@, j) implies slot_live(
                    self.edges@,
                    j,
                ) && self.edges@[j].unwrap().src == pre.edges@[j].unwrap().src
                    && self.edges@[j].unwrap().tgt == pre.edges@[j].unwrap().tgt by {}
                assert forall|k: int| 0 <= k < i + 1 implies has_edge_between(
                    self.edges@,
                    (#[trigger] edge_list@[k]).0,
                    edge_list@[k].1,
                ) by {
                    if k < i {
                        let jj = choose|jj: int| #[trigger]
                            slot_live(pre.edges@, jj) && connects(
                                pre.edges@[jj].unwrap(),
                                edge_list@[k].0,
                                edge_list@[k].1,
                            );
                        assert(slot_live(self.edges@, jj) && connects(
                            self.edges@[jj].unwrap(),
                            edge_list@[k].0,
                            edge_list@[k].1,
                        ));
                    } else {
                        if !pre.multigraph && has_edge_between(pre.edges@, a, b) {
                            let jj = min_connecting_idx(pre.edges@, a, b);
                            assert(min_connecting(pre.edges@, a, b, jj)) by {
                                let w = choose|w: int| #[trigger]
                                    slot_live(pre.edges@, w) && connects(
                                        pre.edges@[w].unwrap(),
                                        a,
                                        b,
                                    );
                            }
                            assert(slot_live(self.edges@, jj) && connects(
                                self.edges@[jj].unwrap(),
                                a,
                                b,
                            ));
                        } else {
                            let h = first_free(pre.edges@);
                            assert(slot_live(self.edges@, h) && connects(
                                self.edges@[h].unwrap(),
                                a,
                                b,
                            ));
                        }
                    }
                }
                assert(slot_live(self.edges@, h as int) && connects(
                    self.edges@[h as int].unwrap(),
                    a,
                    b,
                ) && self.edges@[h as int].unwrap().weight == edge_fill);
                if self.multigraph {
                    assert forall|k: int| 0 <= k < i + 1 implies edge_present_exact(
                        self.edges@,
                        ((#[trigger] edge_list@[k]).0, edge_list@[k].1, edge_fill),
                    ) by {
                        if k < i {
                            let jj = choose|jj: int| #[trigger]
                                slot_live(pre.edges@, jj) && pre.edges@[jj] == Some(
                                    (Edge {
                                        src: edge_list@[k].0,
                                        tgt: edge_list@[k].1,
                                        weight: edge_fill,
                                    }),
                                );
                            assert(slot_live(self.edges@, jj) && self.edges@[jj]
                                == pre.edges@[jj]);
                        } else {
                            assert(self.edges@[h as int] == Some(
                                (Edge { src: a, tgt: b, weight: edge_fill }),
                            ));
                        }
                    }
                } else {
                    assert forall|k: int| 0 <= k < i + 1 implies pair_weighted(
                        self.edges@,
                        ((#[trigger] edge_list@[k]).0, edge_list@[k].1, edge_fill),
                    ) by {
                        if k < i {
                            let jj = choose|jj: int| #[trigger]
                                slot_live(pre.edges@, jj) && connects(
                                    pre.edges@[jj].unwrap(),
                                    edge_list@[k].0,
                                    edge_list@[k].1,
                                ) && pre.edges@[jj].unwrap().weight == edge_fill;
                            if self.edges@[jj] != pre.edges@[jj] {
                                assert(connects(pre.edges@[jj].unwrap(), a, b)
                                    || pre.edges@[jj] is None);
                                assert(connects(self.edges@[h as int].unwrap(), a, b));
                                assert(connects(
                                    self.edges@[h as int].unwrap(),
                                    edge_list@[k].0,
                                    edge_list@[k].1,
                                ));
                            } else {
                                assert(slot_live(self.edges@, jj));
                            }
                        }
                    }
                }
            }
            i = i + 1;
        }
        Ok(())
    }

    /// Add the listed weighted edges, first adding sentinel-payload nodes
    /// until every index seen so far is below the live node count.  Fails
    /// with `InvalidEndpoint` as the unweighted loader does.
    pub fn extend_from_weighted_edge_list(&mut self, edge_list: Vec<(usize, usize, E)>, node_fill: V) -> (r:
        Result<(), GraphError>)
        requires
            old(self).wf(),
        ensures
            final(self).wf(),
            final(self).multigraph == old(self).multigraph,
            forall|i: int|
                #[trigger] slot_live(old(self).nodes@, i) ==> slot_live(final(self).nodes@, i)
                    && final(self).nodes@[i] == old(self).nodes@[i],
            forall|j: int|
                #[trigger] slot_live(old(self).edges@, j) ==> slot_live(final(self).edges@, j)
                    && final(self).edges@[j].unwrap().src == old(self).edges@[j].unwrap().src
                    && final(self).edges@[j].unwrap().tgt == old(self).edges@[j].unwrap().tgt,
            match r {
                Ok(()) => forall|k: int|
                    0 <= k < edge_list@.len() ==> has_edge_between(
                        final(self).edges@,
                        (#[trigger] edge_list@[k]).0,
                        edge_list@[k].1,
                    ),
                Err(e) => e == GraphError::InvalidEndpoint,
            },
            crate::slot::contiguous_live(old(self).nodes@) ==> r is Ok,
            forall|i: int|
                #[trigger] slot_live(final(self).nodes@, i) && !slot_live(old(self).nodes@, i)
                    ==> final(self).nodes@[i] == Some(node_fill),
            r is Ok && old(self).multigraph ==> forall|k: int|
                0 <= k < edge_list@.len() ==> edge_present_exact(
                    final(self).edges@,
                    #[trigger] edge_list@[k],
                ),
            r is Ok && !old(self).multigraph ==> forall|k: int|
                0 <= k < edge_list@.len() && (forall|k2: int|
                    k < k2 < edge_list@.len() ==> !same_pair(
                        edge_list@[k],
                        #[trigger] edge_list@[k2],
                    )) ==> pair_weighted(final(self).edges@, #[trigger] edge_list@[k]),
    {
        let n = edge_list.len();
        let mut i: usize = 0;
        while i < n
            invariant
                i <= n,
                n == edge_list@.len(),
                self.wf(),
                self.multigraph == old(self).multigraph,
                forall|x: int|
                    #[trigger] slot_live(old(self).nodes@, x) ==> slot_live(self.nodes@, x)
                        && self.nodes@[x] == old(self).nodes@[x],
                forall|x: int|
                    #[trigger] slot_live(self.nodes@, x) && !slot_live(old(self).nodes@, x)
                        ==> self.nodes@[x] == Some(node_fill),
                crate::slot::contiguous_live(old(self).nodes@) ==> crate::slot::contiguous_live(
                    self.nodes@,
                ),
                forall|j: int|
                    #[trigger] slot_live(old(self).edges@, j) ==> slot_live(self.edges@, j)
                        && self.edges@[j].unwrap().src == old(self).edges@[j].unwrap().src
                        && self.edges@[j].unwrap().tgt == old(self).edges@[j].unwrap().tgt,
                forall|k: int|
                    0 <= k < i ==> has_edge_between(
                        self.edges@,
                        (#[trigger] edge_list@[k]).0,
                        edge_list@[k].1,
                    ),
                self.multigraph ==> forall|k: int|
                    0 <= k < i ==> edge_present_exact(self.edges@, #[trigger] edge_list@[k]),
                !self.multigraph ==> forall|k: int|
                    0 <= k < i && (forall|k2: int|
                        k < k2 < i ==> !same_pair(edge_list@[k], #[trigger] edge_list@[k2]))
                        ==> pair_weighted(self.edges@, #[trigger] edge_list@[k]),
            decreases n - i,
        {
            let (a, b, w) = edge_list[i];
            let mx = if a > b {
                a
            } else {
                b
            };
            self.grow_nodes_to(mx, node_fill);
            if !self.nodes.is_live(a) || !self.nodes.is_live(b) {
                proof {
                    if crate::slot::contiguous_live(old(self).nodes@) {
                        assert(crate::slot::contiguous_live(self.nodes@));
                        assert(slot_live(self.nodes@, a as int));
                        assert(slot_live(self.nodes@, b as int));
                        assert(false);
                    }
                }
                return Err(GraphError::InvalidEndpoint);
            }
            let ghost pre = *self;
            let h = self.insert_or_update_edge(a, b, w);
            proof {
                lemma_first_free_facts(pre.edges@);
                assert forall|j: int| #[trigger] slot_live(pre.edges@, j) implies slot_live(
                    self.edges@,
                    j,
                ) && self.edges@[j].unwrap().src == pre.edges@[j].unwrap().src
                    && self.edges@[j].unwrap().tgt == pre.edges@[j].unwrap().tgt by {}
                assert forall|k: int| 0 <= k < i + 1 implies has_edge_between(
                    self.edges@,
                    (#[trigger] edge_list@[k]).0,
                    edge_list@[k].1,
                ) by {
                    if k < i {
                        let jj = choose|jj: int| #[trigger]
                            slot_live(pre.edges@, jj) && connects(
                                pre.edges@[jj].unwrap(),
                                edge_list@[k].0,
                                edge_list@[k].1,
                            );
                        assert(slot_live(self.edges@, jj) && connects(
                            self.edges@[jj].unwrap(),
                            edge_list@[k].0,
                            edge_list@[k].1,
                        ));
                    } else {
                        assert(slot_live(self.edges@, h as int) && connects(
                            self.edges@[h as int].unwrap(),
                            a,
                            b,
                        ));
                    }
                }
                if self.multigraph {
                    assert forall|k: int| 0 <= k < i + 1 implies edge_present_exact(
                        self.edges@,
                        #[trigger] edge_list@[k],
                    ) by {
                        if k < i {
                            let jj = choose|jj: int| #[trigger]
                                slot_live(pre.edges@, jj) && pre.edges@[jj] == Some(
                                    (Edge {
                                        src: edge_list@[k].0,
                                        tgt: edge_list@[k].1,
                                        weight: edge_list@[k].2,
                                    }),
                                );
                            assert(slot_live(self.edges@, jj) && self.edges@[jj]
                                == pre.edges@[jj]);
                        } else {
                            assert(h as int == first_free(pre.edges@));
                            assert(self.edges@ == alloc_result(
                                pre.edges@,
                                (Edge { src: a, tgt: b, weight: w }),
                            ));
                            assert(self.edges@[h as int] == Some(
                                (Edge { src: a, tgt: b, weight: w }),
                            ));
                            assert(slot_live(self.edges@, h as int));
                            assert(edge_list@[k] == (a, b, w));
                            assert(edge_present_exact(self.edges@, (a, b, w)));
                        }
                    }
                } else {
                    assert forall|k: int|
                        0 <= k < i + 1 && (forall|k2: int|
                            k < k2 < i + 1 ==> !same_pair(
                                edge_list@[k],
                                #[trigger] edge_list@[k2],
                            )) implies pair_weighted(self.edges@, #[trigger] edge_list@[k]) by {
                        if k < i {
                            assert(!same_pair(edge_list@[k], edge_list@[i as int]));
                            let jj = choose|jj: int| #[trigger]
                                slot_live(pre.edges@, jj) && connects(
                                    pre.edges@[jj].unwrap(),
                                    edge_list@[k].0,
                                    edge_list@[k].1,
                                ) && pre.edges@[jj].unwrap().weight == edge_list@[k].2;
                            if self.edges@[jj] != pre.edges@[jj] {
                                assert(connects(pre.edges@[jj].unwrap(), a, b)
                                    || pre.edges@[jj] is None);
                                assert(false);
                            }
                            assert(slot_live(self.edges@, jj));
                        } else {
                            if has_edge_between(pre.edges@, a, b) {
                                assert(slot_live(self.edges@, h as int) && connects(
                                    self.edges@[h as int].unwrap(),
                                    a,
                                    b,
                                ) && self.edges@[h as int].unwrap().weight == w);
                            } else {
                                assert(self.edges@[h as int] == Some(
                                    (Edge { src: a, tgt: b, weight: w }),
                                ));
                            }
                        }
                    }
                }
            }
            i = i + 1;
        }
        Ok(())
    }

    /// A structural copy sharing every payload value with the original.
    pub fn copy(&self) -> (r: Self)
        ensures
            r.nodes@ == self.nodes@,
            r.edges@ == self.edges@,
            r.multigraph == self.multigraph,
            r.node_removed == self.node_removed,
    {
        PyGraph {
            nodes: self.nodes.duplicate(),
            edges: self.edges.duplicate(),
            multigraph: self.multigraph,
            node_removed: self.node_removed,
        }
    }
}

impl<V: Copy + PartialEq, E: Copy> PyGraph<V, E> {
    /// The lowest live node handle whose payload equals `obj`, when the
    /// payload type's equality obeys its specification.
    pub fn find_node_by_weight(&self, obj: V) -> (r: Option<usize>)
        ensures
            <V as vstd::std_specs::cmp::PartialEqSpec>::obeys_eq_spec() ==> match r {
                Some(i) => {
                    &&& slot_live(self.nodes@, i as int)
                    &&& self.nodes@[i as int].unwrap().eq_spec(&obj)
                    &&& forall|m: int|
                        0 <= m < i ==> !(#[trigger] slot_live(self.nodes@, m)
                            && self.nodes@[m].unwrap().eq_spec(&obj))
                },
                None => forall|m: int|
                    !(#[trigger] slot_live(self.nodes@, m) && self.nodes@[m].unwrap().eq_spec(
                        &obj,
                    )),
            },
    {
        let n = self.nodes.arena_len();
        let mut i: usize = 0;
        while i < n
            invariant
                i <= n,
                n == self.nodes@.len(),
                <V as vstd::std_specs::cmp::PartialEqSpec>::obeys_eq_spec() ==> forall|m: int|
                    0 <= m < i ==> !(#[trigger] slot_live(self.nodes@, m)
                        && self.nodes@[m].unwrap().eq_spec(&obj)),
            decreases n - i,
        {
            match self.nodes.read(i) {
                Some(v) => {
                    if v == obj {
                        return Some(i);
                    }
                },
                None => {},
            }
            i = i + 1;
        }
        None
    }
}

/// A node without incident live edges has degree zero.
pub proof fn lemma_degree_isolated<E>(es: Seq<Option<Edge<E>>>, n: usize)
    requires
        forall|k: int| #[trigger] slot_live(es, k) ==> !touches(es[k].unwrap(), n),
    ensures
        degree_of(es, n) == 0,
    decreases es.len(),
{
    if es.len() > 0 {
        assert forall|k: int| #[trigger] slot_live(es.drop_last(), k) implies !touches(
            es.drop_last()[k].unwrap(),
            n,
        ) by {
            assert(slot_live(es, k));
        }
        lemma_degree_isolated(es.drop_last(), n);
        if es.last() is Some {
            assert(slot_live(es, es.len() - 1));
        }
    }
}

/// Law: a node whose only incident live edge is a single self-loop has
/// degree two — the self-loop counts twice.
pub proof fn lemma_self_loop_degree<E>(es: Seq<Option<Edge<E>>>, n: usize, j: int)
    requires
        slot_live(es, j),
        es[j].unwrap().src == n && es[j].unwrap().tgt == n,
        forall|k: int| #[trigger] slot_live(es, k) && k != j ==> !touches(es[k].unwrap(), n),
    ensures
        degree_of(es, n) == 2,
    decreases es.len(),
{
    if j == es.len() - 1 {
        assert forall|k: int| #[trigger] slot_live(es.drop_last(), k) implies !touches(
            es.drop_last()[k].unwrap(),
            n,
        ) by {
            assert(slot_live(es, k) && k != j);
        }
        lemma_degree_isolated(es.drop_last(), n);
    } else {
        assert forall|k: int| #[trigger]
            slot_live(es.drop_last(), k) && k != j implies !touches(
            es.drop_last()[k].unwrap(),
            n,
        ) by {
            assert(slot_live(es, k));
        }
        lemma_self_loop_degree(es.drop_last(), n, j);
        if es.last() is Some {
            assert(slot_live(es, es.len() - 1));
            assert(!touches(es.last().unwrap(), n));
        }
    }
}

/// Degrees only grow as more of the edge arena is taken into account.
pub proof fn lemma_degree_take_le<E>(es: Seq<Option<Edge<E>>>, n: usize, j: int)
    requires
        0 <= j <= es.len(),
    ensures
        degree_of(es.take(j), n) <= degree_of(es, n),
    decreases es.len() - j,
{
    if j == es.len() {
        assert(es.take(j) =~= es);
    } else {
        assert(es.take(j + 1).drop_last() =~= es.take(j));
        lemma_degree_take_le(es, n, j + 1);
    }
}

} // verus!
