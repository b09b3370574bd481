//! Structural transformations: induced subgraphs, composition, node
//! contraction, substitution of a node by a subgraph, and payload filters.

use vstd::prelude::*;

use crate::graph::Edge;
use crate::graph::GraphError;
use crate::graph::PyGraph;
use crate::graph::connects;
use crate::graph::has_edge_between;
use crate::graph::touches;
use crate::slot::SlotStore;
use crate::slot::live_count;
use crate::slot::slot_live;

verus! {

/// Whether the list holds the value; a linear scan.
fn list_contains(list: &Vec<usize>, x: usize) -> (r: bool)
    ensures
        r == list@.contains(x),
{
    let n = list.len();
    let mut k: usize = 0;
    while k < n
        invariant
            k <= n,
            n == list@.len(),
            forall|y: int| 0 <= y < k ==> list@[y] != x,
        decreases n - k,
    {
        if list[k] == x {
            return true;
        }
        k = k + 1;
    }
    false
}

/// The `(original handle, payload)` pairs of the live nodes of `s` whose
/// handle the selection holds, in increasing handle order: the nodes of a
/// node-induced subgraph, paired with their origin.
pub open spec fn selected_pairs<V>(s: Seq<Option<V>>, sel: Seq<usize>) -> Seq<(usize, V)>
    decreases s.len(),
{
    if s.len() == 0 {
        Seq::empty()
    } else if s.last() is Some && sel.contains(((s.len() - 1) as usize)) {
        selected_pairs(s.drop_last(), sel).push((((s.len() - 1) as usize), s.last().unwrap()))
    } else {
        selected_pairs(s.drop_last(), sel)
    }
}

/// The live edges of `es` both of whose endpoints the selection holds, in
/// increasing handle order: the edges of a node-induced subgraph, with
/// their original endpoints.
pub open spec fn selected_edges<E>(es: Seq<Option<Edge<E>>>, sel: Seq<usize>) -> Seq<Edge<E>>
    decreases es.len(),
{
    if es.len() == 0 {
        Seq::empty()
    } else if es.last() is Some && sel.contains(es.last().unwrap().src) && sel.contains(
        es.last().unwrap().tgt,
    ) {
        selected_edges(es.drop_last(), sel).push(es.last().unwrap())
    } else {
        selected_edges(es.drop_last(), sel)
    }
}

/// Whether an edge is a legitimate re-route of a contraction: some
/// original live edge with a selected endpoint maps onto it, in-selection
/// endpoints replaced by the new node — and, when no combine function can
/// rewrite payloads, with that original edge's payload.
pub open spec fn rerouted_from<E>(
    es: Seq<Option<Edge<E>>>,
    sel: Seq<usize>,
    n: usize,
    e: Edge<E>,
    exact_weight: bool,
) -> bool {
    exists|j0: int|
        #[trigger] slot_live(es, j0) && (sel.contains(es[j0].unwrap().src) || sel.contains(
            es[j0].unwrap().tgt,
        )) && connects(
            e,
            if sel.contains(es[j0].unwrap().src) {
                n
            } else {
                es[j0].unwrap().src
            },
            if sel.contains(es[j0].unwrap().tgt) {
                n
            } else {
                es[j0].unwrap().tgt
            },
        ) && (exact_weight ==> e.weight == es[j0].unwrap().weight)
}

/// The contents of one edge slot after the re-routing sweep of a
/// contraction has passed it: freed when it held an edge touching a
/// selected node, untouched otherwise.
pub open spec fn reroute_slot<E>(es: Seq<Option<Edge<E>>>, sel: Seq<usize>, jj: int) -> Option<
    Edge<E>,
> {
    if slot_live(es, jj) && (sel.contains(es[jj].unwrap().src) || sel.contains(
        es[jj].unwrap().tgt,
    )) {
        None
    } else {
        es[jj]
    }
}

/// Whether an unordered pair appears in the edge list with some live edge
/// joining it: the pairs an edge-induced subgraph keeps.
pub open spec fn pair_selected<E>(
    es: Seq<Option<Edge<E>>>,
    el: Seq<(usize, usize)>,
    a: usize,
    b: usize,
) -> bool {
    exists|k: int|
        0 <= k < el.len() && has_edge_between(es, (#[trigger] el[k]).0, el[k].1) && ((el[k].0 == a
            && el[k].1 == b) || (el[k].0 == b && el[k].1 == a))
}

/// Whether a node is an endpoint of some kept pair of an edge-induced
/// subgraph: the nodes such a subgraph keeps.
pub open spec fn node_in_selection<E>(
    es: Seq<Option<Edge<E>>>,
    el: Seq<(usize, usize)>,
    i: usize,
) -> bool {
    exists|k: int|
        0 <= k < el.len() && has_edge_between(es, (#[trigger] el[k]).0, el[k].1) && (el[k].0 == i
            || el[k].1 == i)
}

/// Soundness of the kept-pair list: every entry is a listed pair that
/// some live edge joins.
pub open spec fn filtered_sound<E>(
    es: Seq<Option<Edge<E>>>,
    el: Seq<(usize, usize)>,
    f: Seq<(usize, usize)>,
) -> bool {
    forall|y: int|
        0 <= y < f.len() ==> exists|kk: int|
            0 <= kk < el.len() && el[kk] == (#[trigger] f[y]) && has_edge_between(
                es,
                f[y].0,
                f[y].1,
            )
}

/// Completeness of the kept-pair list over a prefix of the edge list:
/// every listed pair that some live edge joins is kept.
pub open spec fn filtered_complete<E>(
    es: Seq<Option<Edge<E>>>,
    el: Seq<(usize, usize)>,
    f: Seq<(usize, usize)>,
    upto: int,
) -> bool {
    forall|kk: int|
        0 <= kk < upto && has_edge_between(es, (#[trigger] el[kk]).0, el[kk].1) ==> f.contains(
            el[kk],
        )
}

/// One edge slot after the node-removal sweep of an edge-induced
/// subgraph has considered the first `upto` node handles: freed when a
/// swept node took it along, untouched otherwise.
pub open spec fn node_phase_edge<V, E>(
    ns: Seq<Option<V>>,
    es: Seq<Option<Edge<E>>>,
    el: Seq<(usize, usize)>,
    jj: int,
    upto: int,
) -> Option<Edge<E>> {
    if slot_live(es, jj) && dropped_by_nodes(ns, es, el, es[jj].unwrap(), upto) {
        None
    } else {
        es[jj]
    }
}

/// Whether some entry of the kept-pair list has the node as an endpoint.
pub open spec fn hits_filtered_spec(filtered: Seq<(usize, usize)>, i: usize) -> bool {
    exists|y: int| 0 <= y < filtered.len() && ((#[trigger] filtered[y]).0 == i || filtered[y].1 == i)
}

/// Whether some entry of the kept-pair list equals the unordered pair.
pub open spec fn pair_hits_spec(filtered: Seq<(usize, usize)>, a: usize, b: usize) -> bool {
    exists|y: int|
        0 <= y < filtered.len() && (((#[trigger] filtered[y]).0 == a && filtered[y].1 == b) || (
        filtered[y].0 == b && filtered[y].1 == a))
}

/// Scan the kept-pair list for an entry with the node as an endpoint.
fn hits_filtered(filtered: &Vec<(usize, usize)>, i: usize) -> (r: bool)
    ensures
        r == hits_filtered_spec(filtered@, i),
{
    let n = filtered.len();
    let mut y: usize = 0;
    while y < n
        invariant
            y <= n,
            n == filtered@.len(),
            forall|yy: int|
                0 <= yy < y ==> (#[trigger] filtered@[yy]).0 != i && filtered@[yy].1 != i,
        decreases n - y,
    {
        let (a, b) = filtered[y];
        if a == i || b == i {
            return true;
        }
        y = y + 1;
    }
    false
}

/// Scan the kept-pair list for an entry equal to the unordered pair.
fn pair_in_filtered(filtered: &Vec<(usize, usize)>, a: usize, b: usize) -> (r: bool)
    ensures
        r == pair_hits_spec(filtered@, a, b),
{
    let n = filtered.len();
    let mut y: usize = 0;
    while y < n
        invariant
            y <= n,
            n == filtered@.len(),
            forall|yy: int|
                0 <= yy < y ==> !((#[trigger] filtered@[yy]).0 == a && filtered@[yy].1 == b) && !(
                filtered@[yy].0 == b && filtered@[yy].1 == a),
        decreases n - y,
    {
        let (fa, fb) = filtered[y];
        if (fa == a && fb == b) || (fa == b && fb == a) {
            return true;
        }
        y = y + 1;
    }
    false
}

/// Whether one of the first `upto` node handles is live, outside the
/// selection of an edge-induced subgraph, and an endpoint of the edge: the
/// edges such nodes take with them when they are removed.
pub open spec fn dropped_by_nodes<V, E>(
    ns: Seq<Option<V>>,
    es: Seq<Option<Edge<E>>>,
    el: Seq<(usize, usize)>,
    e: Edge<E>,
    upto: int,
) -> bool {
    exists|x: usize|
        (x as int) < upto && slot_live(ns, x as int) && !node_in_selection(es, el, x) && touches(
            e,
            x,
        )
}

/// Whether some mapping pair has `i` as the handle of a copy.
pub open spec fn is_image(map: Seq<(usize, usize)>, i: int) -> bool {
    exists|k: int| 0 <= k < map.len() && (#[trigger] map[k]).1 as int == i
}

/// Whether some mapping pair records a copy for the handle `o`.
pub open spec fn has_image(map: Seq<(usize, usize)>, o: usize) -> bool {
    exists|k: int| 0 <= k < map.len() && (#[trigger] map[k]).0 == o
}

/// The copies of `other`'s edges survive a mutation step of a
/// substitution: every step preserves the endpoints of live edges that do
/// not touch the substituted node, and on a multigraph preserves those
/// slots outright, while the witnesses join two images, which are never
/// the substituted node.
proof fn lemma_copied_edges_survive<V, E, WM: Fn(E) -> Result<E, GraphError>>(
    pre: PyGraph<V, E>,
    post: PyGraph<V, E>,
    other: PyGraph<V, E>,
    imgv: Seq<Option<usize>>,
    wm: Option<WM>,
    node: usize,
)
    requires
        other.wf(),
        imgv.len() == other.nodes@.len(),
        post.multigraph == pre.multigraph,
        forall|w: int|
            #[trigger] slot_live(pre.edges@, w) && !touches(pre.edges@[w].unwrap(), node)
                ==> slot_live(post.edges@, w) && post.edges@[w].unwrap().src
                == pre.edges@[w].unwrap().src && post.edges@[w].unwrap().tgt
                == pre.edges@[w].unwrap().tgt,
        pre.multigraph ==> forall|w: int|
            #[trigger] slot_live(pre.edges@, w) && !touches(pre.edges@[w].unwrap(), node)
                ==> post.edges@[w] == pre.edges@[w],
        forall|x: int|
            0 <= x < imgv.len() && (#[trigger] imgv[x]) is Some ==> imgv[x].unwrap() != node,
        forall|jj: int|
            #[trigger] slot_live(other.edges@, jj) && (
            imgv[other.edges@[jj].unwrap().src as int]) is Some && (
            imgv[other.edges@[jj].unwrap().tgt as int]) is Some ==> copied_edge_xformed(
                pre,
                wm,
                imgv[other.edges@[jj].unwrap().src as int].unwrap(),
                imgv[other.edges@[jj].unwrap().tgt as int].unwrap(),
                other.edges@[jj].unwrap().weight,
                pre.multigraph,
            ),
    ensures
        forall|jj: int|
            #[trigger] slot_live(other.edges@, jj) && (
            imgv[other.edges@[jj].unwrap().src as int]) is Some && (
            imgv[other.edges@[jj].unwrap().tgt as int]) is Some ==> copied_edge_xformed(
                post,
                wm,
                imgv[other.edges@[jj].unwrap().src as int].unwrap(),
                imgv[other.edges@[jj].unwrap().tgt as int].unwrap(),
                other.edges@[jj].unwrap().weight,
                post.multigraph,
            ),
{
    assert forall|jj: int|
        #[trigger] slot_live(other.edges@, jj) && (imgv[other.edges@[jj].unwrap().src as int])
            is Some && (imgv[other.edges@[jj].unwrap().tgt as int])
            is Some implies copied_edge_xformed(
        post,
        wm,
        imgv[other.edges@[jj].unwrap().src as int].unwrap(),
        imgv[other.edges@[jj].unwrap().tgt as int].unwrap(),
        other.edges@[jj].unwrap().weight,
        post.multigraph,
    ) by {
        let aa = imgv[other.edges@[jj].unwrap().src as int].unwrap();
        let bb = imgv[other.edges@[jj].unwrap().tgt as int].unwrap();
        let ww = other.edges@[jj].unwrap().weight;
        assert(slot_live(other.nodes@, other.edges@[jj].unwrap().src as int));
        assert(slot_live(other.nodes@, other.edges@[jj].unwrap().tgt as int));
        assert(aa != node && bb != node);
        let w0 = choose|w0: int| #[trigger]
            slot_live(pre.edges@, w0) && connects(pre.edges@[w0].unwrap(), aa, bb);
        assert(!touches(pre.edges@[w0].unwrap(), node));
        assert(slot_live(post.edges@, w0) && connects(post.edges@[w0].unwrap(), aa, bb));
        if pre.multigraph {
            let w1 = choose|w1: int| #[trigger]
                slot_live(pre.edges@, w1) && connects(pre.edges@[w1].unwrap(), aa, bb)
                    && payload_xformed(wm, ww, pre.edges@[w1].unwrap().weight);
            assert(!touches(pre.edges@[w1].unwrap(), node));
            assert(post.edges@[w1] == pre.edges@[w1]);
            assert(slot_live(post.edges@, w1) && connects(post.edges@[w1].unwrap(), aa, bb)
                && payload_xformed(wm, ww, post.edges@[w1].unwrap().weight));
        }
    }
}

/// The recorded outcome for one re-routed edge survives a later mutation
/// step of the same substitution, since every step preserves the
/// endpoints of live edges that do not touch the substituted node — and,
/// on a multigraph, those slots outright — while the witness edge joins a
/// surviving endpoint to an image.
proof fn lemma_outcome_survives<
    V,
    E,
    FM: Fn(usize, usize, E) -> Result<Option<usize>, GraphError>,
>(
    pre: PyGraph<V, E>,
    post: PyGraph<V, E>,
    map: Seq<(usize, usize)>,
    fm: FM,
    e: Edge<E>,
    node: usize,
)
    requires
        post.multigraph == pre.multigraph,
        forall|w: int|
            #[trigger] slot_live(pre.edges@, w) && !touches(pre.edges@[w].unwrap(), node)
                ==> slot_live(post.edges@, w) && post.edges@[w].unwrap().src
                == pre.edges@[w].unwrap().src && post.edges@[w].unwrap().tgt
                == pre.edges@[w].unwrap().tgt,
        pre.multigraph ==> forall|w: int|
            #[trigger] slot_live(pre.edges@, w) && !touches(pre.edges@[w].unwrap(), node)
                ==> post.edges@[w] == pre.edges@[w],
        forall|k: int| 0 <= k < map.len() ==> (#[trigger] map[k]).1 != node,
        touches(e, node),
        !(e.src == node && e.tgt == node),
        reroute_outcome(fm, map, pre.edges@, e, node, pre.multigraph),
    ensures
        reroute_outcome(fm, map, post.edges@, e, node, post.multigraph),
{
    let rr = choose|rr: Result<Option<usize>, GraphError>|
        {
            &&& #[trigger] call_ensures(fm, (e.src, e.tgt, e.weight), rr)
            &&& match rr {
                Ok(Some(hh)) => exists|k: int|
                    0 <= k < map.len() && (#[trigger] map[k]).0 == hh && has_edge_between(
                        pre.edges@,
                        crate::graph::opposite(e, node),
                        map[k].1,
                    ) && (pre.multigraph ==> exists|j: int| #[trigger]
                        slot_live(pre.edges@, j) && connects(
                            pre.edges@[j].unwrap(),
                            crate::graph::opposite(e, node),
                            map[k].1,
                        ) && pre.edges@[j].unwrap().weight == e.weight),
                Ok(None) => true,
                Err(_) => false,
            }
        };
    match rr {
        Ok(Some(hh)) => {
            let k = choose|k: int|
                0 <= k < map.len() && (#[trigger] map[k]).0 == hh && has_edge_between(
                    pre.edges@,
                    crate::graph::opposite(e, node),
                    map[k].1,
                ) && (pre.multigraph ==> exists|j: int| #[trigger]
                    slot_live(pre.edges@, j) && connects(
                        pre.edges@[j].unwrap(),
                        crate::graph::opposite(e, node),
                        map[k].1,
                    ) && pre.edges@[j].unwrap().weight == e.weight);
            let w = choose|w: int| #[trigger]
                slot_live(pre.edges@, w) && connects(
                    pre.edges@[w].unwrap(),
                    crate::graph::opposite(e, node),
                    map[k].1,
                );
            assert(crate::graph::opposite(e, node) != node);
            assert(map[k].1 != node);
            assert(!touches(pre.edges@[w].unwrap(), node));
            assert(slot_live(post.edges@, w) && connects(
                post.edges@[w].unwrap(),
                crate::graph::opposite(e, node),
                map[k].1,
            ));
            assert(has_edge_between(post.edges@, crate::graph::opposite(e, node), map[k].1));
            if pre.multigraph {
                let w1 = choose|w1: int| #[trigger]
                    slot_live(pre.edges@, w1) && connects(
                        pre.edges@[w1].unwrap(),
                        crate::graph::opposite(e, node),
                        map[k].1,
                    ) && pre.edges@[w1].unwrap().weight == e.weight;
                assert(!touches(pre.edges@[w1].unwrap(), node));
                assert(post.edges@[w1] == pre.edges@[w1]);
                assert(slot_live(post.edges@, w1) && connects(
                    post.edges@[w1].unwrap(),
                    crate::graph::opposite(e, node),
                    map[k].1,
                ) && post.edges@[w1].unwrap().weight == e.weight);
            }
        },
        Ok(None) => {},
        Err(_) => {},
    }
}

/// The promise kept for one edge that touched the substituted node: the
/// edge's stored endpoints and payload were offered to the routing
/// function, and whatever handle it answered, if any, now carries an edge
/// from the edge's surviving endpoint to that handle's copy — on a
/// multigraph, one such edge with the old edge's payload.
pub open spec fn reroute_outcome<E, FM: Fn(usize, usize, E) -> Result<Option<usize>, GraphError>>(
    fm: FM,
    map: Seq<(usize, usize)>,
    es: Seq<Option<Edge<E>>>,
    e: Edge<E>,
    node: usize,
    multigraph: bool,
) -> bool {
    exists|rr: Result<Option<usize>, GraphError>|
        {
            &&& #[trigger] call_ensures(fm, (e.src, e.tgt, e.weight), rr)
            &&& match rr {
                Ok(Some(hh)) => exists|k: int|
                    0 <= k < map.len() && (#[trigger] map[k]).0 == hh && has_edge_between(
                        es,
                        crate::graph::opposite(e, node),
                        map[k].1,
                    ) && (multigraph ==> exists|j: int| #[trigger]
                        slot_live(es, j) && connects(
                            es[j].unwrap(),
                            crate::graph::opposite(e, node),
                            map[k].1,
                        ) && es[j].unwrap().weight == e.weight),
                Ok(None) => true,
                Err(_) => false,
            }
        }
}

/// Whether one payload may have come out of an optional transform applied
/// to another: equality when no transform is given, a possible output of
/// the transform otherwise.
pub open spec fn payload_mapped<T, F: Fn(T) -> T>(f: Option<F>, x: T, y: T) -> bool {
    match f {
        Some(g) => call_ensures(g, (x,), y),
        None => y == x,
    }
}

/// Whether the container holds a copy of one edge of a composed-in or
/// substituted-in graph: some edge joins the two image handles, and on a
/// multigraph — where nothing overwrites it later — one such edge carries
/// the transformed payload.
pub open spec fn copied_edge_present<V, E, EF: Fn(E) -> E>(
    g: PyGraph<V, E>,
    ef: Option<EF>,
    a: usize,
    b: usize,
    w: E,
    multigraph: bool,
) -> bool {
    &&& has_edge_between(g.edges@, a, b)
    &&& multigraph ==> exists|j: int| #[trigger]
        slot_live(g.edges@, j) && connects(g.edges@[j].unwrap(), a, b) && payload_mapped(
            ef,
            w,
            g.edges@[j].unwrap().weight,
        )
}

/// Whether one payload may have come out of an optional fallible
/// transform applied to another: equality when no transform is given, a
/// possible successful output of the transform otherwise.
pub open spec fn payload_xformed<T, F: Fn(T) -> Result<T, GraphError>>(
    f: Option<F>,
    x: T,
    y: T,
) -> bool {
    match f {
        Some(g) => call_ensures(g, (x,), Ok::<T, GraphError>(y)),
        None => y == x,
    }
}

/// Whether the container holds a copy of one edge of a substituted-in
/// graph: some edge joins the two image handles, and on a multigraph —
/// where nothing overwrites it later — one such edge carries the
/// transformed payload.
pub open spec fn copied_edge_xformed<V, E, EF: Fn(E) -> Result<E, GraphError>>(
    g: PyGraph<V, E>,
    ef: Option<EF>,
    a: usize,
    b: usize,
    w: E,
    multigraph: bool,
) -> bool {
    &&& has_edge_between(g.edges@, a, b)
    &&& multigraph ==> exists|j: int| #[trigger]
        slot_live(g.edges@, j) && connects(g.edges@[j].unwrap(), a, b) && payload_xformed(
            ef,
            w,
            g.edges@[j].unwrap().weight,
        )
}

/// Whether the container holds an attaching edge for one map entry of a
/// composition: some mapping pair carries the entry's other-container
/// handle, and an edge joins the entry's own node to that pair's copy —
/// on a multigraph, one such edge with exactly the entry's payload.
pub open spec fn attach_edge_added<V, E>(
    g: PyGraph<V, E>,
    r: Seq<(usize, usize)>,
    entry: (usize, (usize, E)),
    multigraph: bool,
) -> bool {
    exists|k2: int|
        0 <= k2 < r.len() && (#[trigger] r[k2]).0 == entry.1.0 && has_edge_between(
            g.edges@,
            entry.0,
            r[k2].1,
        ) && (multigraph ==> exists|j: int| #[trigger]
            slot_live(g.edges@, j) && connects(g.edges@[j].unwrap(), entry.0, r[k2].1)
                && g.edges@[j].unwrap().weight == entry.1.1)
}

impl<V: Copy, E: Copy> PyGraph<V, E> {
    /// Replace a set of nodes by one new node carrying `obj`.  Every edge
    /// incident to a listed node is re-routed to the new node (an edge
    /// between two listed nodes becomes a self-loop); the listed nodes are
    /// then removed.  On a multigraph without a combine function the
    /// re-routed edges stay distinct; otherwise edges that come to share an
    /// endpoint pair are merged, keeping the first payload seen or
    /// combining the two with the given function.  Returns the new node's
    /// handle.
    #[verifier::loop_isolation(false)]
    #[verifier::rlimit(100)]
    #[verifier::spinoff_prover]
    pub fn contract_nodes<F: Fn(E, E) -> Result<E, GraphError>>(
        &mut self,
        nodes: Vec<usize>,
        obj: V,
        weight_combo_fn: Option<F>,
    ) -> (r: Result<usize, GraphError>)
        requires
            old(self).wf(),
            weight_combo_fn is Some ==> forall|a: E, b: E|
                call_requires(weight_combo_fn.unwrap(), (a, b)),
        ensures
            final(self).wf(),
            final(self).multigraph == old(self).multigraph,
            old(self).node_removed ==> final(self).node_removed,
            weight_combo_fn is None ==> r is Ok,
            match r {
                Ok(n) => {
                    &&& n as int == crate::slot::first_free(old(self).nodes@)
                    &&& !slot_live(old(self).nodes@, n as int)
                    &&& slot_live(final(self).nodes@, n as int)
                    &&& final(self).nodes@[n as int] == Some(obj)
                    &&& forall|i: int|
                        #[trigger] slot_live(old(self).nodes@, i) && !nodes@.contains(i as usize)
                            ==> slot_live(final(self).nodes@, i) && final(self).nodes@[i] == old(
                            self,
                        ).nodes@[i]
                    &&& forall|i: usize|
                        i < old(self).nodes@.len() && nodes@.contains(i) && i != n ==> !slot_live(
                            final(self).nodes@,
                            i as int,
                        )
                    &&& forall|i: int|
                        #[trigger] slot_live(final(self).nodes@, i) ==> slot_live(
                            old(self).nodes@,
                            i,
                        ) || i == n as int
                    &&& forall|j: int|
                        #[trigger] slot_live(old(self).edges@, j) && !nodes@.contains(
                            old(self).edges@[j].unwrap().src,
                        ) && !nodes@.contains(old(self).edges@[j].unwrap().tgt)
                            ==> final(self).edges@[j] == old(self).edges@[j]
                    &&& forall|j: int|
                        #[trigger] slot_live(old(self).edges@, j) && (nodes@.contains(
                            old(self).edges@[j].unwrap().src,
                        ) || nodes@.contains(old(self).edges@[j].unwrap().tgt))
                            ==> has_edge_between(
                            final(self).edges@,
                            if nodes@.contains(old(self).edges@[j].unwrap().src) {
                                n
                            } else {
                                old(self).edges@[j].unwrap().src
                            },
                            if nodes@.contains(old(self).edges@[j].unwrap().tgt) {
                                n
                            } else {
                                old(self).edges@[j].unwrap().tgt
                            },
                        )
                    &&& forall|jj: int|
                        #[trigger] slot_live(final(self).edges@, jj) ==> (slot_live(
                            old(self).edges@,
                            jj,
                        ) && final(self).edges@[jj] == old(self).edges@[jj] && !nodes@.contains(
                            old(self).edges@[jj].unwrap().src,
                        ) && !nodes@.contains(old(self).edges@[jj].unwrap().tgt)) || rerouted_from(
                            old(self).edges@,
                            nodes@,
                            n,
                            final(self).edges@[jj].unwrap(),
                            true,
                        ) || (weight_combo_fn is Some && rerouted_from(
                            old(self).edges@,
                            nodes@,
                            n,
                            final(self).edges@[jj].unwrap(),
                            false,
                        ) && exists|wa: E, wb: E| #[trigger]
                            call_ensures(
                                weight_combo_fn.unwrap(),
                                (wa, wb),
                                Ok::<E, GraphError>(final(self).edges@[jj].unwrap().weight),
                            ))
                    &&& (!old(self).multigraph || weight_combo_fn is Some) ==> forall|
                        j1: int,
                        j2: int,
                    |
                        #![trigger final(self).edges@[j1], final(self).edges@[j2]]
                        slot_live(final(self).edges@, j1) && slot_live(final(self).edges@, j2)
                            && j1 != j2 && touches(final(self).edges@[j1].unwrap(), n)
                            ==> !connects(
                            final(self).edges@[j2].unwrap(),
                            final(self).edges@[j1].unwrap().src,
                            final(self).edges@[j1].unwrap().tgt,
                        )
                    &&& old(self).multigraph && weight_combo_fn is None ==> live_count(
                        final(self).edges@,
                    ) == live_count(old(self).edges@)
                    &&& !old(self).multigraph || weight_combo_fn is Some ==> live_count(
                        final(self).edges@,
                    ) <= live_count(old(self).edges@)
                },
                Err(e) => weight_combo_fn is Some && exists|wa: E, wb: E| #[trigger]
                    call_ensures(weight_combo_fn.unwrap(), (wa, wb), Err::<E, GraphError>(e)),
            },
    {
        let ghost g0 = *self;
        let n_new = self.add_node(obj);
        proof {
            crate::slot::lemma_first_free_facts(g0.nodes@);
            assert forall|i: int| #[trigger] slot_live(self.nodes@, i) implies slot_live(
                g0.nodes@,
                i,
            ) || i == n_new as int by {}
        }
        let m = self.edges.arena_len();
        let mut moved: Vec<(usize, usize, E)> = Vec::new();
        let mut j: usize = 0;
        while j < m
            invariant
                j <= m,
                m == g0.edges@.len(),
                g0.wf(),
                self.wf(),
                self.multigraph == g0.multigraph,
                self.node_removed == g0.node_removed,
                self.edges@.len() == g0.edges@.len(),
                self.nodes@ == crate::slot::alloc_result(g0.nodes@, obj),
                n_new as int == crate::slot::first_free(g0.nodes@),
                !slot_live(g0.nodes@, n_new as int),
                slot_live(self.nodes@, n_new as int),
                self.nodes@[n_new as int] == Some(obj),
                forall|x: int|
                    #[trigger] slot_live(g0.nodes@, x) ==> slot_live(self.nodes@, x)
                        && self.nodes@[x] == g0.nodes@[x],
                forall|i2: int|
                    #[trigger] slot_live(self.nodes@, i2) ==> slot_live(g0.nodes@, i2) || i2
                        == n_new as int,
                forall|jj: int| j <= jj < m ==> self.edges@[jj] == g0.edges@[jj],
                forall|jj: int|
                    0 <= jj < j ==> self.edges@[jj] == reroute_slot(g0.edges@, nodes@, jj),
                forall|x: int|
                    0 <= x < moved@.len() ==> ((#[trigger] moved@[x]).0 == n_new || moved@[x].1
                        == n_new) && (moved@[x].0 == n_new || slot_live(
                        self.nodes@,
                        moved@[x].0 as int,
                    ) && !nodes@.contains(moved@[x].0)) && (moved@[x].1 == n_new || slot_live(
                        self.nodes@,
                        moved@[x].1 as int,
                    ) && !nodes@.contains(moved@[x].1)),
                forall|x: int|
                    0 <= x < moved@.len() ==> rerouted_from(
                        g0.edges@,
                        nodes@,
                        n_new,
                        (Edge {
                            src: (#[trigger] moved@[x]).0,
                            tgt: moved@[x].1,
                            weight: moved@[x].2,
                        }),
                        true,
                    ),
                live_count(self.edges@) + moved@.len() == live_count(g0.edges@),
                forall|jj: int|
                    0 <= jj < j && #[trigger] slot_live(g0.edges@, jj) && (nodes@.contains(
                        g0.edges@[jj].unwrap().src,
                    ) || nodes@.contains(g0.edges@[jj].unwrap().tgt)) ==> moved@.contains(
                        (
                            (if nodes@.contains(g0.edges@[jj].unwrap().src) {
                                n_new
                            } else {
                                g0.edges@[jj].unwrap().src
                            }),
                            (if nodes@.contains(g0.edges@[jj].unwrap().tgt) {
                                n_new
                            } else {
                                g0.edges@[jj].unwrap().tgt
                            }),
                            g0.edges@[jj].unwrap().weight,
                        ),
                    ),
            decreases m - j,
        {
            match self.edges.read(j) {
                Some(e) => {
                    let s_sel = list_contains(&nodes, e.src);
                    let t_sel = list_contains(&nodes, e.tgt);
                    if s_sel || t_sel {
                        proof {
                            assert(slot_live(g0.edges@, j as int));
                            assert(slot_live(g0.nodes@, e.src as int));
                            assert(slot_live(g0.nodes@, e.tgt as int));
                        }
                        let ghost pree = self.edges@;
                        self.remove_edge_from_index(j);
                        proof {
                            crate::slot::lemma_live_count_update(pree, j as int, None);
                            assert(self.edges@[j as int] is None);
                            assert forall|jj: int|
                                0 <= jj < j + 1 implies self.edges@[jj] == reroute_slot(
                                g0.edges@,
                                nodes@,
                                jj,
                            ) by {
                                if jj < j {
                                    assert(self.edges@[jj] == pree[jj]);
                                } else {
                                    assert(pree[j as int] == g0.edges@[j as int]);
                                    assert(e == g0.edges@[j as int].unwrap());
                                    assert(nodes@.contains(g0.edges@[j as int].unwrap().src)
                                        || nodes@.contains(g0.edges@[j as int].unwrap().tgt));
                                }
                            }
                        }
                        let a = if s_sel {
                            n_new
                        } else {
                            e.src
                        };
                        let b = if t_sel {
                            n_new
                        } else {
                            e.tgt
                        };
                        let ghost premoved = moved@;
                        moved.push((a, b, e.weight));
                        proof {
                            assert(moved@ == premoved.push((a, b, e.weight)));
                            assert forall|x: int| 0 <= x < moved@.len() implies rerouted_from(
                                g0.edges@,
                                nodes@,
                                n_new,
                                (Edge {
                                    src: (#[trigger] moved@[x]).0,
                                    tgt: moved@[x].1,
                                    weight: moved@[x].2,
                                }),
                                true,
                            ) by {
                                if x < premoved.len() {
                                    assert(moved@[x] == premoved[x]);
                                } else {
                                    assert(moved@[x] == (a, b, e.weight));
                                    assert(slot_live(g0.edges@, j as int));
                                    assert(connects(
                                        (Edge { src: a, tgt: b, weight: e.weight }),
                                        if nodes@.contains(g0.edges@[j as int].unwrap().src) {
                                            n_new
                                        } else {
                                            g0.edges@[j as int].unwrap().src
                                        },
                                        if nodes@.contains(g0.edges@[j as int].unwrap().tgt) {
                                            n_new
                                        } else {
                                            g0.edges@[j as int].unwrap().tgt
                                        },
                                    ));
                                }
                            }
                            assert forall|jj: int|
                                0 <= jj < j + 1 && #[trigger] slot_live(g0.edges@, jj) && (
                                nodes@.contains(g0.edges@[jj].unwrap().src) || nodes@.contains(
                                    g0.edges@[jj].unwrap().tgt,
                                )) implies moved@.contains(
                                (
                                    (if nodes@.contains(g0.edges@[jj].unwrap().src) {
                                        n_new
                                    } else {
                                        g0.edges@[jj].unwrap().src
                                    }),
                                    (if nodes@.contains(g0.edges@[jj].unwrap().tgt) {
                                        n_new
                                    } else {
                                        g0.edges@[jj].unwrap().tgt
                                    }),
                                    g0.edges@[jj].unwrap().weight,
                                ),
                            ) by {
                                let t = (
                                    (if nodes@.contains(g0.edges@[jj].unwrap().src) {
                                        n_new
                                    } else {
                                        g0.edges@[jj].unwrap().src
                                    }),
                                    (if nodes@.contains(g0.edges@[jj].unwrap().tgt) {
                                        n_new
                                    } else {
                                        g0.edges@[jj].unwrap().tgt
                                    }),
                                    g0.edges@[jj].unwrap().weight,
                                );
                                if jj < j {
                                    assert(premoved.contains(t));
                                    let x = choose|x: int|
                                        0 <= x < premoved.len() && (#[trigger] premoved[x]) == t;
                                    assert(moved@[x] == t);
                                } else {
                                    assert(moved@[moved@.len() - 1] == t);
                                }
                            }
                        }
                    }
                    if !(s_sel || t_sel) {
                        proof {
                            assert(self.edges@[j as int] == g0.edges@[j as int]);
                            assert(!nodes@.contains(g0.edges@[j as int].unwrap().src));
                            assert(!nodes@.contains(g0.edges@[j as int].unwrap().tgt));
                        }
                    }
                },
                None => {
                    proof {
                        assert(self.edges@[j as int] == g0.edges@[j as int]);
                        assert(self.edges@[j as int] is None);
                    }
                },
            }
            j = j + 1;
        }
        let merge = weight_combo_fn.is_some() || !self.multigraph;
        proof {
            assert forall|j1: int, j2: int|
                #![trigger self.edges@[j1], self.edges@[j2]]
                slot_live(self.edges@, j1) && slot_live(self.edges@, j2) && j1 != j2 && touches(
                    self.edges@[j1].unwrap(),
                    n_new,
                ) implies !connects(
                self.edges@[j2].unwrap(),
                self.edges@[j1].unwrap().src,
                self.edges@[j1].unwrap().tgt,
            ) by {
                assert(slot_live(g0.edges@, j1));
                assert(self.edges@[j1] == g0.edges@[j1]);
                assert(slot_live(g0.nodes@, g0.edges@[j1].unwrap().src as int));
                assert(slot_live(g0.nodes@, g0.edges@[j1].unwrap().tgt as int));
                assert(g0.edges@[j1].unwrap().src != n_new);
                assert(g0.edges@[j1].unwrap().tgt != n_new);
                assert(false);
            }
        }
        let p = moved.len();
        let mut x: usize = 0;
        while x < p
            invariant
                x <= p,
                p == moved@.len(),
                g0.wf(),
                self.wf(),
                merge == (weight_combo_fn is Some || !self.multigraph),
                weight_combo_fn is Some ==> forall|a: E, b: E|
                    call_requires(weight_combo_fn.unwrap(), (a, b)),
                self.multigraph == g0.multigraph,
                self.node_removed == g0.node_removed,
                g0.edges@.len() <= self.edges@.len(),
                self.nodes@ == crate::slot::alloc_result(g0.nodes@, obj),
                n_new as int == crate::slot::first_free(g0.nodes@),
                !slot_live(g0.nodes@, n_new as int),
                slot_live(self.nodes@, n_new as int),
                self.nodes@[n_new as int] == Some(obj),
                forall|xx: int|
                    #[trigger] slot_live(g0.nodes@, xx) ==> slot_live(self.nodes@, xx)
                        && self.nodes@[xx] == g0.nodes@[xx],
                forall|i2: int|
                    #[trigger] slot_live(self.nodes@, i2) ==> slot_live(g0.nodes@, i2) || i2
                        == n_new as int,
                forall|y: int|
                    0 <= y < moved@.len() ==> ((#[trigger] moved@[y]).0 == n_new || moved@[y].1
                        == n_new) && (moved@[y].0 == n_new || slot_live(
                        self.nodes@,
                        moved@[y].0 as int,
                    ) && !nodes@.contains(moved@[y].0)) && (moved@[y].1 == n_new || slot_live(
                        self.nodes@,
                        moved@[y].1 as int,
                    ) && !nodes@.contains(moved@[y].1)),
                forall|jj: int|
                    #[trigger] slot_live(g0.edges@, jj) && !nodes@.contains(
                        g0.edges@[jj].unwrap().src,
                    ) && !nodes@.contains(g0.edges@[jj].unwrap().tgt) ==> self.edges@[jj]
                        == g0.edges@[jj],
                forall|y: int|
                    0 <= y < x ==> has_edge_between(
                        self.edges@,
                        (#[trigger] moved@[y]).0,
                        moved@[y].1,
                    ),
                forall|y: int|
                    0 <= y < moved@.len() ==> rerouted_from(
                        g0.edges@,
                        nodes@,
                        n_new,
                        (Edge {
                            src: (#[trigger] moved@[y]).0,
                            tgt: moved@[y].1,
                            weight: moved@[y].2,
                        }),
                        true,
                    ),
                forall|jj: int|
                    #[trigger] slot_live(self.edges@, jj) ==> (slot_live(g0.edges@, jj)
                        && self.edges@[jj] == g0.edges@[jj] && !nodes@.contains(
                        g0.edges@[jj].unwrap().src,
                    ) && !nodes@.contains(g0.edges@[jj].unwrap().tgt)) || rerouted_from(
                        g0.edges@,
                        nodes@,
                        n_new,
                        self.edges@[jj].unwrap(),
                        true,
                    ) || (weight_combo_fn is Some && rerouted_from(
                        g0.edges@,
                        nodes@,
                        n_new,
                        self.edges@[jj].unwrap(),
                        false,
                    ) && exists|wa: E, wb: E| #[trigger]
                        call_ensures(
                            weight_combo_fn.unwrap(),
                            (wa, wb),
                            Ok::<E, GraphError>(self.edges@[jj].unwrap().weight),
                        )),
                merge ==> forall|j1: int, j2: int|
                    #![trigger self.edges@[j1], self.edges@[j2]]
                    slot_live(self.edges@, j1) && slot_live(self.edges@, j2) && j1 != j2
                        && touches(self.edges@[j1].unwrap(), n_new) ==> !connects(
                        self.edges@[j2].unwrap(),
                        self.edges@[j1].unwrap().src,
                        self.edges@[j1].unwrap().tgt,
                    ),
                merge ==> live_count(self.edges@) + moved@.len() <= live_count(g0.edges@) + x,
                !merge ==> live_count(self.edges@) + moved@.len() == live_count(g0.edges@) + x,
            decreases p - x,
        {
            let (a, b, w) = moved[x];
            let ghost pre = *self;
            proof {
                crate::slot::lemma_first_free_facts(pre.edges@);
            }
            let mut merged = false;
            if merge {
                match self.find_edge(a, b) {
                    Some(k) => {
                        let e = self.edges.read(k).unwrap();
                        let neww = match &weight_combo_fn {
                            Some(f) => match f(e.weight, w) {
                                Ok(cw) => cw,
                                Err(ce) => {
                                    proof {
                                        assert(call_ensures(
                                            weight_combo_fn.unwrap(),
                                            (e.weight, w),
                                            Err::<E, GraphError>(ce),
                                        ));
                                    }
                                    return Err(ce);
                                },
                            },
                            None => e.weight,
                        };
                        let _ = self.update_edge_by_index(k, neww);
                        merged = true;
                        proof {
                            crate::slot::lemma_live_count_update(
                                pre.edges@,
                                k as int,
                                Some(
                                    (Edge {
                                        src: pre.edges@[k as int].unwrap().src,
                                        tgt: pre.edges@[k as int].unwrap().tgt,
                                        weight: neww,
                                    }),
                                ),
                            );
                            assert forall|jj: int| #[trigger]
                                slot_live(self.edges@, jj) implies (slot_live(g0.edges@, jj)
                                && self.edges@[jj] == g0.edges@[jj] && !nodes@.contains(
                                g0.edges@[jj].unwrap().src,
                            ) && !nodes@.contains(g0.edges@[jj].unwrap().tgt)) || rerouted_from(
                                g0.edges@,
                                nodes@,
                                n_new,
                                self.edges@[jj].unwrap(),
                                true,
                            ) || (weight_combo_fn is Some && rerouted_from(
                                g0.edges@,
                                nodes@,
                                n_new,
                                self.edges@[jj].unwrap(),
                                false,
                            ) && exists|wa: E, wb: E| #[trigger]
                                call_ensures(
                                    weight_combo_fn.unwrap(),
                                    (wa, wb),
                                    Ok::<E, GraphError>(self.edges@[jj].unwrap().weight),
                                )) by {
                                assert(slot_live(pre.edges@, jj));
                                if jj != k as int {
                                    assert(self.edges@[jj] == pre.edges@[jj]);
                                } else {
                                    assert(connects(pre.edges@[k as int].unwrap(), a, b));
                                    assert(moved@[x as int] == (a, b, w));
                                    assert(a == n_new || b == n_new);
                                    assert(!(slot_live(g0.edges@, jj) && pre.edges@[jj]
                                        == g0.edges@[jj] && !nodes@.contains(
                                        g0.edges@[jj].unwrap().src,
                                    ) && !nodes@.contains(g0.edges@[jj].unwrap().tgt))) by {
                                        if slot_live(g0.edges@, jj) && pre.edges@[jj]
                                            == g0.edges@[jj] && !nodes@.contains(
                                            g0.edges@[jj].unwrap().src,
                                        ) && !nodes@.contains(g0.edges@[jj].unwrap().tgt) {
                                            assert(slot_live(
                                                g0.nodes@,
                                                g0.edges@[jj].unwrap().src as int,
                                            ));
                                            assert(slot_live(
                                                g0.nodes@,
                                                g0.edges@[jj].unwrap().tgt as int,
                                            ));
                                            assert(g0.edges@[jj].unwrap().src != n_new);
                                            assert(g0.edges@[jj].unwrap().tgt != n_new);
                                            assert(false);
                                        }
                                    }
                                    let j0 = choose|j0: int| #[trigger]
                                        slot_live(g0.edges@, j0) && (nodes@.contains(
                                            g0.edges@[j0].unwrap().src,
                                        ) || nodes@.contains(g0.edges@[j0].unwrap().tgt))
                                            && connects(
                                            pre.edges@[jj].unwrap(),
                                            if nodes@.contains(g0.edges@[j0].unwrap().src) {
                                                n_new
                                            } else {
                                                g0.edges@[j0].unwrap().src
                                            },
                                            if nodes@.contains(g0.edges@[j0].unwrap().tgt) {
                                                n_new
                                            } else {
                                                g0.edges@[j0].unwrap().tgt
                                            },
                                        );
                                    assert(self.edges@[jj].unwrap().src
                                        == pre.edges@[jj].unwrap().src);
                                    assert(self.edges@[jj].unwrap().tgt
                                        == pre.edges@[jj].unwrap().tgt);
                                    assert(rerouted_from(
                                        g0.edges@,
                                        nodes@,
                                        n_new,
                                        self.edges@[jj].unwrap(),
                                        false,
                                    ));
                                    match &weight_combo_fn {
                                        Some(f) => {
                                            assert(call_ensures(
                                                weight_combo_fn.unwrap(),
                                                (e.weight, w),
                                                Ok::<E, GraphError>(neww),
                                            ));
                                            assert(self.edges@[jj].unwrap().weight == neww);
                                        },
                                        None => {
                                            assert(neww == pre.edges@[jj].unwrap().weight);
                                            assert(rerouted_from(
                                                g0.edges@,
                                                nodes@,
                                                n_new,
                                                pre.edges@[jj].unwrap(),
                                                true,
                                            ));
                                            let j1 = choose|j1: int| #[trigger]
                                                slot_live(g0.edges@, j1) && (nodes@.contains(
                                                    g0.edges@[j1].unwrap().src,
                                                ) || nodes@.contains(g0.edges@[j1].unwrap().tgt))
                                                    && connects(
                                                    pre.edges@[jj].unwrap(),
                                                    if nodes@.contains(
                                                        g0.edges@[j1].unwrap().src,
                                                    ) {
                                                        n_new
                                                    } else {
                                                        g0.edges@[j1].unwrap().src
                                                    },
                                                    if nodes@.contains(
                                                        g0.edges@[j1].unwrap().tgt,
                                                    ) {
                                                        n_new
                                                    } else {
                                                        g0.edges@[j1].unwrap().tgt
                                                    },
                                                ) && pre.edges@[jj].unwrap().weight
                                                    == g0.edges@[j1].unwrap().weight;
                                            assert(rerouted_from(
                                                g0.edges@,
                                                nodes@,
                                                n_new,
                                                self.edges@[jj].unwrap(),
                                                true,
                                            ));
                                        },
                                    }
                                }
                            }
                            if merge {
                                assert forall|j1: int, j2: int|
                                    #![trigger self.edges@[j1], self.edges@[j2]]
                                    slot_live(self.edges@, j1) && slot_live(self.edges@, j2) && j1
                                        != j2 && touches(
                                        self.edges@[j1].unwrap(),
                                        n_new,
                                    ) implies !connects(
                                    self.edges@[j2].unwrap(),
                                    self.edges@[j1].unwrap().src,
                                    self.edges@[j1].unwrap().tgt,
                                ) by {
                                    assert(slot_live(pre.edges@, j1));
                                    assert(slot_live(pre.edges@, j2));
                                    assert(self.edges@[j1].unwrap().src
                                        == pre.edges@[j1].unwrap().src);
                                    assert(self.edges@[j1].unwrap().tgt
                                        == pre.edges@[j1].unwrap().tgt);
                                    assert(self.edges@[j2].unwrap().src
                                        == pre.edges@[j2].unwrap().src);
                                    assert(self.edges@[j2].unwrap().tgt
                                        == pre.edges@[j2].unwrap().tgt);
                                    assert(touches(pre.edges@[j1].unwrap(), n_new));
                                    assert(!connects(
                                        pre.edges@[j2].unwrap(),
                                        pre.edges@[j1].unwrap().src,
                                        pre.edges@[j1].unwrap().tgt,
                                    ));
                                }
                            }
                            assert(slot_live(self.edges@, k as int) && connects(
                                self.edges@[k as int].unwrap(),
                                a,
                                b,
                            ));
                            assert forall|jj: int|
                                #[trigger] slot_live(g0.edges@, jj) && !nodes@.contains(
                                    g0.edges@[jj].unwrap().src,
                                ) && !nodes@.contains(
                                    g0.edges@[jj].unwrap().tgt,
                                ) implies self.edges@[jj] == g0.edges@[jj] by {
                                assert(pre.edges@[jj] == g0.edges@[jj]);
                                if jj == k as int {
                                    assert(slot_live(g0.nodes@, g0.edges@[jj].unwrap().src as int));
                                    assert(slot_live(g0.nodes@, g0.edges@[jj].unwrap().tgt as int));
                                    assert(g0.edges@[jj].unwrap().src != n_new);
                                    assert(g0.edges@[jj].unwrap().tgt != n_new);
                                    assert(connects(pre.edges@[k as int].unwrap(), a, b));
                                    assert(moved@[x as int] == (a, b, w));
                                    assert(a == n_new || b == n_new);
                                    assert(false);
                                }
                            }
                        }
                    },
                    None => {},
                }
            }
            if !merged {
                let h = self.insert_or_update_edge(a, b, w);
                proof {
                    assert(h as int == crate::slot::first_free(pre.edges@));
                    assert(slot_live(self.edges@, h as int) && connects(
                        self.edges@[h as int].unwrap(),
                        a,
                        b,
                    ));
                    assert(live_count(self.edges@) == live_count(pre.edges@) + 1);
                    assert forall|jj: int| #[trigger] slot_live(self.edges@, jj) implies (
                    slot_live(g0.edges@, jj) && self.edges@[jj] == g0.edges@[jj]
                        && !nodes@.contains(g0.edges@[jj].unwrap().src) && !nodes@.contains(
                        g0.edges@[jj].unwrap().tgt,
                    )) || rerouted_from(
                        g0.edges@,
                        nodes@,
                        n_new,
                        self.edges@[jj].unwrap(),
                        true,
                    ) || (weight_combo_fn is Some && rerouted_from(
                        g0.edges@,
                        nodes@,
                        n_new,
                        self.edges@[jj].unwrap(),
                        false,
                    ) && exists|wa: E, wb: E| #[trigger]
                        call_ensures(
                            weight_combo_fn.unwrap(),
                            (wa, wb),
                            Ok::<E, GraphError>(self.edges@[jj].unwrap().weight),
                        )) by {
                        if jj != h as int {
                            assert(slot_live(pre.edges@, jj));
                            assert(self.edges@[jj] == pre.edges@[jj]);
                        } else {
                            assert(self.edges@[jj] == Some((Edge { src: a, tgt: b, weight: w })));
                            assert(moved@[x as int] == (a, b, w));
                            assert(rerouted_from(
                                g0.edges@,
                                nodes@,
                                n_new,
                                (Edge { src: a, tgt: b, weight: w }),
                                true,
                            ));
                        }
                    }
                    if merge {
                        assert forall|j1: int, j2: int|
                            #![trigger self.edges@[j1], self.edges@[j2]]
                            slot_live(self.edges@, j1) && slot_live(self.edges@, j2) && j1 != j2
                                && touches(self.edges@[j1].unwrap(), n_new) implies !connects(
                            self.edges@[j2].unwrap(),
                            self.edges@[j1].unwrap().src,
                            self.edges@[j1].unwrap().tgt,
                        ) by {
                            if j1 != h as int && j2 != h as int {
                                assert(slot_live(pre.edges@, j1));
                                assert(slot_live(pre.edges@, j2));
                                assert(self.edges@[j1] == pre.edges@[j1]);
                                assert(self.edges@[j2] == pre.edges@[j2]);
                            } else if j1 == h as int && j2 != h as int {
                                assert(slot_live(pre.edges@, j2));
                                assert(self.edges@[j2] == pre.edges@[j2]);
                                assert(!crate::graph::has_edge_between(pre.edges@, a, b));
                                assert(!connects(pre.edges@[j2].unwrap(), a, b));
                            } else if j1 != h as int && j2 == h as int {
                                assert(slot_live(pre.edges@, j1));
                                assert(self.edges@[j1] == pre.edges@[j1]);
                                assert(!crate::graph::has_edge_between(pre.edges@, a, b));
                                assert(!connects(pre.edges@[j1].unwrap(), a, b));
                                assert(touches(pre.edges@[j1].unwrap(), n_new));
                                if connects(
                                    self.edges@[j2].unwrap(),
                                    self.edges@[j1].unwrap().src,
                                    self.edges@[j1].unwrap().tgt,
                                ) {
                                    assert(connects(pre.edges@[j1].unwrap(), a, b));
                                    assert(false);
                                }
                            }
                        }
                    }
                    assert forall|jj: int|
                        #[trigger] slot_live(g0.edges@, jj) && !nodes@.contains(
                            g0.edges@[jj].unwrap().src,
                        ) && !nodes@.contains(g0.edges@[jj].unwrap().tgt) implies self.edges@[jj]
                        == g0.edges@[jj] by {
                        assert(pre.edges@[jj] == g0.edges@[jj]);
                        if jj == h as int {
                            assert(slot_live(pre.edges@, jj));
                            assert(pre.edges@[h as int] is None);
                            assert(false);
                        }
                    }
                }
            }
            proof {
                assert forall|y: int| 0 <= y < x + 1 implies has_edge_between(
                    self.edges@,
                    (#[trigger] moved@[y]).0,
                    moved@[y].1,
                ) by {
                    if y < x {
                        let ww = choose|ww: int| #[trigger]
                            slot_live(pre.edges@, ww) && connects(
                                pre.edges@[ww].unwrap(),
                                moved@[y].0,
                                moved@[y].1,
                            );
                        assert(slot_live(self.edges@, ww) && connects(
                            self.edges@[ww].unwrap(),
                            moved@[y].0,
                            moved@[y].1,
                        ));
                    } else {
                        assert(has_edge_between(self.edges@, a, b));
                    }
                }
            }
            x = x + 1;
        }
        let ghost rerouted = *self;
        let q = nodes.len();
        let mut y: usize = 0;
        while y < q
            invariant
                y <= q,
                q == nodes@.len(),
                g0.wf(),
                rerouted.wf(),
                self.wf(),
                self.multigraph == rerouted.multigraph,
                rerouted.node_removed == g0.node_removed,
                rerouted.multigraph == g0.multigraph,
                !slot_live(g0.nodes@, n_new as int),
                n_new as int == crate::slot::first_free(g0.nodes@),
                rerouted.nodes@ == crate::slot::alloc_result(g0.nodes@, obj),
                g0.edges@.len() <= rerouted.edges@.len(),
                self.edges@.len() == rerouted.edges@.len(),
                self.nodes@.len() == rerouted.nodes@.len(),
                slot_live(self.nodes@, n_new as int),
                self.nodes@[n_new as int] == Some(obj),
                rerouted.node_removed ==> self.node_removed,
                forall|i: int|
                    #[trigger] slot_live(g0.nodes@, i) && !nodes@.contains(i as usize)
                        ==> slot_live(self.nodes@, i) && self.nodes@[i] == g0.nodes@[i],
                forall|i2: int|
                    #[trigger] slot_live(self.nodes@, i2) ==> slot_live(g0.nodes@, i2) || i2
                        == n_new as int,
                forall|w: int|
                    0 <= w < y && (#[trigger] nodes@[w]) != n_new ==> !slot_live(
                        self.nodes@,
                        nodes@[w] as int,
                    ),
                forall|jj: int|
                    #[trigger] slot_live(g0.edges@, jj) && !nodes@.contains(
                        g0.edges@[jj].unwrap().src,
                    ) && !nodes@.contains(g0.edges@[jj].unwrap().tgt) ==> self.edges@[jj]
                        == rerouted.edges@[jj] && rerouted.edges@[jj] == g0.edges@[jj],
                forall|yy: int|
                    0 <= yy < moved@.len() ==> has_edge_between(
                        self.edges@,
                        (#[trigger] moved@[yy]).0,
                        moved@[yy].1,
                    ),
                forall|yy: int|
                    0 <= yy < moved@.len() ==> ((#[trigger] moved@[yy]).0 == n_new || slot_live(
                        self.nodes@,
                        moved@[yy].0 as int,
                    ) && !nodes@.contains(moved@[yy].0)) && (moved@[yy].1 == n_new || slot_live(
                        self.nodes@,
                        moved@[yy].1 as int,
                    ) && !nodes@.contains(moved@[yy].1)),
                self.edges@ == rerouted.edges@,
                forall|jj: int|
                    #[trigger] slot_live(self.edges@, jj) ==> (slot_live(g0.edges@, jj)
                        && self.edges@[jj] == g0.edges@[jj] && !nodes@.contains(
                        g0.edges@[jj].unwrap().src,
                    ) && !nodes@.contains(g0.edges@[jj].unwrap().tgt)) || rerouted_from(
                        g0.edges@,
                        nodes@,
                        n_new,
                        self.edges@[jj].unwrap(),
                        true,
                    ) || (weight_combo_fn is Some && rerouted_from(
                        g0.edges@,
                        nodes@,
                        n_new,
                        self.edges@[jj].unwrap(),
                        false,
                    ) && exists|wa: E, wb: E| #[trigger]
                        call_ensures(
                            weight_combo_fn.unwrap(),
                            (wa, wb),
                            Ok::<E, GraphError>(self.edges@[jj].unwrap().weight),
                        )),
                merge ==> forall|j1: int, j2: int|
                    #![trigger self.edges@[j1], self.edges@[j2]]
                    slot_live(self.edges@, j1) && slot_live(self.edges@, j2) && j1 != j2
                        && touches(self.edges@[j1].unwrap(), n_new) ==> !connects(
                        self.edges@[j2].unwrap(),
                        self.edges@[j1].unwrap().src,
                        self.edges@[j1].unwrap().tgt,
                    ),
            decreases q - y,
        {
            let nd = nodes[y];
            let ghost pre = *self;
            if nd != n_new && self.nodes.is_live(nd) {
                self.remove_node(nd);
                proof {
                    assert(nodes@.contains(nd));
                    assert forall|i2: int| #[trigger] slot_live(self.nodes@, i2) implies slot_live(
                        g0.nodes@,
                        i2,
                    ) || i2 == n_new as int by {
                        assert(slot_live(pre.nodes@, i2));
                    }
                    assert forall|jj: int|
                        0 <= jj < pre.edges@.len() implies self.edges@[jj] == pre.edges@[jj] by {
                        if slot_live(pre.edges@, jj) && touches(pre.edges@[jj].unwrap(), nd) {
                            if slot_live(g0.edges@, jj) && pre.edges@[jj] == g0.edges@[jj]
                                && !nodes@.contains(g0.edges@[jj].unwrap().src)
                                && !nodes@.contains(g0.edges@[jj].unwrap().tgt) {
                                assert(false);
                            } else {
                                let j0 = choose|j0: int| #[trigger]
                                    slot_live(g0.edges@, j0) && (nodes@.contains(
                                        g0.edges@[j0].unwrap().src,
                                    ) || nodes@.contains(g0.edges@[j0].unwrap().tgt)) && connects(
                                        pre.edges@[jj].unwrap(),
                                        if nodes@.contains(g0.edges@[j0].unwrap().src) {
                                            n_new
                                        } else {
                                            g0.edges@[j0].unwrap().src
                                        },
                                        if nodes@.contains(g0.edges@[j0].unwrap().tgt) {
                                            n_new
                                        } else {
                                            g0.edges@[j0].unwrap().tgt
                                        },
                                    );
                                assert(g0.wf());
                                assert(slot_live(g0.nodes@, g0.edges@[j0].unwrap().src as int));
                                assert(slot_live(g0.nodes@, g0.edges@[j0].unwrap().tgt as int));
                                assert(false);
                            }
                        }
                    }
                    assert(self.edges@ =~= pre.edges@);
                    assert forall|yy: int| 0 <= yy < moved@.len() implies has_edge_between(
                        self.edges@,
                        (#[trigger] moved@[yy]).0,
                        moved@[yy].1,
                    ) by {
                        let ww = choose|ww: int| #[trigger]
                            slot_live(pre.edges@, ww) && connects(
                                pre.edges@[ww].unwrap(),
                                moved@[yy].0,
                                moved@[yy].1,
                            );
                        assert(moved@[yy].0 != nd && moved@[yy].1 != nd);
                        assert(!touches(pre.edges@[ww].unwrap(), nd));
                        assert(slot_live(self.edges@, ww) && connects(
                            self.edges@[ww].unwrap(),
                            moved@[yy].0,
                            moved@[yy].1,
                        ));
                    }
                    assert forall|jj: int|
                        #[trigger] slot_live(g0.edges@, jj) && !nodes@.contains(
                            g0.edges@[jj].unwrap().src,
                        ) && !nodes@.contains(g0.edges@[jj].unwrap().tgt) implies self.edges@[jj]
                        == rerouted.edges@[jj] && rerouted.edges@[jj] == g0.edges@[jj] by {
                        assert(pre.edges@[jj] == g0.edges@[jj]);
                        assert(slot_live(pre.edges@, jj));
                        assert(!touches(pre.edges@[jj].unwrap(), nd));
                    }
                }
            }
            y = y + 1;
        }
        proof {
            assert(live_count(self.edges@) == live_count(rerouted.edges@));
            assert forall|j2: int|
                #[trigger] slot_live(g0.edges@, j2) && (nodes@.contains(
                    g0.edges@[j2].unwrap().src,
                ) || nodes@.contains(g0.edges@[j2].unwrap().tgt)) implies has_edge_between(
                self.edges@,
                if nodes@.contains(g0.edges@[j2].unwrap().src) {
                    n_new
                } else {
                    g0.edges@[j2].unwrap().src
                },
                if nodes@.contains(g0.edges@[j2].unwrap().tgt) {
                    n_new
                } else {
                    g0.edges@[j2].unwrap().tgt
                },
            ) by {
                let t = (
                    (if nodes@.contains(g0.edges@[j2].unwrap().src) {
                        n_new
                    } else {
                        g0.edges@[j2].unwrap().src
                    }),
                    (if nodes@.contains(g0.edges@[j2].unwrap().tgt) {
                        n_new
                    } else {
                        g0.edges@[j2].unwrap().tgt
                    }),
                    g0.edges@[j2].unwrap().weight,
                );
                assert(moved@.contains(t));
                let yy = choose|yy: int| 0 <= yy < moved@.len() && (#[trigger] moved@[yy]) == t;
                assert(has_edge_between(self.edges@, moved@[yy].0, moved@[yy].1));
            }
            assert forall|i: usize|
                i < old(self).nodes@.len() && nodes@.contains(i) && i != n_new implies !slot_live(
                self.nodes@,
                i as int,
            ) by {
                let w = choose|w: int| 0 <= w < nodes@.len() && (#[trigger] nodes@[w]) == i;
                if slot_live(self.nodes@, i as int) {
                    assert(nodes@[w] != n_new);
                    assert(!slot_live(self.nodes@, nodes@[w] as int));
                }
            }
        }
        Ok(n_new)
    }

    /// Replace one node by a whole subgraph.  Every live node of `other`
    /// whose payload the filter accepts is copied in (payloads shared),
    /// then every edge of `other` between two copied nodes, its payload
    /// transformed by `edge_weight_map` when one is given.  Every edge
    /// incident to `node` is offered to `edge_map_fn` with its stored
    /// `(source, target, payload)`; a returned handle re-points the edge
    /// at that handle's copy with the same payload (a self-loop's
    /// replacement still hangs on `node` and so goes down with it),
    /// `None` drops the edge, and a handle with no copy aborts with
    /// `NotFound`.  A failing callback aborts with its own error.  Either
    /// abort leaves the container partially rebuilt, without rollback.
    /// Finally `node` is removed.  Returns the map from each copied
    /// handle of `other` to its copy here.
    #[verifier::rlimit(100)]
    pub fn substitute_node_with_subgraph<
        FM: Fn(usize, usize, E) -> Result<Option<usize>, GraphError>,
        NF: Fn(V) -> Result<bool, GraphError>,
        WM: Fn(E) -> Result<E, GraphError>,
    >(
        &mut self,
        node: usize,
        other: &PyGraph<V, E>,
        edge_map_fn: FM,
        node_filter: Option<NF>,
        edge_weight_map: Option<WM>,
    ) -> (r: Result<Vec<(usize, usize)>, GraphError>)
        requires
            old(self).wf(),
            other.wf(),
            forall|a: usize, b: usize, w: E| call_requires(edge_map_fn, (a, b, w)),
            node_filter is Some ==> forall|v: V| call_requires(node_filter.unwrap(), (v,)),
            edge_weight_map is Some ==> forall|w: E|
                call_requires(edge_weight_map.unwrap(), (w,)),
        ensures
            final(self).wf(),
            final(self).multigraph == old(self).multigraph,
            !slot_live(old(self).nodes@, node as int) ==> r == Err::<
                Vec<(usize, usize)>,
                GraphError,
            >(GraphError::NotFound) && *final(self) == *old(self),
            match r {
                Ok(map) => {
                    &&& slot_live(old(self).nodes@, node as int)
                    &&& !slot_live(final(self).nodes@, node as int)
                    &&& forall|i: int|
                        #[trigger] slot_live(old(self).nodes@, i) && i != node as int
                            ==> slot_live(final(self).nodes@, i) && final(self).nodes@[i]
                            == old(self).nodes@[i]
                    &&& forall|i: int|
                        #[trigger] slot_live(final(self).nodes@, i) ==> (slot_live(
                            old(self).nodes@,
                            i,
                        ) && i != node as int) || is_image(map@, i)
                    &&& live_count(final(self).nodes@) + 1 == live_count(old(self).nodes@)
                        + map@.len()
                    &&& forall|k: int|
                        0 <= k < map@.len() ==> slot_live(
                            other.nodes@,
                            (#[trigger] map@[k]).0 as int,
                        ) && slot_live(final(self).nodes@, map@[k].1 as int)
                            && final(self).nodes@[map@[k].1 as int]
                            == other.nodes@[map@[k].0 as int] && !slot_live(
                            old(self).nodes@,
                            map@[k].1 as int,
                        ) && (node_filter is Some ==> call_ensures(
                            node_filter.unwrap(),
                            (other.nodes@[map@[k].0 as int].unwrap(),),
                            Ok::<bool, GraphError>(true),
                        ))
                    &&& forall|k1: int, k2: int|
                        0 <= k1 < k2 < map@.len() ==> map@[k1].0 < map@[k2].0 && map@[k1].1
                            != map@[k2].1
                    &&& forall|o: int|
                        0 <= o < other.nodes@.len() && #[trigger] slot_live(other.nodes@, o)
                            ==> has_image(map@, o as usize) || (node_filter is Some
                            && call_ensures(
                            node_filter.unwrap(),
                            (other.nodes@[o].unwrap(),),
                            Ok::<bool, GraphError>(false),
                        ))
                    &&& forall|jj: int|
                        #[trigger] slot_live(other.edges@, jj) && has_image(
                            map@,
                            other.edges@[jj].unwrap().src,
                        ) && has_image(map@, other.edges@[jj].unwrap().tgt) ==> exists|
                            k1: int,
                            k2: int,
                        |
                            0 <= k1 < map@.len() && 0 <= k2 < map@.len() && (#[trigger] map@[k1]).0
                                == other.edges@[jj].unwrap().src && (#[trigger] map@[k2]).0
                                == other.edges@[jj].unwrap().tgt && copied_edge_xformed(
                                *final(self),
                                edge_weight_map,
                                map@[k1].1,
                                map@[k2].1,
                                other.edges@[jj].unwrap().weight,
                                old(self).multigraph,
                            )
                    &&& forall|j: int|
                        #[trigger] slot_live(old(self).edges@, j) && !touches(
                            old(self).edges@[j].unwrap(),
                            node,
                        ) ==> final(self).edges@[j] == old(self).edges@[j]
                    &&& forall|jj: int|
                        #[trigger] slot_live(final(self).edges@, jj) ==> (slot_live(
                            old(self).edges@,
                            jj,
                        ) && final(self).edges@[jj] == old(self).edges@[jj]) || is_image(
                            map@,
                            final(self).edges@[jj].unwrap().src as int,
                        ) || is_image(map@, final(self).edges@[jj].unwrap().tgt as int)
                    &&& map@.len() > 0 ==> forall|j: int|
                        #[trigger] slot_live(old(self).edges@, j) && touches(
                            old(self).edges@[j].unwrap(),
                            node,
                        ) && !(old(self).edges@[j].unwrap().src == node
                            && old(self).edges@[j].unwrap().tgt == node) ==> reroute_outcome(
                            edge_map_fn,
                            map@,
                            final(self).edges@,
                            old(self).edges@[j].unwrap(),
                            node,
                            old(self).multigraph,
                        )
                    &&& map@.len() == 0 ==> {
                        &&& final(self).nodes@ =~= old(self).nodes@.update(node as int, None)
                        &&& final(self).edges@.len() == old(self).edges@.len()
                        &&& forall|j: int|
                            0 <= j < old(self).edges@.len() ==> final(self).edges@[j] == (
                            if slot_live(old(self).edges@, j) && touches(
                                old(self).edges@[j].unwrap(),
                                node,
                            ) {
                                None
                            } else {
                                old(self).edges@[j]
                            })
                    }
                },
                Err(e) => slot_live(old(self).nodes@, node as int) ==> {
                    ||| e == GraphError::NotFound && exists|j: int, hh: usize|
                        slot_live(old(self).edges@, j) && touches(
                            old(self).edges@[j].unwrap(),
                            node,
                        ) && #[trigger] call_ensures(
                            edge_map_fn,
                            (
                                old(self).edges@[j].unwrap().src,
                                old(self).edges@[j].unwrap().tgt,
                                old(self).edges@[j].unwrap().weight,
                            ),
                            Ok::<Option<usize>, GraphError>(Some(hh)),
                        ) && (!slot_live(other.nodes@, hh as int) || (node_filter is Some
                            && call_ensures(
                            node_filter.unwrap(),
                            (other.nodes@[hh as int].unwrap(),),
                            Ok::<bool, GraphError>(false),
                        )))
                    ||| node_filter is Some && exists|o: int|
                        #[trigger] slot_live(other.nodes@, o) && call_ensures(
                            node_filter.unwrap(),
                            (other.nodes@[o].unwrap(),),
                            Err::<bool, GraphError>(e),
                        )
                    ||| edge_weight_map is Some && exists|jj: int|
                        #[trigger] slot_live(other.edges@, jj) && call_ensures(
                            edge_weight_map.unwrap(),
                            (other.edges@[jj].unwrap().weight,),
                            Err::<E, GraphError>(e),
                        )
                    ||| exists|j: int|
                        #[trigger] slot_live(old(self).edges@, j) && touches(
                            old(self).edges@[j].unwrap(),
                            node,
                        ) && call_ensures(
                            edge_map_fn,
                            (
                                old(self).edges@[j].unwrap().src,
                                old(self).edges@[j].unwrap().tgt,
                                old(self).edges@[j].unwrap().weight,
                            ),
                            Err::<Option<usize>, GraphError>(e),
                        )
                },
            },
    {
        if !self.nodes.is_live(node) {
            return Err(GraphError::NotFound);
        }
        let n = other.nodes.arena_len();
        let mut map: Vec<(usize, usize)> = Vec::new();
        let mut imgv: Vec<Option<usize>> = Vec::new();
        let mut i: usize = 0;
        while i < n
            invariant
                i <= n,
                n == other.nodes@.len(),
                self.wf(),
                node_filter is Some ==> forall|v: V| call_requires(node_filter.unwrap(), (v,)),
                self.multigraph == old(self).multigraph,
                self.edges@ == old(self).edges@,
                slot_live(old(self).nodes@, node as int),
                map@.len() == 0 ==> self.nodes@ == old(self).nodes@,
                forall|x: int|
                    #[trigger] slot_live(old(self).nodes@, x) ==> slot_live(self.nodes@, x)
                        && self.nodes@[x] == old(self).nodes@[x],
                forall|i2: int|
                    #[trigger] slot_live(self.nodes@, i2) <==> slot_live(old(self).nodes@, i2)
                        || is_image(map@, i2),
                live_count(self.nodes@) == live_count(old(self).nodes@) + map@.len(),
                imgv@.len() == i,
                forall|k: int|
                    0 <= k < map@.len() ==> slot_live(other.nodes@, (#[trigger] map@[k]).0 as int)
                        && slot_live(self.nodes@, map@[k].1 as int) && self.nodes@[map@[k].1 as int]
                        == other.nodes@[map@[k].0 as int] && !slot_live(
                        old(self).nodes@,
                        map@[k].1 as int,
                    ) && map@[k].0 < i && map@[k].1 != node && imgv@[map@[k].0 as int] == Some(
                        map@[k].1,
                    ) && (node_filter is Some ==> call_ensures(
                        node_filter.unwrap(),
                        (other.nodes@[map@[k].0 as int].unwrap(),),
                        Ok::<bool, GraphError>(true),
                    )),
                forall|k1: int, k2: int|
                    0 <= k1 < k2 < map@.len() ==> map@[k1].0 < map@[k2].0 && map@[k1].1
                        != map@[k2].1,
                forall|x: int|
                    0 <= x < i && (#[trigger] imgv@[x]) is Some ==> exists|k: int|
                        0 <= k < map@.len() && (#[trigger] map@[k]).0 == x && map@[k].1
                            == imgv@[x].unwrap(),
                forall|x: int|
                    0 <= x < i && (#[trigger] imgv@[x]) is Some ==> slot_live(
                        self.nodes@,
                        imgv@[x].unwrap() as int,
                    ),
                forall|x: int|
                    0 <= x < i && (#[trigger] imgv@[x]) is None ==> !slot_live(other.nodes@, x)
                        || (node_filter is Some && call_ensures(
                        node_filter.unwrap(),
                        (other.nodes@[x].unwrap(),),
                        Ok::<bool, GraphError>(false),
                    )),
            decreases n - i,
        {
            let ghost prer = map@;
            let ghost preimg = imgv@;
            match other.nodes.read(i) {
                Some(v) => {
                    let keep = match &node_filter {
                        Some(f) => match f(v) {
                            Ok(b) => b,
                            Err(ce) => {
                                proof {
                                    assert(slot_live(other.nodes@, i as int));
                                    assert(call_ensures(
                                        node_filter.unwrap(),
                                        (other.nodes@[i as int].unwrap(),),
                                        Err::<bool, GraphError>(ce),
                                    ));
                                }
                                return Err(ce);
                            },
                        },
                        None => true,
                    };
                    if keep {
                        let ghost pre = *self;
                        let h = self.add_node(v);
                        proof {
                            crate::slot::lemma_first_free_facts(pre.nodes@);
                            assert forall|k: int| 0 <= k < map@.len() implies slot_live(
                                other.nodes@,
                                (#[trigger] map@[k]).0 as int,
                            ) && slot_live(self.nodes@, map@[k].1 as int)
                                && self.nodes@[map@[k].1 as int] == other.nodes@[map@[k].0 as int]
                                && !slot_live(old(self).nodes@, map@[k].1 as int) && map@[k].0 < i
                                && map@[k].1 != node by {
                                assert(slot_live(pre.nodes@, map@[k].1 as int));
                            }
                            assert forall|x: int|
                                0 <= x < i && (#[trigger] imgv@[x]) is Some implies slot_live(
                                self.nodes@,
                                imgv@[x].unwrap() as int,
                            ) by {
                                assert(slot_live(pre.nodes@, imgv@[x].unwrap() as int));
                            }
                        }
                        map.push((i, h));
                        imgv.push(Some(h));
                        proof {
                            assert forall|x: int|
                                0 <= x < i + 1 && (#[trigger] imgv@[x]) is Some implies exists|
                                k: int,
                            |
                                0 <= k < map@.len() && (#[trigger] map@[k]).0 == x && map@[k].1
                                    == imgv@[x].unwrap() by {
                                if x < i {
                                    assert(imgv@[x] == preimg[x]);
                                    let k = choose|k: int|
                                        0 <= k < prer.len() && (#[trigger] prer[k]).0 == x
                                            && prer[k].1 == preimg[x].unwrap();
                                    assert(map@[k].0 == x && map@[k].1 == imgv@[x].unwrap());
                                } else {
                                    assert(map@[map@.len() - 1].0 == x && map@[map@.len() - 1].1
                                        == imgv@[x].unwrap());
                                }
                            }
                            assert forall|i2: int|
                                #[trigger] slot_live(self.nodes@, i2) <==> slot_live(
                                old(self).nodes@,
                                i2,
                            ) || is_image(map@, i2) by {
                                if slot_live(self.nodes@, i2) {
                                    if i2 == h as int {
                                        assert(map@[map@.len() - 1].1 as int == i2);
                                        assert(is_image(map@, i2));
                                    } else {
                                        assert(slot_live(pre.nodes@, i2));
                                        if is_image(prer, i2) {
                                            let k = choose|k: int|
                                                0 <= k < prer.len() && (#[trigger] prer[k]).1
                                                    as int == i2;
                                            assert(map@[k].1 as int == i2);
                                            assert(is_image(map@, i2));
                                        }
                                    }
                                } else {
                                    assert(!slot_live(pre.nodes@, i2));
                                    assert(!slot_live(old(self).nodes@, i2));
                                    if is_image(map@, i2) {
                                        let k = choose|k: int|
                                            0 <= k < map@.len() && (#[trigger] map@[k]).1 as int
                                                == i2;
                                        if k < prer.len() {
                                            assert(prer[k].1 as int == i2);
                                            assert(is_image(prer, i2));
                                            assert(slot_live(pre.nodes@, i2));
                                        } else {
                                            assert(i2 == h as int);
                                        }
                                        assert(false);
                                    }
                                }
                            }
                        }
                    } else {
                        imgv.push(None);
                        proof {
                            assert forall|x: int|
                                0 <= x < i + 1 && (#[trigger] imgv@[x]) is Some implies exists|
                                k: int,
                            |
                                0 <= k < map@.len() && (#[trigger] map@[k]).0 == x && map@[k].1
                                    == imgv@[x].unwrap() by {
                                assert(x < i);
                                assert(imgv@[x] == preimg[x]);
                                let k = choose|k: int|
                                    0 <= k < prer.len() && (#[trigger] prer[k]).0 == x && prer[k].1
                                        == preimg[x].unwrap();
                                assert(map@[k].0 == x && map@[k].1 == imgv@[x].unwrap());
                            }
                        }
                    }
                },
                None => {
                    imgv.push(None);
                    proof {
                        assert forall|x: int|
                            0 <= x < i + 1 && (#[trigger] imgv@[x]) is Some implies exists|k: int|
                            0 <= k < map@.len() && (#[trigger] map@[k]).0 == x && map@[k].1
                                == imgv@[x].unwrap() by {
                            assert(x < i);
                            assert(imgv@[x] == preimg[x]);
                            let k = choose|k: int|
                                0 <= k < prer.len() && (#[trigger] prer[k]).0 == x && prer[k].1
                                    == preimg[x].unwrap();
                            assert(map@[k].0 == x && map@[k].1 == imgv@[x].unwrap());
                        }
                    }
                },
            }
            i = i + 1;
        }
        proof {
            assert forall|o: int|
                0 <= o < other.nodes@.len() && #[trigger] slot_live(
                    other.nodes@,
                    o,
                ) implies has_image(map@, o as usize) || (node_filter is Some && call_ensures(
                node_filter.unwrap(),
                (other.nodes@[o].unwrap(),),
                Ok::<bool, GraphError>(false),
            )) by {
                if imgv@[o] is Some {
                    let k = choose|k: int|
                        0 <= k < map@.len() && (#[trigger] map@[k]).0 == o && map@[k].1 == imgv@[
                            o].unwrap();
                    assert(has_image(map@, o as usize));
                }
            }
        }
        if map.len() == 0 {
            let ghost preempty = self.nodes@;
            self.remove_node(node);
            proof {
                crate::slot::lemma_live_count_update(preempty, node as int, None);
                assert(live_count(self.nodes@) + 1 == live_count(old(self).nodes@) + map@.len());
            }
            return Ok(map);
        }
        let ghost nodes_done = *self;
        let m2 = other.edges.arena_len();
        let mut j: usize = 0;
        while j < m2
            invariant
                j <= m2,
                m2 == other.edges@.len(),
                other.wf(),
                self.wf(),
                old(self).wf(),
                edge_weight_map is Some ==> forall|w: E|
                    call_requires(edge_weight_map.unwrap(), (w,)),
                imgv@.len() == other.nodes@.len(),
                self.multigraph == nodes_done.multigraph,
                self.multigraph == old(self).multigraph,
                self.nodes@ == nodes_done.nodes@,
                nodes_done.edges@ == old(self).edges@,
                old(self).edges@.len() <= self.edges@.len(),
                slot_live(old(self).nodes@, node as int),
                slot_live(self.nodes@, node as int),
                forall|i2: int|
                    #[trigger] slot_live(self.nodes@, i2) <==> slot_live(old(self).nodes@, i2)
                        || is_image(map@, i2),
                live_count(self.nodes@) == live_count(old(self).nodes@) + map@.len(),
                forall|k: int|
                    0 <= k < map@.len() ==> slot_live(self.nodes@, (#[trigger] map@[k]).1 as int)
                        && !slot_live(old(self).nodes@, map@[k].1 as int) && map@[k].1 != node
                        && (#[trigger] map@[k]).0 < imgv@.len() && imgv@[map@[k].0 as int] == Some(
                        map@[k].1,
                    ),
                forall|x: int|
                    0 <= x < imgv@.len() && (#[trigger] imgv@[x]) is Some ==> slot_live(
                        self.nodes@,
                        imgv@[x].unwrap() as int,
                    ) && !slot_live(old(self).nodes@, imgv@[x].unwrap() as int),
                forall|x: int|
                    0 <= x < imgv@.len() && (#[trigger] imgv@[x]) is Some ==> exists|k: int|
                        0 <= k < map@.len() && (#[trigger] map@[k]).0 == x && map@[k].1
                            == imgv@[x].unwrap(),
                forall|jj: int|
                    #[trigger] slot_live(old(self).edges@, jj) && !touches(
                        old(self).edges@[jj].unwrap(),
                        node,
                    ) ==> self.edges@[jj] == old(self).edges@[jj],
                forall|jj: int|
                    #[trigger] slot_live(old(self).edges@, jj) && touches(
                        old(self).edges@[jj].unwrap(),
                        node,
                    ) ==> self.edges@[jj] == old(self).edges@[jj],
                forall|jj: int|
                    #[trigger] slot_live(self.edges@, jj) && touches(
                        self.edges@[jj].unwrap(),
                        node,
                    ) ==> jj < old(self).edges@.len() && slot_live(old(self).edges@, jj)
                        && self.edges@[jj] == old(self).edges@[jj],
                forall|jj: int|
                    #[trigger] slot_live(self.edges@, jj) ==> (slot_live(old(self).edges@, jj)
                        && self.edges@[jj] == old(self).edges@[jj]) || is_image(
                        map@,
                        self.edges@[jj].unwrap().src as int,
                    ) || is_image(map@, self.edges@[jj].unwrap().tgt as int),
                forall|jj: int|
                    0 <= jj < j && #[trigger] slot_live(other.edges@, jj) && (
                    imgv@[other.edges@[jj].unwrap().src as int]) is Some && (
                    imgv@[other.edges@[jj].unwrap().tgt as int]) is Some ==> copied_edge_xformed(
                        *self,
                        edge_weight_map,
                        imgv@[other.edges@[jj].unwrap().src as int].unwrap(),
                        imgv@[other.edges@[jj].unwrap().tgt as int].unwrap(),
                        other.edges@[jj].unwrap().weight,
                        self.multigraph,
                    ),
            decreases m2 - j,
        {
            match other.edges.read(j) {
                Some(e) => {
                    proof {
                        assert(slot_live(other.edges@, j as int));
                    }
                    let ms = imgv[e.src];
                    let mt = imgv[e.tgt];
                    match (ms, mt) {
                        (Some(a), Some(b)) => {
                            let w2 = match &edge_weight_map {
                                Some(f) => match f(e.weight) {
                                    Ok(w2) => w2,
                                    Err(ce) => {
                                        proof {
                                            assert(call_ensures(
                                                edge_weight_map.unwrap(),
                                                (other.edges@[j as int].unwrap().weight,),
                                                Err::<E, GraphError>(ce),
                                            ));
                                        }
                                        return Err(ce);
                                    },
                                },
                                None => e.weight,
                            };
                            let ghost pre = *self;
                            proof {
                                assert(a != node && b != node);
                            }
                            let h = self.insert_or_update_edge(a, b, w2);
                            proof {
                                crate::slot::lemma_first_free_facts(pre.edges@);
                                assert(is_image(map@, a as int) && is_image(map@, b as int)) by {
                                    let k1 = choose|k: int|
                                        0 <= k < map@.len() && (#[trigger] map@[k]).0
                                            == e.src as int && map@[k].1 == imgv@[
                                            e.src as int].unwrap();
                                    let k2 = choose|k: int|
                                        0 <= k < map@.len() && (#[trigger] map@[k]).0
                                            == e.tgt as int && map@[k].1 == imgv@[
                                            e.tgt as int].unwrap();
                                    assert(map@[k1].1 as int == a as int);
                                    assert(map@[k2].1 as int == b as int);
                                }
                                assert forall|jj: int|
                                    #[trigger] slot_live(old(self).edges@, jj) implies
                                    self.edges@[jj] == old(self).edges@[jj] by {
                                    assert(pre.edges@[jj] == old(self).edges@[jj]);
                                    if self.edges@[jj] != pre.edges@[jj] {
                                        assert(connects(pre.edges@[jj].unwrap(), a, b)
                                            || pre.edges@[jj] is None);
                                        assert(false);
                                    }
                                }
                                assert forall|jj: int|
                                    #[trigger] slot_live(self.edges@, jj) && touches(
                                        self.edges@[jj].unwrap(),
                                        node,
                                    ) implies jj < old(self).edges@.len() && slot_live(
                                    old(self).edges@,
                                    jj,
                                ) && self.edges@[jj] == old(self).edges@[jj] by {
                                    if jj != h as int {
                                        assert(slot_live(pre.edges@, jj));
                                        assert(self.edges@[jj].unwrap().src
                                            == pre.edges@[jj].unwrap().src);
                                        assert(self.edges@[jj].unwrap().tgt
                                            == pre.edges@[jj].unwrap().tgt);
                                        assert(touches(pre.edges@[jj].unwrap(), node));
                                        assert(self.edges@[jj] == pre.edges@[jj]);
                                    } else {
                                        assert(!touches(self.edges@[jj].unwrap(), node));
                                    }
                                }
                                assert forall|jj: int|
                                    #[trigger] slot_live(self.edges@, jj) implies (slot_live(
                                    old(self).edges@,
                                    jj,
                                ) && self.edges@[jj] == old(self).edges@[jj]) || is_image(
                                    map@,
                                    self.edges@[jj].unwrap().src as int,
                                ) || is_image(map@, self.edges@[jj].unwrap().tgt as int) by {
                                    if jj == h as int {
                                        assert(connects(self.edges@[jj].unwrap(), a, b));
                                    } else if self.edges@[jj] != pre.edges@[jj] {
                                        assert(slot_live(pre.edges@, jj));
                                        assert(connects(pre.edges@[jj].unwrap(), a, b));
                                        assert(self.edges@[jj].unwrap().src
                                            == pre.edges@[jj].unwrap().src);
                                        assert(self.edges@[jj].unwrap().tgt
                                            == pre.edges@[jj].unwrap().tgt);
                                        assert(connects(self.edges@[jj].unwrap(), a, b));
                                    } else {
                                        assert(slot_live(pre.edges@, jj));
                                    }
                                }
                                assert forall|jj: int|
                                    0 <= jj < j + 1 && #[trigger] slot_live(other.edges@, jj) && (
                                    imgv@[other.edges@[jj].unwrap().src as int]) is Some && (
                                    imgv@[other.edges@[jj].unwrap().tgt as int])
                                        is Some implies copied_edge_xformed(
                                    *self,
                                    edge_weight_map,
                                    imgv@[other.edges@[jj].unwrap().src as int].unwrap(),
                                    imgv@[other.edges@[jj].unwrap().tgt as int].unwrap(),
                                    other.edges@[jj].unwrap().weight,
                                    self.multigraph,
                                ) by {
                                    let aa = imgv@[other.edges@[jj].unwrap().src as int].unwrap();
                                    let bb = imgv@[other.edges@[jj].unwrap().tgt as int].unwrap();
                                    let ww = other.edges@[jj].unwrap().weight;
                                    if jj < j {
                                        let w0 = choose|w0: int| #[trigger]
                                            slot_live(pre.edges@, w0) && connects(
                                                pre.edges@[w0].unwrap(),
                                                aa,
                                                bb,
                                            );
                                        assert(slot_live(self.edges@, w0) && connects(
                                            self.edges@[w0].unwrap(),
                                            aa,
                                            bb,
                                        ));
                                        if self.multigraph {
                                            let w1 = choose|w1: int| #[trigger]
                                                slot_live(pre.edges@, w1) && connects(
                                                    pre.edges@[w1].unwrap(),
                                                    aa,
                                                    bb,
                                                ) && payload_xformed(
                                                    edge_weight_map,
                                                    ww,
                                                    pre.edges@[w1].unwrap().weight,
                                                );
                                            assert(pre.edges@[w1] is None || self.edges@[w1]
                                                == pre.edges@[w1]);
                                            assert(slot_live(self.edges@, w1) && connects(
                                                self.edges@[w1].unwrap(),
                                                aa,
                                                bb,
                                            ) && payload_xformed(
                                                edge_weight_map,
                                                ww,
                                                self.edges@[w1].unwrap().weight,
                                            ));
                                        }
                                    } else {
                                        assert(aa == a && bb == b && ww == e.weight);
                                        assert(payload_xformed(edge_weight_map, e.weight, w2));
                                        assert(slot_live(self.edges@, h as int) && connects(
                                            self.edges@[h as int].unwrap(),
                                            a,
                                            b,
                                        ));
                                        if self.multigraph {
                                            assert(self.edges@[h as int].unwrap().weight == w2);
                                        }
                                    }
                                }
                            }
                        },
                        _ => {},
                    }
                },
                None => {},
            }
            j = j + 1;
        }
        let ghost copied_done = *self;
        let m3 = self.edges.arena_len();
        let mut j3: usize = 0;
        let mut failed = false;
        let ghost mut bad_edge: int = 0;
        let ghost mut bad_handle: usize = 0;
        while j3 < m3
            invariant
                j3 <= m3,
                m3 == copied_done.edges@.len(),
                self.wf(),
                old(self).wf(),
                other.wf(),
                forall|a: usize, b: usize, w: E| call_requires(edge_map_fn, (a, b, w)),
                node_filter is Some ==> forall|v: V| call_requires(node_filter.unwrap(), (v,)),
                imgv@.len() == other.nodes@.len(),
                self.multigraph == copied_done.multigraph,
                self.multigraph == old(self).multigraph,
                self.nodes@ == copied_done.nodes@,
                slot_live(old(self).nodes@, node as int),
                slot_live(self.nodes@, node as int),
                old(self).edges@.len() <= m3,
                m3 <= self.edges@.len(),
                !failed,
                forall|i2: int|
                    #[trigger] slot_live(self.nodes@, i2) <==> slot_live(old(self).nodes@, i2)
                        || is_image(map@, i2),
                live_count(self.nodes@) == live_count(old(self).nodes@) + map@.len(),
                forall|k: int|
                    0 <= k < map@.len() ==> slot_live(self.nodes@, (#[trigger] map@[k]).1 as int)
                        && !slot_live(old(self).nodes@, map@[k].1 as int) && map@[k].1 != node
                        && (#[trigger] map@[k]).0 < imgv@.len() && imgv@[map@[k].0 as int] == Some(
                        map@[k].1,
                    ),
                forall|x: int|
                    0 <= x < imgv@.len() && (#[trigger] imgv@[x]) is Some ==> slot_live(
                        self.nodes@,
                        imgv@[x].unwrap() as int,
                    ) && !slot_live(old(self).nodes@, imgv@[x].unwrap() as int),
                forall|x: int|
                    0 <= x < imgv@.len() && (#[trigger] imgv@[x]) is Some ==> exists|k: int|
                        0 <= k < map@.len() && (#[trigger] map@[k]).0 == x && map@[k].1
                            == imgv@[x].unwrap(),
                forall|x: int|
                    0 <= x < imgv@.len() && (#[trigger] imgv@[x]) is None ==> !slot_live(
                        other.nodes@,
                        x,
                    ) || (node_filter is Some && call_ensures(
                        node_filter.unwrap(),
                        (other.nodes@[x].unwrap(),),
                        Ok::<bool, GraphError>(false),
                    )),
                forall|jj: int|
                    #[trigger] slot_live(old(self).edges@, jj) && !touches(
                        old(self).edges@[jj].unwrap(),
                        node,
                    ) ==> self.edges@[jj] == old(self).edges@[jj],
                forall|jj: int|
                    j3 <= jj < old(self).edges@.len() && #[trigger] slot_live(
                        old(self).edges@,
                        jj,
                    ) && touches(old(self).edges@[jj].unwrap(), node) ==> self.edges@[jj] == old(
                        self,
                    ).edges@[jj],
                forall|jj: int|
                    #[trigger] slot_live(self.edges@, jj) && touches(
                        self.edges@[jj].unwrap(),
                        node,
                    ) ==> jj < old(self).edges@.len() && slot_live(old(self).edges@, jj)
                        && self.edges@[jj] == old(self).edges@[jj],
                forall|jj: int|
                    #[trigger] slot_live(self.edges@, jj) ==> (slot_live(old(self).edges@, jj)
                        && self.edges@[jj] == old(self).edges@[jj]) || is_image(
                        map@,
                        self.edges@[jj].unwrap().src as int,
                    ) || is_image(map@, self.edges@[jj].unwrap().tgt as int),
                forall|jj: int|
                    #[trigger] slot_live(other.edges@, jj) && (
                    imgv@[other.edges@[jj].unwrap().src as int]) is Some && (
                    imgv@[other.edges@[jj].unwrap().tgt as int]) is Some ==> copied_edge_xformed(
                        *self,
                        edge_weight_map,
                        imgv@[other.edges@[jj].unwrap().src as int].unwrap(),
                        imgv@[other.edges@[jj].unwrap().tgt as int].unwrap(),
                        other.edges@[jj].unwrap().weight,
                        self.multigraph,
                    ),
                forall|jj: int|
                    0 <= jj < j3 && jj < old(self).edges@.len() && #[trigger] slot_live(
                        old(self).edges@,
                        jj,
                    ) && touches(old(self).edges@[jj].unwrap(), node) && !(old(
                        self,
                    ).edges@[jj].unwrap().src == node && old(self).edges@[jj].unwrap().tgt == node)
                        ==> reroute_outcome(
                        edge_map_fn,
                        map@,
                        self.edges@,
                        old(self).edges@[jj].unwrap(),
                        node,
                        self.multigraph,
                    ),
            decreases m3 - j3,
        {
            match self.edges.read(j3) {
                Some(e) => {
                    if e.src == node || e.tgt == node {
                        proof {
                            assert(slot_live(self.edges@, j3 as int));
                            assert(e == old(self).edges@[j3 as int].unwrap());
                        }
                        let rr = match edge_map_fn(e.src, e.tgt, e.weight) {
                            Ok(ans) => ans,
                            Err(ce) => {
                                proof {
                                    assert(slot_live(old(self).edges@, j3 as int));
                                    assert(call_ensures(
                                        edge_map_fn,
                                        (
                                            old(self).edges@[j3 as int].unwrap().src,
                                            old(self).edges@[j3 as int].unwrap().tgt,
                                            old(self).edges@[j3 as int].unwrap().weight,
                                        ),
                                        Err::<Option<usize>, GraphError>(ce),
                                    ));
                                }
                                return Err(ce);
                            },
                        };
                        match rr {
                            Some(hh) => {
                                let img = if hh < imgv.len() {
                                    imgv[hh]
                                } else {
                                    None
                                };
                                match img {
                                    Some(tgt_new) => {
                                        let is_self_loop = e.src == node && e.tgt == node;
                                        let other_end = if e.src == node {
                                            e.tgt
                                        } else {
                                            e.src
                                        };
                                        let ghost pre = *self;
                                        self.remove_edge_from_index(j3);
                                        proof {
                                            assert forall|x: int|
                                                0 <= x < imgv@.len() && (#[trigger] imgv@[x])
                                                    is Some implies imgv@[x].unwrap()
                                                != node by {}
                                            lemma_copied_edges_survive(
                                                pre,
                                                *self,
                                                *other,
                                                imgv@,
                                                edge_weight_map,
                                                node,
                                            );
                                        }
                                        if !is_self_loop {
                                            let ghost pre2 = *self;
                                            let hnew = self.insert_or_update_edge(
                                                other_end,
                                                tgt_new,
                                                e.weight,
                                            );
                                            proof {
                                                crate::slot::lemma_first_free_facts(pre2.edges@);
                                                assert(slot_live(self.edges@, hnew as int)
                                                    && connects(
                                                    self.edges@[hnew as int].unwrap(),
                                                    other_end,
                                                    tgt_new,
                                                ));
                                                assert(is_image(map@, tgt_new as int)) by {
                                                    let k = choose|k: int|
                                                        0 <= k < map@.len() && (#[trigger] map@[k]).0
                                                            == hh as int && map@[k].1 == imgv@[
                                                            hh as int].unwrap();
                                                    assert(map@[k].1 as int == tgt_new as int);
                                                }
                                                assert forall|x: int|
                                                    0 <= x < imgv@.len() && (#[trigger] imgv@[x])
                                                        is Some implies imgv@[x].unwrap()
                                                    != node by {}
                                                lemma_copied_edges_survive(
                                                    pre2,
                                                    *self,
                                                    *other,
                                                    imgv@,
                                                    edge_weight_map,
                                                    node,
                                                );
                                                assert forall|jj: int|
                                                    #[trigger] slot_live(old(self).edges@, jj)
                                                        && !touches(
                                                        old(self).edges@[jj].unwrap(),
                                                        node,
                                                    ) implies self.edges@[jj] == old(
                                                    self,
                                                ).edges@[jj] by {
                                                    assert(pre.edges@[jj] == old(
                                                        self,
                                                    ).edges@[jj]);
                                                    assert(pre2.edges@[jj] == old(
                                                        self,
                                                    ).edges@[jj]);
                                                    if self.edges@[jj] != pre2.edges@[jj] {
                                                        assert(connects(
                                                            pre2.edges@[jj].unwrap(),
                                                            other_end,
                                                            tgt_new,
                                                        ) || pre2.edges@[jj] is None);
                                                        assert(!slot_live(
                                                            old(self).nodes@,
                                                            tgt_new as int,
                                                        ));
                                                        assert(false);
                                                    }
                                                }
                                                assert forall|jj: int|
                                                    j3 + 1 <= jj < old(self).edges@.len()
                                                        && #[trigger] slot_live(
                                                        old(self).edges@,
                                                        jj,
                                                    ) && touches(
                                                        old(self).edges@[jj].unwrap(),
                                                        node,
                                                    ) implies self.edges@[jj] == old(
                                                    self,
                                                ).edges@[jj] by {
                                                    assert(pre.edges@[jj] == old(
                                                        self,
                                                    ).edges@[jj]);
                                                    assert(pre2.edges@[jj] == old(
                                                        self,
                                                    ).edges@[jj]);
                                                    if self.edges@[jj] != pre2.edges@[jj] {
                                                        assert(connects(
                                                            pre2.edges@[jj].unwrap(),
                                                            other_end,
                                                            tgt_new,
                                                        ) || pre2.edges@[jj] is None);
                                                        assert(!slot_live(
                                                            old(self).nodes@,
                                                            tgt_new as int,
                                                        ));
                                                        assert(false);
                                                    }
                                                }
                                                assert forall|jj: int|
                                                    #[trigger] slot_live(self.edges@, jj)
                                                        && touches(
                                                        self.edges@[jj].unwrap(),
                                                        node,
                                                    ) implies jj < old(self).edges@.len()
                                                    && slot_live(old(self).edges@, jj)
                                                    && self.edges@[jj] == old(
                                                    self,
                                                ).edges@[jj] by {
                                                    assert(other_end != node && tgt_new != node);
                                                    if jj != hnew as int {
                                                        assert(slot_live(pre2.edges@, jj));
                                                        assert(self.edges@[jj].unwrap().src
                                                            == pre2.edges@[jj].unwrap().src);
                                                        assert(self.edges@[jj].unwrap().tgt
                                                            == pre2.edges@[jj].unwrap().tgt);
                                                        assert(touches(
                                                            pre2.edges@[jj].unwrap(),
                                                            node,
                                                        ));
                                                        assert(slot_live(pre.edges@, jj) && jj
                                                            != j3 as int);
                                                        assert(self.edges@[jj]
                                                            == pre2.edges@[jj]);
                                                    } else {
                                                        assert(!touches(
                                                            self.edges@[jj].unwrap(),
                                                            node,
                                                        ));
                                                    }
                                                }
                                                assert forall|jj: int|
                                                    #[trigger] slot_live(self.edges@, jj) implies (
                                                slot_live(old(self).edges@, jj)
                                                    && self.edges@[jj] == old(self).edges@[jj])
                                                    || is_image(
                                                    map@,
                                                    self.edges@[jj].unwrap().src as int,
                                                ) || is_image(
                                                    map@,
                                                    self.edges@[jj].unwrap().tgt as int,
                                                ) by {
                                                    if jj == hnew as int {
                                                        assert(connects(
                                                            self.edges@[jj].unwrap(),
                                                            other_end,
                                                            tgt_new,
                                                        ));
                                                    } else if self.edges@[jj]
                                                        != pre2.edges@[jj] {
                                                        assert(slot_live(pre2.edges@, jj));
                                                        assert(connects(
                                                            pre2.edges@[jj].unwrap(),
                                                            other_end,
                                                            tgt_new,
                                                        ));
                                                        assert(self.edges@[jj].unwrap().src
                                                            == pre2.edges@[jj].unwrap().src);
                                                        assert(self.edges@[jj].unwrap().tgt
                                                            == pre2.edges@[jj].unwrap().tgt);
                                                        assert(connects(
                                                            self.edges@[jj].unwrap(),
                                                            other_end,
                                                            tgt_new,
                                                        ));
                                                    } else {
                                                        assert(slot_live(pre2.edges@, jj));
                                                        assert(slot_live(pre.edges@, jj) && jj
                                                            != j3 as int);
                                                    }
                                                }
                                                assert forall|jj: int|
                                                    0 <= jj < j3 + 1 && jj < old(
                                                        self,
                                                    ).edges@.len() && #[trigger] slot_live(
                                                        old(self).edges@,
                                                        jj,
                                                    ) && touches(
                                                        old(self).edges@[jj].unwrap(),
                                                        node,
                                                    ) && !(old(self).edges@[jj].unwrap().src
                                                        == node
                                                        && old(self).edges@[jj].unwrap().tgt
                                                        == node) implies reroute_outcome(
                                                    edge_map_fn,
                                                    map@,
                                                    self.edges@,
                                                    old(self).edges@[jj].unwrap(),
                                                    node,
                                                    self.multigraph,
                                                ) by {
                                                    let eo = old(self).edges@[jj].unwrap();
                                                    if jj < j3 {
                                                        lemma_outcome_survives(
                                                            pre,
                                                            pre2,
                                                            map@,
                                                            edge_map_fn,
                                                            eo,
                                                            node,
                                                        );
                                                        lemma_outcome_survives(
                                                            pre2,
                                                            *self,
                                                            map@,
                                                            edge_map_fn,
                                                            eo,
                                                            node,
                                                        );
                                                    } else {
                                                        assert(eo == e);
                                                        assert(call_ensures(
                                                            edge_map_fn,
                                                            (e.src, e.tgt, e.weight),
                                                            Ok::<Option<usize>, GraphError>(
                                                                Some(hh),
                                                            ),
                                                        ));
                                                        let k = choose|k: int|
                                                            0 <= k < map@.len() && (
                                                            #[trigger] map@[k]).0 == hh as int
                                                                && map@[k].1 == imgv@[
                                                                hh as int].unwrap();
                                                        assert(crate::graph::opposite(e, node)
                                                            == other_end);
                                                        assert(has_edge_between(
                                                            self.edges@,
                                                            other_end,
                                                            map@[k].1,
                                                        ));
                                                        if self.multigraph {
                                                            assert(!has_edge_between(
                                                                pre2.edges@,
                                                                other_end,
                                                                tgt_new,
                                                            ) || true);
                                                            assert(self.edges@[hnew as int]
                                                                == Some(
                                                                (Edge {
                                                                    src: other_end,
                                                                    tgt: tgt_new,
                                                                    weight: e.weight,
                                                                }),
                                                            ));
                                                        }
                                                    }
                                                }
                                            }
                                        } else {
                                            proof {
                                                assert forall|jj: int|
                                                    #[trigger] slot_live(self.edges@, jj)
                                                        && touches(
                                                        self.edges@[jj].unwrap(),
                                                        node,
                                                    ) implies jj < old(self).edges@.len()
                                                    && slot_live(old(self).edges@, jj)
                                                    && self.edges@[jj] == old(
                                                    self,
                                                ).edges@[jj] by {
                                                    assert(slot_live(pre.edges@, jj) && jj
                                                        != j3 as int);
                                                    assert(self.edges@[jj] == pre.edges@[jj]);
                                                }
                                                assert forall|jj: int|
                                                    #[trigger] slot_live(self.edges@, jj) implies (
                                                slot_live(old(self).edges@, jj)
                                                    && self.edges@[jj] == old(self).edges@[jj])
                                                    || is_image(
                                                    map@,
                                                    self.edges@[jj].unwrap().src as int,
                                                ) || is_image(
                                                    map@,
                                                    self.edges@[jj].unwrap().tgt as int,
                                                ) by {
                                                    assert(slot_live(pre.edges@, jj) && jj
                                                        != j3 as int);
                                                    assert(self.edges@[jj] == pre.edges@[jj]);
                                                }
                                                assert forall|jj: int|
                                                    0 <= jj < j3 + 1 && jj < old(
                                                        self,
                                                    ).edges@.len() && #[trigger] slot_live(
                                                        old(self).edges@,
                                                        jj,
                                                    ) && touches(
                                                        old(self).edges@[jj].unwrap(),
                                                        node,
                                                    ) && !(old(self).edges@[jj].unwrap().src
                                                        == node
                                                        && old(self).edges@[jj].unwrap().tgt
                                                        == node) implies reroute_outcome(
                                                    edge_map_fn,
                                                    map@,
                                                    self.edges@,
                                                    old(self).edges@[jj].unwrap(),
                                                    node,
                                                    self.multigraph,
                                                ) by {
                                                    let eo = old(self).edges@[jj].unwrap();
                                                    if jj < j3 {
                                                        lemma_outcome_survives(
                                                            pre,
                                                            *self,
                                                            map@,
                                                            edge_map_fn,
                                                            eo,
                                                            node,
                                                        );
                                                    }
                                                }
                                            }
                                        }
                                    },
                                    None => {
                                        proof {
                                            bad_edge = j3 as int;
                                            bad_handle = hh;
                                        }
                                        failed = true;
                                    },
                                }
                            },
                            None => {
                                let ghost pre = *self;
                                self.remove_edge_from_index(j3);
                                proof {
                                    assert forall|x: int|
                                        0 <= x < imgv@.len() && (#[trigger] imgv@[x])
                                            is Some implies imgv@[x].unwrap() != node by {}
                                    lemma_copied_edges_survive(
                                        pre,
                                        *self,
                                        *other,
                                        imgv@,
                                        edge_weight_map,
                                        node,
                                    );
                                    assert forall|jj: int|
                                        #[trigger] slot_live(self.edges@, jj) && touches(
                                            self.edges@[jj].unwrap(),
                                            node,
                                        ) implies jj < old(self).edges@.len() && slot_live(
                                        old(self).edges@,
                                        jj,
                                    ) && self.edges@[jj] == old(self).edges@[jj] by {
                                        assert(slot_live(pre.edges@, jj) && jj != j3 as int);
                                        assert(self.edges@[jj] == pre.edges@[jj]);
                                    }
                                    assert forall|jj: int|
                                        #[trigger] slot_live(self.edges@, jj) implies (slot_live(
                                        old(self).edges@,
                                        jj,
                                    ) && self.edges@[jj] == old(self).edges@[jj]) || is_image(
                                        map@,
                                        self.edges@[jj].unwrap().src as int,
                                    ) || is_image(map@, self.edges@[jj].unwrap().tgt as int) by {
                                        assert(slot_live(pre.edges@, jj) && jj != j3 as int);
                                        assert(self.edges@[jj] == pre.edges@[jj]);
                                    }
                                    assert forall|jj: int|
                                        0 <= jj < j3 + 1 && jj < old(self).edges@.len()
                                            && #[trigger] slot_live(old(self).edges@, jj)
                                            && touches(old(self).edges@[jj].unwrap(), node) && !(
                                        old(self).edges@[jj].unwrap().src == node && old(
                                            self,
                                        ).edges@[jj].unwrap().tgt == node)
                                            implies reroute_outcome(
                                        edge_map_fn,
                                        map@,
                                        self.edges@,
                                        old(self).edges@[jj].unwrap(),
                                        node,
                                        self.multigraph,
                                    ) by {
                                        let eo = old(self).edges@[jj].unwrap();
                                        if jj < j3 {
                                            lemma_outcome_survives(
                                                pre,
                                                *self,
                                                map@,
                                                edge_map_fn,
                                                eo,
                                                node,
                                            );
                                        } else {
                                            assert(eo == e);
                                            assert(call_ensures(
                                                edge_map_fn,
                                                (e.src, e.tgt, e.weight),
                                                Ok::<Option<usize>, GraphError>(None),
                                            ));
                                        }
                                    }
                                }
                            },
                        }
                    } else {
                        proof {
                            if (j3 as int) < old(self).edges@.len() && slot_live(
                                old(self).edges@,
                                j3 as int,
                            ) && touches(old(self).edges@[j3 as int].unwrap(), node) {
                                assert(self.edges@[j3 as int] == old(self).edges@[j3 as int]);
                                assert(touches(e, node));
                                assert(false);
                            }
                        }
                    }
                },
                None => {
                    proof {
                        if (j3 as int) < old(self).edges@.len() && slot_live(
                            old(self).edges@,
                            j3 as int,
                        ) && touches(old(self).edges@[j3 as int].unwrap(), node) {
                            assert(self.edges@[j3 as int] == old(self).edges@[j3 as int]);
                            assert(false);
                        }
                    }
                },
            }
            if failed {
                proof {
                    assert(slot_live(old(self).edges@, bad_edge) && touches(
                        old(self).edges@[bad_edge].unwrap(),
                        node,
                    ) && call_ensures(
                        edge_map_fn,
                        (
                            old(self).edges@[bad_edge].unwrap().src,
                            old(self).edges@[bad_edge].unwrap().tgt,
                            old(self).edges@[bad_edge].unwrap().weight,
                        ),
                        Ok::<Option<usize>, GraphError>(Some(bad_handle)),
                    ) && (!slot_live(other.nodes@, bad_handle as int) || (node_filter is Some
                        && call_ensures(
                        node_filter.unwrap(),
                        (other.nodes@[bad_handle as int].unwrap(),),
                        Ok::<bool, GraphError>(false),
                    ))));
                }
                return Err(GraphError::NotFound);
            }
            j3 = j3 + 1;
        }
        let ghost routed_done = *self;
        self.remove_node(node);
        proof {
            crate::slot::lemma_live_count_update(routed_done.nodes@, node as int, None);
            assert(live_count(self.nodes@) + 1 == live_count(old(self).nodes@) + map@.len());
            assert forall|i2: int| #[trigger] slot_live(self.nodes@, i2) implies (slot_live(
                old(self).nodes@,
                i2,
            ) && i2 != node as int) || is_image(map@, i2) by {
                assert(slot_live(routed_done.nodes@, i2));
                assert(i2 != node as int);
            }
            assert forall|x: int|
                0 <= x < imgv@.len() && (#[trigger] imgv@[x]) is Some implies imgv@[x].unwrap()
                != node by {}
            lemma_copied_edges_survive(
                routed_done,
                *self,
                *other,
                imgv@,
                edge_weight_map,
                node,
            );
            assert forall|jj: int|
                #[trigger] slot_live(old(self).edges@, jj) && !touches(
                    old(self).edges@[jj].unwrap(),
                    node,
                ) implies self.edges@[jj] == old(self).edges@[jj] by {
                assert(routed_done.edges@[jj] == old(self).edges@[jj]);
                assert(slot_live(routed_done.edges@, jj));
                assert(!touches(routed_done.edges@[jj].unwrap(), node));
            }
            assert forall|jj: int|
                #[trigger] slot_live(self.edges@, jj) implies (slot_live(old(self).edges@, jj)
                && self.edges@[jj] == old(self).edges@[jj]) || is_image(
                map@,
                self.edges@[jj].unwrap().src as int,
            ) || is_image(map@, self.edges@[jj].unwrap().tgt as int) by {
                assert(slot_live(routed_done.edges@, jj));
                assert(self.edges@[jj] == routed_done.edges@[jj]);
            }
            assert forall|jj: int|
                #[trigger] slot_live(old(self).edges@, jj) && touches(
                    old(self).edges@[jj].unwrap(),
                    node,
                ) && !(old(self).edges@[jj].unwrap().src == node && old(
                self,
            ).edges@[jj].unwrap().tgt == node) implies reroute_outcome(
                edge_map_fn,
                map@,
                self.edges@,
                old(self).edges@[jj].unwrap(),
                node,
                self.multigraph,
            ) by {
                let eo = old(self).edges@[jj].unwrap();
                lemma_outcome_survives(routed_done, *self, map@, edge_map_fn, eo, node);
            }
            assert forall|jj: int|
                #[trigger] slot_live(other.edges@, jj) && has_image(
                    map@,
                    other.edges@[jj].unwrap().src,
                ) && has_image(map@, other.edges@[jj].unwrap().tgt) implies exists|
                k1: int,
                k2: int,
            |
                0 <= k1 < map@.len() && 0 <= k2 < map@.len() && (#[trigger] map@[k1]).0
                    == other.edges@[jj].unwrap().src && (#[trigger] map@[k2]).0
                    == other.edges@[jj].unwrap().tgt && copied_edge_xformed(
                    *self,
                    edge_weight_map,
                    map@[k1].1,
                    map@[k2].1,
                    other.edges@[jj].unwrap().weight,
                    self.multigraph,
                ) by {
                let src = other.edges@[jj].unwrap().src;
                let tgt = other.edges@[jj].unwrap().tgt;
                let k1 = choose|k: int| 0 <= k < map@.len() && (#[trigger] map@[k]).0 == src;
                let k2 = choose|k: int| 0 <= k < map@.len() && (#[trigger] map@[k]).0 == tgt;
                assert(imgv@[src as int] == Some(map@[k1].1));
                assert(imgv@[tgt as int] == Some(map@[k2].1));
                assert(copied_edge_xformed(
                    *self,
                    edge_weight_map,
                    imgv@[src as int].unwrap(),
                    imgv@[tgt as int].unwrap(),
                    other.edges@[jj].unwrap().weight,
                    self.multigraph,
                ));
            }
        }
        Ok(map)
    }

    /// The node-induced subgraph over the listed handles, together with
    /// the map from each new handle to the original handle it copies.
    /// Handles that name no live node are silently skipped; the new
    /// container numbers its nodes densely from zero in original handle
    /// order, and keeps an edge exactly when both endpoints were selected.
    pub fn subgraph_with_nodemap(&self, nodes: Vec<usize>) -> (r: (PyGraph<V, E>, Vec<
        (usize, usize),
    >))
        requires
            self.wf(),
        ensures
            ({
                let (sub, nm) = r;
                let sp = selected_pairs(self.nodes@, nodes@);
                let se = selected_edges(self.edges@, nodes@);
                &&& sub.wf()
                &&& sub.multigraph == self.multigraph
                &&& sub.node_removed == false
                &&& nm@.len() == sp.len()
                &&& forall|k: int|
                    0 <= k < sp.len() ==> (#[trigger] nm@[k]) == (k as usize, sp[k].0)
                &&& sub.nodes@.len() == sp.len()
                &&& forall|k: int|
                    0 <= k < sp.len() ==> (#[trigger] sub.nodes@[k]) == Some(sp[k].1)
                &&& sub.edges@.len() == se.len()
                &&& forall|j: int|
                    0 <= j < se.len() ==> (#[trigger] sub.edges@[j]) is Some
                        && sub.edges@[j].unwrap().weight == se[j].weight && sub.edges@[j].unwrap().src
                        < sp.len() && sub.edges@[j].unwrap().tgt < sp.len() && sp[sub.edges@[j].unwrap().src as int].0
                        == se[j].src && sp[sub.edges@[j].unwrap().tgt as int].0 == se[j].tgt
            }),
    {
        let ghost sp = selected_pairs(self.nodes@, nodes@);
        let n = self.nodes.arena_len();
        let mut mapv: Vec<Option<usize>> = Vec::new();
        let mut nm: Vec<(usize, usize)> = Vec::new();
        let mut sub_nodes: SlotStore<V> = SlotStore::new();
        let mut i: usize = 0;
        while i < n
            invariant
                i <= n,
                n == self.nodes@.len(),
                mapv@.len() == i,
                nm@.len() == sub_nodes@.len(),
                nm@.len() == selected_pairs(self.nodes@.take(i as int), nodes@).len(),
                forall|k: int|
                    0 <= k < nm@.len() ==> (#[trigger] nm@[k]) == (
                        k as usize,
                        selected_pairs(self.nodes@.take(i as int), nodes@)[k].0,
                    ),
                forall|k: int|
                    0 <= k < nm@.len() ==> (#[trigger] sub_nodes@[k]) == Some(
                        selected_pairs(self.nodes@.take(i as int), nodes@)[k].1,
                    ),
                forall|x: int| 0 <= x < i ==> ((#[trigger] mapv@[x]) is Some <==> slot_live(
                    self.nodes@,
                    x,
                ) && nodes@.contains(x as usize)),
                forall|x: int|
                    0 <= x < i && (#[trigger] mapv@[x]) is Some ==> mapv@[x].unwrap() < nm@.len()
                        && nm@[mapv@[x].unwrap() as int].1 == x as usize && sub_nodes@[mapv@[x].unwrap() as int]
                        == self.nodes@[x],
            decreases n - i,
        {
            proof {
                assert(self.nodes@.take(i + 1).drop_last() =~= self.nodes@.take(i as int));
            }
            let live_here = self.nodes.is_live(i);
            if live_here && list_contains(&nodes, i) {
                match self.nodes.read(i) {
                    Some(v) => {
                        let c = sub_nodes.allocate(v);
                        nm.push((c, i));
                        mapv.push(Some(c));
                    },
                    None => {
                        mapv.push(None);
                    },
                }
            } else {
                mapv.push(None);
            }
            i = i + 1;
        }
        proof {
            assert(self.nodes@.take(n as int) =~= self.nodes@);
        }
        let m = self.edges.arena_len();
        let mut sub_edges: SlotStore<Edge<E>> = SlotStore::new();
        let ghost mut orig_of: Seq<int> = Seq::empty();
        let mut j: usize = 0;
        while j < m
            invariant
                j <= m,
                m == self.edges@.len(),
                self.wf(),
                nm@.len() == sp.len(),
                sp == selected_pairs(self.nodes@, nodes@),
                mapv@.len() == self.nodes@.len(),
                forall|k: int| 0 <= k < sp.len() ==> (#[trigger] nm@[k]) == (k as usize, sp[k].0),
                forall|x: int| 0 <= x < mapv@.len() ==> ((#[trigger] mapv@[x]) is Some
                    <==> slot_live(self.nodes@, x) && nodes@.contains(x as usize)),
                forall|x: int|
                    0 <= x < mapv@.len() && (#[trigger] mapv@[x]) is Some ==> mapv@[x].unwrap()
                        < sp.len() && sp[mapv@[x].unwrap() as int].0 == x as usize,
                sub_edges@.len() == selected_edges(self.edges@.take(j as int), nodes@).len(),
                orig_of.len() == sub_edges@.len(),
                forall|jj: int|
                    0 <= jj < sub_edges@.len() ==> (#[trigger] sub_edges@[jj]) is Some,
                forall|jj: int|
                    0 <= jj < sub_edges@.len() ==> {
                        let se = selected_edges(self.edges@.take(j as int), nodes@);
                        (#[trigger] sub_edges@[jj]).unwrap().weight == se[jj].weight
                            && sub_edges@[jj].unwrap().src < sp.len()
                            && sub_edges@[jj].unwrap().tgt < sp.len() && sp[sub_edges@[jj].unwrap().src as int].0
                            == se[jj].src && sp[sub_edges@[jj].unwrap().tgt as int].0 == se[jj].tgt
                    },
                forall|a: int, b: int|
                    0 <= a < b < orig_of.len() ==> orig_of[a] < orig_of[b],
                forall|jj: int|
                    0 <= jj < orig_of.len() ==> 0 <= (#[trigger] orig_of[jj]) < j && slot_live(
                        self.edges@,
                        orig_of[jj],
                    ) && self.edges@[orig_of[jj]].unwrap().src == sp[sub_edges@[jj].unwrap().src as int].0
                        && self.edges@[orig_of[jj]].unwrap().tgt == sp[sub_edges@[jj].unwrap().tgt as int].0,
            decreases m - j,
        {
            proof {
                assert(self.edges@.take(j + 1).drop_last() =~= self.edges@.take(j as int));
            }
            match self.edges.read(j) {
                Some(e) => {
                    proof {
                        assert(slot_live(self.edges@, j as int));
                        assert(slot_live(self.nodes@, e.src as int));
                        assert(slot_live(self.nodes@, e.tgt as int));
                    }
                    let ms = mapv[e.src];
                    let mt = mapv[e.tgt];
                    match (ms, mt) {
                        (Some(a), Some(b)) => {
                            sub_edges.allocate(Edge { src: a, tgt: b, weight: e.weight });
                            proof {
                                orig_of = orig_of.push(j as int);
                            }
                        },
                        _ => {},
                    }
                },
                None => {},
            }
            j = j + 1;
        }
        proof {
            assert(self.edges@.take(m as int) =~= self.edges@);
        }
        let sub = PyGraph {
            nodes: sub_nodes,
            edges: sub_edges,
            multigraph: self.multigraph,
            node_removed: false,
        };
        proof {
            assert forall|jj: int| #[trigger] slot_live(sub.edges@, jj) implies slot_live(
                sub.nodes@,
                sub.edges@[jj].unwrap().src as int,
            ) && slot_live(sub.nodes@, sub.edges@[jj].unwrap().tgt as int) by {
                assert(sub.edges@[jj].unwrap().src < sp.len());
                assert(sub.nodes@[sub.edges@[jj].unwrap().src as int] is Some);
                assert(sub.nodes@[sub.edges@[jj].unwrap().tgt as int] is Some);
            }
            if !sub.multigraph {
                assert forall|x: int, y: int|
                    #![trigger sub.edges@[x], sub.edges@[y]]
                    slot_live(sub.edges@, x) && slot_live(sub.edges@, y) && x != y implies !connects(
                    sub.edges@[x].unwrap(),
                    sub.edges@[y].unwrap().src,
                    sub.edges@[y].unwrap().tgt,
                ) by {
                    let ox = orig_of[x];
                    let oy = orig_of[y];
                    assert(ox != oy);
                    if connects(
                        sub.edges@[x].unwrap(),
                        sub.edges@[y].unwrap().src,
                        sub.edges@[y].unwrap().tgt,
                    ) {
                        assert(connects(
                            self.edges@[ox].unwrap(),
                            self.edges@[oy].unwrap().src,
                            self.edges@[oy].unwrap().tgt,
                        ));
                        assert(false);
                    }
                }
            }
        }
        (sub, nm)
    }

    /// Add a whole other container onto this one: every live node of
    /// `other` is copied in increasing handle order (payload passed through
    /// `node_map_func` when one is given), then every live edge of `other`
    /// with endpoints remapped to the copies and payload passed through
    /// `edge_map_func`, then one attaching edge per `node_map` entry, from
    /// the listed node of this container to the copy of the listed node of
    /// `other`, carrying the entry's payload.  Every edge insertion follows
    /// the multigraph policy; what was already here is untouched.  Returns
    /// the map from each live handle of `other` to its copy here.
    pub fn compose<NF: Fn(V) -> V, EF: Fn(E) -> E>(
        &mut self,
        other: &PyGraph<V, E>,
        node_map: Vec<(usize, (usize, E))>,
        node_map_func: Option<NF>,
        edge_map_func: Option<EF>,
    ) -> (r: Vec<(usize, usize)>)
        requires
            old(self).wf(),
            other.wf(),
            node_map_func is Some ==> forall|v: V| call_requires(node_map_func.unwrap(), (v,)),
            edge_map_func is Some ==> forall|w: E| call_requires(edge_map_func.unwrap(), (w,)),
            forall|k: int|
                0 <= k < node_map@.len() ==> slot_live(
                    old(self).nodes@,
                    (#[trigger] node_map@[k]).0 as int,
                ) && slot_live(other.nodes@, node_map@[k].1.0 as int),
        ensures
            final(self).wf(),
            final(self).multigraph == old(self).multigraph,
            final(self).node_removed == old(self).node_removed,
            forall|i: int|
                #[trigger] slot_live(old(self).nodes@, i) ==> slot_live(final(self).nodes@, i)
                    && final(self).nodes@[i] == old(self).nodes@[i],
            forall|j: int|
                #[trigger] slot_live(old(self).edges@, j) ==> final(self).edges@[j] == old(
                    self,
                ).edges@[j],
            live_count(final(self).nodes@) == live_count(old(self).nodes@) + live_count(
                other.nodes@,
            ),
            old(self).multigraph ==> live_count(final(self).edges@) == live_count(
                old(self).edges@,
            ) + live_count(other.edges@) + node_map@.len(),
            r@.len() == crate::slot::live_indices(other.nodes@).len(),
            forall|k: int|
                0 <= k < r@.len() ==> (#[trigger] r@[k]).0 == crate::slot::live_indices(
                    other.nodes@,
                )[k],
            forall|k: int|
                0 <= k < r@.len() ==> slot_live(final(self).nodes@, (#[trigger] r@[k]).1 as int)
                    && payload_mapped(
                    node_map_func,
                    other.nodes@[r@[k].0 as int].unwrap(),
                    final(self).nodes@[r@[k].1 as int].unwrap(),
                ) && !slot_live(old(self).nodes@, r@[k].1 as int),
            forall|k1: int, k2: int| 0 <= k1 < k2 < r@.len() ==> r@[k1].1 != r@[k2].1,
            forall|j: int|
                #[trigger] slot_live(other.edges@, j) ==> exists|k1: int, k2: int|
                    0 <= k1 < r@.len() && 0 <= k2 < r@.len() && (#[trigger] r@[k1]).0
                        == other.edges@[j].unwrap().src && (#[trigger] r@[k2]).0
                        == other.edges@[j].unwrap().tgt && copied_edge_present(
                        *final(self),
                        edge_map_func,
                        r@[k1].1,
                        r@[k2].1,
                        other.edges@[j].unwrap().weight,
                        old(self).multigraph,
                    ),
            forall|k: int|
                0 <= k < node_map@.len() ==> attach_edge_added(
                    *final(self),
                    r@,
                    #[trigger] node_map@[k],
                    old(self).multigraph,
                ),
    {
        let n = other.nodes.arena_len();
        let mut r: Vec<(usize, usize)> = Vec::new();
        let mut imgv: Vec<Option<usize>> = Vec::new();
        let mut i: usize = 0;
        while i < n
            invariant
                i <= n,
                n == other.nodes@.len(),
                self.wf(),
                node_map_func is Some ==> forall|v: V|
                    call_requires(node_map_func.unwrap(), (v,)),
                self.multigraph == old(self).multigraph,
                self.node_removed == old(self).node_removed,
                self.edges@ == old(self).edges@,
                forall|x: int|
                    #[trigger] slot_live(old(self).nodes@, x) ==> slot_live(self.nodes@, x)
                        && self.nodes@[x] == old(self).nodes@[x],
                live_count(self.nodes@) == live_count(old(self).nodes@) + live_count(
                    other.nodes@.take(i as int),
                ),
                r@.len() == crate::slot::live_indices(other.nodes@.take(i as int)).len(),
                forall|k: int|
                    0 <= k < r@.len() ==> (#[trigger] r@[k]).0 == crate::slot::live_indices(
                        other.nodes@.take(i as int),
                    )[k],
                forall|k: int|
                    0 <= k < r@.len() ==> (#[trigger] r@[k]).0 < i && slot_live(
                        other.nodes@,
                        r@[k].0 as int,
                    ),
                forall|k: int|
                    0 <= k < r@.len() ==> slot_live(self.nodes@, (#[trigger] r@[k]).1 as int)
                        && payload_mapped(
                        node_map_func,
                        other.nodes@[r@[k].0 as int].unwrap(),
                        self.nodes@[r@[k].1 as int].unwrap(),
                    ) && !slot_live(old(self).nodes@, r@[k].1 as int),
                forall|k1: int, k2: int| 0 <= k1 < k2 < r@.len() ==> r@[k1].1 != r@[k2].1,
                imgv@.len() == i,
                forall|x: int|
                    0 <= x < i ==> ((#[trigger] imgv@[x]) is Some <==> slot_live(other.nodes@, x)),
                forall|x: int|
                    0 <= x < i && (#[trigger] imgv@[x]) is Some ==> !slot_live(
                        old(self).nodes@,
                        imgv@[x].unwrap() as int,
                    ),
                forall|x: int|
                    0 <= x < i && (#[trigger] imgv@[x]) is Some ==> exists|k: int|
                        0 <= k < r@.len() && (#[trigger] r@[k]).0 == x && r@[k].1
                            == imgv@[x].unwrap(),
            decreases n - i,
        {
            proof {
                assert(other.nodes@.take(i + 1).drop_last() =~= other.nodes@.take(i as int));
                crate::slot::lemma_live_count_push(
                    other.nodes@.take(i as int),
                    other.nodes@[i as int],
                );
            }
            let ghost prer = r@;
            let ghost preimg = imgv@;
            match other.nodes.read(i) {
                Some(v) => {
                    let v2 = match &node_map_func {
                        Some(f) => f(v),
                        None => v,
                    };
                    let ghost pre = *self;
                    let h = self.add_node(v2);
                    proof {
                        crate::slot::lemma_first_free_facts(pre.nodes@);
                        assert forall|k: int| 0 <= k < r@.len() implies slot_live(
                            self.nodes@,
                            (#[trigger] r@[k]).1 as int,
                        ) && payload_mapped(
                            node_map_func,
                            other.nodes@[r@[k].0 as int].unwrap(),
                            self.nodes@[r@[k].1 as int].unwrap(),
                        ) && !slot_live(old(self).nodes@, r@[k].1 as int) by {
                            assert(slot_live(pre.nodes@, r@[k].1 as int));
                            assert(self.nodes@[r@[k].1 as int] == pre.nodes@[r@[k].1 as int]);
                        }
                    }
                    r.push((i, h));
                    imgv.push(Some(h));
                    proof {
                        assert forall|x: int|
                            0 <= x < i + 1 && (#[trigger] imgv@[x]) is Some implies exists|k: int|
                            0 <= k < r@.len() && (#[trigger] r@[k]).0 == x && r@[k].1
                                == imgv@[x].unwrap() by {
                            if x < i {
                                assert(imgv@[x] == preimg[x]);
                                let k = choose|k: int|
                                    0 <= k < prer.len() && (#[trigger] prer[k]).0 == x && prer[k].1
                                        == preimg[x].unwrap();
                                assert(r@[k].0 == x && r@[k].1 == imgv@[x].unwrap());
                            } else {
                                assert(r@[r@.len() - 1].0 == x && r@[r@.len() - 1].1
                                    == imgv@[x].unwrap());
                            }
                        }
                    }
                },
                None => {
                    imgv.push(None);
                    proof {
                        assert forall|x: int|
                            0 <= x < i + 1 && (#[trigger] imgv@[x]) is Some implies exists|k: int|
                            0 <= k < r@.len() && (#[trigger] r@[k]).0 == x && r@[k].1
                                == imgv@[x].unwrap() by {
                            assert(x < i);
                            assert(imgv@[x] == preimg[x]);
                            let k = choose|k: int|
                                0 <= k < prer.len() && (#[trigger] prer[k]).0 == x && prer[k].1
                                    == preimg[x].unwrap();
                            assert(r@[k].0 == x && r@[k].1 == imgv@[x].unwrap());
                        }
                    }
                },
            }
            i = i + 1;
        }
        proof {
            assert(other.nodes@.take(n as int) =~= other.nodes@);
        }
        let ghost nodes_done = *self;
        let ghost rfixed = r@;
        let m = other.edges.arena_len();
        let mut j: usize = 0;
        while j < m
            invariant
                j <= m,
                m == other.edges@.len(),
                other.wf(),
                self.wf(),
                old(self).wf(),
                old(self).edges@.len() <= self.edges@.len(),
                r@ == rfixed,
                imgv@.len() == other.nodes@.len(),
                edge_map_func is Some ==> forall|w: E|
                    call_requires(edge_map_func.unwrap(), (w,)),
                self.multigraph == old(self).multigraph,
                self.node_removed == old(self).node_removed,
                self.nodes@ == nodes_done.nodes@,
                nodes_done.edges@ == old(self).edges@,
                forall|x: int|
                    0 <= x < imgv@.len() ==> ((#[trigger] imgv@[x]) is Some <==> slot_live(
                        other.nodes@,
                        x,
                    )),
                forall|x: int|
                    0 <= x < imgv@.len() && (#[trigger] imgv@[x]) is Some ==> slot_live(
                        self.nodes@,
                        imgv@[x].unwrap() as int,
                    ) && !slot_live(old(self).nodes@, imgv@[x].unwrap() as int),
                forall|jj: int|
                    #[trigger] slot_live(old(self).edges@, jj) ==> self.edges@[jj] == old(
                        self,
                    ).edges@[jj],
                forall|jj: int|
                    0 <= jj < j && #[trigger] slot_live(other.edges@, jj) ==> copied_edge_present(
                        *self,
                        edge_map_func,
                        imgv@[other.edges@[jj].unwrap().src as int].unwrap(),
                        imgv@[other.edges@[jj].unwrap().tgt as int].unwrap(),
                        other.edges@[jj].unwrap().weight,
                        self.multigraph,
                    ),
                self.multigraph ==> live_count(self.edges@) == live_count(nodes_done.edges@)
                    + live_count(other.edges@.take(j as int)),
            decreases m - j,
        {
            proof {
                assert(other.edges@.take(j + 1).drop_last() =~= other.edges@.take(j as int));
                crate::slot::lemma_live_count_push(
                    other.edges@.take(j as int),
                    other.edges@[j as int],
                );
            }
            match other.edges.read(j) {
                Some(e) => {
                    proof {
                        assert(slot_live(other.edges@, j as int));
                        assert(slot_live(other.nodes@, e.src as int));
                        assert(slot_live(other.nodes@, e.tgt as int));
                    }
                    let a = imgv[e.src].unwrap();
                    let b = imgv[e.tgt].unwrap();
                    let w2 = match &edge_map_func {
                        Some(f) => f(e.weight),
                        None => e.weight,
                    };
                    let ghost pre = *self;
                    let h = self.insert_or_update_edge(a, b, w2);
                    proof {
                        crate::slot::lemma_first_free_facts(pre.edges@);
                        assert(slot_live(self.edges@, h as int) && connects(
                            self.edges@[h as int].unwrap(),
                            a,
                            b,
                        ));
                        assert forall|jj: int|
                            #[trigger] slot_live(old(self).edges@, jj) implies self.edges@[jj]
                            == old(self).edges@[jj] by {
                            assert(pre.edges@[jj] == old(self).edges@[jj]);
                            if self.edges@[jj] != pre.edges@[jj] {
                                assert(connects(pre.edges@[jj].unwrap(), a, b)
                                    || pre.edges@[jj] is None);
                                assert(!slot_live(old(self).nodes@, b as int));
                                assert(slot_live(
                                    old(self).nodes@,
                                    old(self).edges@[jj].unwrap().src as int,
                                ));
                                assert(slot_live(
                                    old(self).nodes@,
                                    old(self).edges@[jj].unwrap().tgt as int,
                                ));
                                assert(false);
                            }
                        }
                        assert forall|jj: int|
                            0 <= jj < j + 1 && #[trigger] slot_live(
                                other.edges@,
                                jj,
                            ) implies copied_edge_present(
                            *self,
                            edge_map_func,
                            imgv@[other.edges@[jj].unwrap().src as int].unwrap(),
                            imgv@[other.edges@[jj].unwrap().tgt as int].unwrap(),
                            other.edges@[jj].unwrap().weight,
                            self.multigraph,
                        ) by {
                            let aa = imgv@[other.edges@[jj].unwrap().src as int].unwrap();
                            let bb = imgv@[other.edges@[jj].unwrap().tgt as int].unwrap();
                            let ww = other.edges@[jj].unwrap().weight;
                            if jj < j {
                                let w0 = choose|w0: int| #[trigger]
                                    slot_live(pre.edges@, w0) && connects(
                                        pre.edges@[w0].unwrap(),
                                        aa,
                                        bb,
                                    );
                                assert(slot_live(self.edges@, w0) && connects(
                                    self.edges@[w0].unwrap(),
                                    aa,
                                    bb,
                                ));
                                if self.multigraph {
                                    let w1 = choose|w1: int| #[trigger]
                                        slot_live(pre.edges@, w1) && connects(
                                            pre.edges@[w1].unwrap(),
                                            aa,
                                            bb,
                                        ) && payload_mapped(
                                            edge_map_func,
                                            ww,
                                            pre.edges@[w1].unwrap().weight,
                                        );
                                    assert(pre.edges@[w1] is None || self.edges@[w1]
                                        == pre.edges@[w1]);
                                    assert(slot_live(self.edges@, w1) && connects(
                                        self.edges@[w1].unwrap(),
                                        aa,
                                        bb,
                                    ) && payload_mapped(
                                        edge_map_func,
                                        ww,
                                        self.edges@[w1].unwrap().weight,
                                    ));
                                }
                            } else {
                                assert(aa == a && bb == b && ww == e.weight);
                                assert(payload_mapped(edge_map_func, e.weight, w2));
                                if self.multigraph {
                                    assert(self.edges@[h as int].unwrap().weight == w2);
                                }
                                assert(has_edge_between(self.edges@, aa, bb));
                            }
                        }
                    }
                },
                None => {},
            }
            j = j + 1;
        }
        proof {
            assert(other.edges@.take(m as int) =~= other.edges@);
        }
        let ghost edges_done = *self;
        let p = node_map.len();
        let mut k: usize = 0;
        while k < p
            invariant
                k <= p,
                p == node_map@.len(),
                other.wf(),
                self.wf(),
                old(self).wf(),
                old(self).edges@.len() <= self.edges@.len(),
                r@ == rfixed,
                imgv@.len() == other.nodes@.len(),
                edge_map_func is Some ==> forall|w: E|
                    call_requires(edge_map_func.unwrap(), (w,)),
                self.multigraph == old(self).multigraph,
                self.node_removed == old(self).node_removed,
                self.nodes@ == edges_done.nodes@,
                forall|x: int|
                    0 <= x < node_map@.len() ==> slot_live(
                        self.nodes@,
                        (#[trigger] node_map@[x]).0 as int,
                    ) && slot_live(old(self).nodes@, node_map@[x].0 as int) && slot_live(
                        other.nodes@,
                        node_map@[x].1.0 as int,
                    ),
                forall|x: int|
                    0 <= x < imgv@.len() ==> ((#[trigger] imgv@[x]) is Some <==> slot_live(
                        other.nodes@,
                        x,
                    )),
                forall|x: int|
                    0 <= x < imgv@.len() && (#[trigger] imgv@[x]) is Some ==> slot_live(
                        self.nodes@,
                        imgv@[x].unwrap() as int,
                    ) && !slot_live(old(self).nodes@, imgv@[x].unwrap() as int),
                forall|x: int|
                    0 <= x < imgv@.len() && (#[trigger] imgv@[x]) is Some ==> exists|kk: int|
                        0 <= kk < r@.len() && (#[trigger] r@[kk]).0 == x && r@[kk].1
                            == imgv@[x].unwrap(),
                forall|jj: int|
                    #[trigger] slot_live(old(self).edges@, jj) ==> self.edges@[jj] == old(
                        self,
                    ).edges@[jj],
                forall|jj: int|
                    #[trigger] slot_live(other.edges@, jj) ==> copied_edge_present(
                        *self,
                        edge_map_func,
                        imgv@[other.edges@[jj].unwrap().src as int].unwrap(),
                        imgv@[other.edges@[jj].unwrap().tgt as int].unwrap(),
                        other.edges@[jj].unwrap().weight,
                        self.multigraph,
                    ),
                forall|x: int|
                    0 <= x < k ==> attach_edge_added(
                        *self,
                        r@,
                        #[trigger] node_map@[x],
                        self.multigraph,
                    ),
                self.multigraph ==> live_count(self.edges@) == live_count(edges_done.edges@) + k,
            decreases p - k,
        {
            let (s, ow) = node_map[k];
            let (o, w) = ow;
            let img = imgv[o].unwrap();
            let ghost pre = *self;
            let h = self.insert_or_update_edge(s, img, w);
            proof {
                crate::slot::lemma_first_free_facts(pre.edges@);
                assert(slot_live(self.edges@, h as int) && connects(
                    self.edges@[h as int].unwrap(),
                    s,
                    img,
                ));
                assert forall|jj: int|
                    #[trigger] slot_live(old(self).edges@, jj) implies self.edges@[jj] == old(
                    self,
                ).edges@[jj] by {
                    assert(pre.edges@[jj] == old(self).edges@[jj]);
                    if self.edges@[jj] != pre.edges@[jj] {
                        assert(connects(pre.edges@[jj].unwrap(), s, img)
                            || pre.edges@[jj] is None);
                        assert(!slot_live(old(self).nodes@, img as int));
                        assert(slot_live(
                            old(self).nodes@,
                            old(self).edges@[jj].unwrap().src as int,
                        ));
                        assert(slot_live(
                            old(self).nodes@,
                            old(self).edges@[jj].unwrap().tgt as int,
                        ));
                        assert(false);
                    }
                }
                assert forall|jj: int|
                    #[trigger] slot_live(other.edges@, jj) implies copied_edge_present(
                    *self,
                    edge_map_func,
                    imgv@[other.edges@[jj].unwrap().src as int].unwrap(),
                    imgv@[other.edges@[jj].unwrap().tgt as int].unwrap(),
                    other.edges@[jj].unwrap().weight,
                    self.multigraph,
                ) by {
                    let aa = imgv@[other.edges@[jj].unwrap().src as int].unwrap();
                    let bb = imgv@[other.edges@[jj].unwrap().tgt as int].unwrap();
                    let ww = other.edges@[jj].unwrap().weight;
                    let w0 = choose|w0: int| #[trigger]
                        slot_live(pre.edges@, w0) && connects(pre.edges@[w0].unwrap(), aa, bb);
                    assert(slot_live(self.edges@, w0) && connects(
                        self.edges@[w0].unwrap(),
                        aa,
                        bb,
                    ));
                    if self.multigraph {
                        let w1 = choose|w1: int| #[trigger]
                            slot_live(pre.edges@, w1) && connects(pre.edges@[w1].unwrap(), aa, bb)
                                && payload_mapped(edge_map_func, ww, pre.edges@[w1].unwrap().weight);
                        assert(pre.edges@[w1] is None || self.edges@[w1] == pre.edges@[w1]);
                        assert(slot_live(self.edges@, w1) && connects(
                            self.edges@[w1].unwrap(),
                            aa,
                            bb,
                        ) && payload_mapped(edge_map_func, ww, self.edges@[w1].unwrap().weight));
                    }
                }
                assert forall|x: int| 0 <= x < k + 1 implies attach_edge_added(
                    *self,
                    r@,
                    #[trigger] node_map@[x],
                    self.multigraph,
                ) by {
                    if x < k {
                        let k2 = choose|k2: int|
                            0 <= k2 < r@.len() && (#[trigger] r@[k2]).0 == node_map@[x].1.0
                                && has_edge_between(pre.edges@, node_map@[x].0, r@[k2].1) && (
                            pre.multigraph ==> exists|jj: int| #[trigger]
                                slot_live(pre.edges@, jj) && connects(
                                    pre.edges@[jj].unwrap(),
                                    node_map@[x].0,
                                    r@[k2].1,
                                ) && pre.edges@[jj].unwrap().weight == node_map@[x].1.1);
                        let ww = choose|ww: int| #[trigger]
                            slot_live(pre.edges@, ww) && connects(
                                pre.edges@[ww].unwrap(),
                                node_map@[x].0,
                                r@[k2].1,
                            );
                        assert(slot_live(self.edges@, ww) && connects(
                            self.edges@[ww].unwrap(),
                            node_map@[x].0,
                            r@[k2].1,
                        ));
                        if self.multigraph {
                            let w1 = choose|w1: int| #[trigger]
                                slot_live(pre.edges@, w1) && connects(
                                    pre.edges@[w1].unwrap(),
                                    node_map@[x].0,
                                    r@[k2].1,
                                ) && pre.edges@[w1].unwrap().weight == node_map@[x].1.1;
                            assert(pre.edges@[w1] is None || self.edges@[w1] == pre.edges@[w1]);
                            assert(slot_live(self.edges@, w1) && connects(
                                self.edges@[w1].unwrap(),
                                node_map@[x].0,
                                r@[k2].1,
                            ) && self.edges@[w1].unwrap().weight == node_map@[x].1.1);
                        }
                    } else {
                        let k2 = choose|kk: int|
                            0 <= kk < r@.len() && (#[trigger] r@[kk]).0 == o as int && r@[kk].1
                                == imgv@[o as int].unwrap();
                        assert(r@[k2].0 == node_map@[x].1.0);
                        assert(has_edge_between(self.edges@, node_map@[x].0, r@[k2].1));
                        if self.multigraph {
                            assert(self.edges@[h as int].unwrap().weight == w);
                        }
                    }
                }
            }
            k = k + 1;
        }
        proof {
            assert forall|jj: int| #[trigger] slot_live(other.edges@, jj) implies exists|
                k1: int,
                k2: int,
            |
                0 <= k1 < r@.len() && 0 <= k2 < r@.len() && (#[trigger] r@[k1]).0
                    == other.edges@[jj].unwrap().src && (#[trigger] r@[k2]).0
                    == other.edges@[jj].unwrap().tgt && copied_edge_present(
                    *self,
                    edge_map_func,
                    r@[k1].1,
                    r@[k2].1,
                    other.edges@[jj].unwrap().weight,
                    self.multigraph,
                ) by {
                let src = other.edges@[jj].unwrap().src;
                let tgt = other.edges@[jj].unwrap().tgt;
                assert(slot_live(other.nodes@, src as int));
                assert(slot_live(other.nodes@, tgt as int));
                assert(imgv@[src as int] is Some && imgv@[tgt as int] is Some);
                let k1 = choose|k: int|
                    0 <= k < r@.len() && (#[trigger] r@[k]).0 == src as int && r@[k].1 == imgv@[
                        src as int].unwrap();
                let k2 = choose|k: int|
                    0 <= k < r@.len() && (#[trigger] r@[k]).0 == tgt as int && r@[k].1 == imgv@[
                        tgt as int].unwrap();
                assert(copied_edge_present(
                    *self,
                    edge_map_func,
                    r@[k1].1,
                    r@[k2].1,
                    other.edges@[jj].unwrap().weight,
                    self.multigraph,
                ));
            }
        }
        r
    }


    /// The edge-induced subgraph: listed pairs that no live edge joins are
    /// ignored; the nodes kept are exactly the endpoints of the remaining
    /// pairs, and an edge survives exactly when its unordered endpoint
    /// pair is one of them.  Handles are preserved, so the result is a
    /// clone with the untouched nodes and edges removed.
    pub fn edge_subgraph(&self, edge_list: Vec<(usize, usize)>) -> (out: PyGraph<V, E>)
        requires
            self.wf(),
        ensures
            out.wf(),
            out.multigraph == self.multigraph,
            out.node_removed == (self.node_removed || exists|i: usize|
                i < self.nodes@.len() && #[trigger] slot_live(self.nodes@, i as int)
                    && !node_in_selection(self.edges@, edge_list@, i)),
            out.nodes@.len() == self.nodes@.len(),
            forall|i: usize|
                i < self.nodes@.len() ==> out.nodes@[i as int] == (if slot_live(
                    self.nodes@,
                    i as int,
                ) && node_in_selection(self.edges@, edge_list@, i) {
                    self.nodes@[i as int]
                } else {
                    None
                }),
            out.edges@.len() == self.edges@.len(),
            forall|j: int|
                0 <= j < self.edges@.len() ==> out.edges@[j] == (if slot_live(self.edges@, j)
                    && pair_selected(
                    self.edges@,
                    edge_list@,
                    self.edges@[j].unwrap().src,
                    self.edges@[j].unwrap().tgt,
                ) {
                    self.edges@[j]
                } else {
                    None
                }),
    {
        let p = edge_list.len();
        let mut filtered: Vec<(usize, usize)> = Vec::new();
        let mut k: usize = 0;
        while k < p
            invariant
                k <= p,
                p == edge_list@.len(),
                filtered_sound(self.edges@, edge_list@, filtered@),
                filtered_complete(self.edges@, edge_list@, filtered@, k as int),
            decreases p - k,
        {
            let (a, b) = edge_list[k];
            let ghost pref = filtered@;
            if self.has_edge(a, b) {
                filtered.push((a, b));
                proof {
                    assert(filtered_sound(self.edges@, edge_list@, pref));
                    assert forall|y: int| 0 <= y < filtered@.len() implies exists|kk: int|
                        0 <= kk < edge_list@.len() && edge_list@[kk] == (#[trigger] filtered@[y])
                            && has_edge_between(
                            self.edges@,
                            filtered@[y].0,
                            filtered@[y].1,
                        ) by {
                        if y < pref.len() {
                            assert(filtered@[y] == pref[y]);
                            let kk = choose|kk: int|
                                0 <= kk < edge_list@.len() && edge_list@[kk] == (
                                #[trigger] pref[y]) && has_edge_between(
                                    self.edges@,
                                    pref[y].0,
                                    pref[y].1,
                                );
                            assert(edge_list@[kk] == filtered@[y]);
                        } else {
                            assert(filtered@[y] == (a, b));
                            assert(edge_list@[k as int] == filtered@[y]);
                        }
                    }
                }
            }
            proof {
                assert forall|kk: int|
                    0 <= kk < k + 1 && has_edge_between(
                        self.edges@,
                        (#[trigger] edge_list@[kk]).0,
                        edge_list@[kk].1,
                    ) implies filtered@.contains(edge_list@[kk]) by {
                    assert(filtered_complete(self.edges@, edge_list@, pref, k as int));
                    if kk < k {
                        assert(pref.contains(edge_list@[kk]));
                        let y = choose|y: int|
                            0 <= y < pref.len() && (#[trigger] pref[y]) == edge_list@[kk];
                        assert(filtered@[y] == edge_list@[kk]);
                    } else {
                        assert(filtered@[filtered@.len() - 1] == edge_list@[kk]);
                    }
                }
            }
            k = k + 1;
        }
        let mut out = self.copy();
        let n = self.nodes.arena_len();
        let mut i: usize = 0;
        while i < n
            invariant
                i <= n,
                n == self.nodes@.len(),
                self.wf(),
                out.wf(),
                out.multigraph == self.multigraph,
                out.node_removed == (self.node_removed || exists|i2: usize|
                    (i2 as int) < i && #[trigger] slot_live(self.nodes@, i2 as int)
                        && !node_in_selection(self.edges@, edge_list@, i2)),
                out.nodes@.len() == self.nodes@.len(),
                out.edges@.len() == self.edges@.len(),
                filtered_sound(self.edges@, edge_list@, filtered@),
                filtered_complete(self.edges@, edge_list@, filtered@, edge_list@.len() as int),
                forall|ii: usize|
                    ii < self.nodes@.len() ==> out.nodes@[ii as int] == (if ii < i && slot_live(
                        self.nodes@,
                        ii as int,
                    ) && !node_in_selection(self.edges@, edge_list@, ii) {
                        None
                    } else {
                        self.nodes@[ii as int]
                    }),
                forall|j: int|
                    0 <= j < self.edges@.len() ==> (#[trigger] out.edges@[j]) == node_phase_edge(
                        self.nodes@,
                        self.edges@,
                        edge_list@,
                        j,
                        i as int,
                    ),
            decreases n - i,
        {
            let live_here = self.nodes.is_live(i);
            if live_here && !hits_filtered(&filtered, i) {
                proof {
                    assert forall|kk: int|
                        0 <= kk < edge_list@.len() implies !(has_edge_between(
                        self.edges@,
                        (#[trigger] edge_list@[kk]).0,
                        edge_list@[kk].1,
                    ) && (edge_list@[kk].0 == i || edge_list@[kk].1 == i)) by {
                        if has_edge_between(self.edges@, edge_list@[kk].0, edge_list@[kk].1) {
                            assert(filtered@.contains(edge_list@[kk]));
                            let y2 = choose|y2: int|
                                0 <= y2 < filtered@.len() && (#[trigger] filtered@[y2])
                                    == edge_list@[kk];
                            assert(filtered@[y2].0 != i && filtered@[y2].1 != i);
                        }
                    }
                    assert(!node_in_selection(self.edges@, edge_list@, i));
                }
                let ghost preo = out;
                out.remove_node(i);
                proof {
                    assert(slot_live(self.nodes@, i as int) && !node_in_selection(
                        self.edges@,
                        edge_list@,
                        i,
                    ));
                    assert(out.node_removed == (self.node_removed || exists|i2: usize|
                        (i2 as int) < i + 1 && #[trigger] slot_live(self.nodes@, i2 as int)
                            && !node_in_selection(self.edges@, edge_list@, i2)));
                    assert forall|j: int|
                        0 <= j < self.edges@.len() implies (#[trigger] out.edges@[j])
                        == node_phase_edge(
                        self.nodes@,
                        self.edges@,
                        edge_list@,
                        j,
                        i + 1,
                    ) by {
                        if slot_live(self.edges@, j) {
                            if out.edges@[j] is None {
                                if preo.edges@[j] is None {
                                    let x = choose|x: usize|
                                        (x as int) < i && slot_live(self.nodes@, x as int)
                                            && !node_in_selection(self.edges@, edge_list@, x)
                                            && touches(self.edges@[j].unwrap(), x);
                                    assert(dropped_by_nodes(
                                        self.nodes@,
                                        self.edges@,
                                        edge_list@,
                                        self.edges@[j].unwrap(),
                                        i + 1,
                                    ));
                                } else {
                                    assert(preo.edges@[j] == self.edges@[j]);
                                    assert(touches(self.edges@[j].unwrap(), i));
                                    assert(dropped_by_nodes(
                                        self.nodes@,
                                        self.edges@,
                                        edge_list@,
                                        self.edges@[j].unwrap(),
                                        i + 1,
                                    ));
                                }
                            } else {
                                assert(preo.edges@[j] == self.edges@[j]);
                                assert(!touches(preo.edges@[j].unwrap(), i));
                                if dropped_by_nodes(
                                    self.nodes@,
                                    self.edges@,
                                    edge_list@,
                                    self.edges@[j].unwrap(),
                                    i + 1,
                                ) {
                                    let x = choose|x: usize|
                                        (x as int) < i + 1 && slot_live(self.nodes@, x as int)
                                            && !node_in_selection(self.edges@, edge_list@, x)
                                            && touches(self.edges@[j].unwrap(), x);
                                    assert((x as int) < i);
                                    assert(dropped_by_nodes(
                                        self.nodes@,
                                        self.edges@,
                                        edge_list@,
                                        self.edges@[j].unwrap(),
                                        i as int,
                                    ));
                                    assert(false);
                                }
                            }
                        }
                    }
                }
            } else {
                proof {
                    assert(out.node_removed == (self.node_removed || exists|i2: usize|
                        (i2 as int) < i + 1 && #[trigger] slot_live(self.nodes@, i2 as int)
                            && !node_in_selection(self.edges@, edge_list@, i2))) by {
                        if exists|i2: usize|
                            (i2 as int) < i + 1 && #[trigger] slot_live(self.nodes@, i2 as int)
                                && !node_in_selection(self.edges@, edge_list@, i2) {
                            let i2 = choose|i2: usize|
                                (i2 as int) < i + 1 && #[trigger] slot_live(
                                    self.nodes@,
                                    i2 as int,
                                ) && !node_in_selection(self.edges@, edge_list@, i2);
                            if i2 == i {
                                if live_here {
                                    assert(hits_filtered_spec(filtered@, i));
                                    let y2 = choose|y2: int|
                                        0 <= y2 < filtered@.len() && ((#[trigger] filtered@[y2]).0
                                            == i || filtered@[y2].1 == i);
                                    let kk = choose|kk: int|
                                        0 <= kk < edge_list@.len() && edge_list@[kk] == (
                                        #[trigger] filtered@[y2]) && has_edge_between(
                                            self.edges@,
                                            filtered@[y2].0,
                                            filtered@[y2].1,
                                        );
                                    assert(node_in_selection(self.edges@, edge_list@, i));
                                    assert(false);
                                } else {
                                    assert(!slot_live(self.nodes@, i as int));
                                    assert(false);
                                }
                            } else {
                                assert((i2 as int) < i);
                            }
                        }
                    }
                    assert forall|j: int|
                        0 <= j < self.edges@.len() implies (#[trigger] out.edges@[j])
                        == node_phase_edge(
                        self.nodes@,
                        self.edges@,
                        edge_list@,
                        j,
                        i + 1,
                    ) by {
                        if slot_live(self.edges@, j) {
                            if dropped_by_nodes(
                                self.nodes@,
                                self.edges@,
                                edge_list@,
                                self.edges@[j].unwrap(),
                                i + 1,
                            ) {
                                let x = choose|x: usize|
                                    (x as int) < i + 1 && slot_live(self.nodes@, x as int)
                                        && !node_in_selection(self.edges@, edge_list@, x)
                                        && touches(self.edges@[j].unwrap(), x);
                                if x == i {
                                    if live_here {
                                        assert(hits_filtered_spec(filtered@, i));
                                        let y2 = choose|y2: int|
                                            0 <= y2 < filtered@.len() && ((
                                            #[trigger] filtered@[y2]).0 == i || filtered@[y2].1
                                                == i);
                                        let kk = choose|kk: int|
                                            0 <= kk < edge_list@.len() && edge_list@[kk] == (
                                            #[trigger] filtered@[y2]) && has_edge_between(
                                                self.edges@,
                                                filtered@[y2].0,
                                                filtered@[y2].1,
                                            );
                                        assert(node_in_selection(self.edges@, edge_list@, i));
                                        assert(false);
                                    }
                                    assert(false);
                                }
                                assert(dropped_by_nodes(
                                    self.nodes@,
                                    self.edges@,
                                    edge_list@,
                                    self.edges@[j].unwrap(),
                                    i as int,
                                ));
                            } else {
                                if dropped_by_nodes(
                                    self.nodes@,
                                    self.edges@,
                                    edge_list@,
                                    self.edges@[j].unwrap(),
                                    i as int,
                                ) {
                                    let x = choose|x: usize|
                                        (x as int) < i && slot_live(self.nodes@, x as int)
                                            && !node_in_selection(self.edges@, edge_list@, x)
                                            && touches(self.edges@[j].unwrap(), x);
                                    assert(dropped_by_nodes(
                                        self.nodes@,
                                        self.edges@,
                                        edge_list@,
                                        self.edges@[j].unwrap(),
                                        i + 1,
                                    ));
                                    assert(false);
                                }
                            }
                        }
                    }
                }
            }
            i = i + 1;
        }
        let m = self.edges.arena_len();
        let ghost nodes_phase = out;
        let mut j: usize = 0;
        while j < m
            invariant
                j <= m,
                m == self.edges@.len(),
                n == self.nodes@.len(),
                self.wf(),
                out.wf(),
                out.multigraph == self.multigraph,
                self.node_removed ==> out.node_removed,
                out.nodes@ == nodes_phase.nodes@,
                out.node_removed == (self.node_removed || exists|i2: usize|
                    i2 < self.nodes@.len() && #[trigger] slot_live(self.nodes@, i2 as int)
                        && !node_in_selection(self.edges@, edge_list@, i2)),
                out.nodes@.len() == self.nodes@.len(),
                out.edges@.len() == self.edges@.len(),
                filtered_sound(self.edges@, edge_list@, filtered@),
                filtered_complete(self.edges@, edge_list@, filtered@, edge_list@.len() as int),
                forall|ii: usize|
                    ii < self.nodes@.len() ==> out.nodes@[ii as int] == (if (ii as int) < n
                        && slot_live(self.nodes@, ii as int) && !node_in_selection(
                        self.edges@,
                        edge_list@,
                        ii,
                    ) {
                        None
                    } else {
                        self.nodes@[ii as int]
                    }),
                forall|jj: int|
                    j <= jj < self.edges@.len() ==> out.edges@[jj] == nodes_phase.edges@[jj],
                forall|jj: int|
                    0 <= jj < self.edges@.len() ==> (#[trigger] nodes_phase.edges@[jj])
                        == node_phase_edge(self.nodes@, self.edges@, edge_list@, jj, n as int),
                forall|jj: int|
                    0 <= jj < j ==> out.edges@[jj] == (if slot_live(self.edges@, jj)
                        && pair_selected(
                        self.edges@,
                        edge_list@,
                        self.edges@[jj].unwrap().src,
                        self.edges@[jj].unwrap().tgt,
                    ) {
                        self.edges@[jj]
                    } else {
                        None
                    }),
            decreases m - j,
        {
            match self.edges.read(j) {
                Some(e) => {
                    let ghost preo = out;
                    if !pair_in_filtered(&filtered, e.src, e.tgt) {
                        out.remove_edge_from_index(j);
                        proof {
                            assert(e == self.edges@[j as int].unwrap());
                            assert(out.edges@[j as int] is None);
                            assert(!pair_selected(self.edges@, edge_list@, e.src, e.tgt)) by {
                                if pair_selected(self.edges@, edge_list@, e.src, e.tgt) {
                                    let kk = choose|kk: int|
                                        0 <= kk < edge_list@.len() && has_edge_between(
                                            self.edges@,
                                            (#[trigger] edge_list@[kk]).0,
                                            edge_list@[kk].1,
                                        ) && ((edge_list@[kk].0 == e.src && edge_list@[kk].1
                                            == e.tgt) || (edge_list@[kk].0 == e.tgt
                                            && edge_list@[kk].1 == e.src));
                                    assert(filtered@.contains(edge_list@[kk]));
                                    let y2 = choose|y2: int|
                                        0 <= y2 < filtered@.len() && (#[trigger] filtered@[y2])
                                            == edge_list@[kk];
                                    assert(pair_hits_spec(filtered@, e.src, e.tgt));
                                    assert(false);
                                }
                            }
                        }
                    } else {
                        proof {
                            assert(e == self.edges@[j as int].unwrap());
                            let y2 = choose|y2: int|
                                0 <= y2 < filtered@.len() && (((#[trigger] filtered@[y2]).0
                                    == e.src && filtered@[y2].1 == e.tgt) || (filtered@[y2].0
                                    == e.tgt && filtered@[y2].1 == e.src));
                            let kk = choose|kk: int|
                                0 <= kk < edge_list@.len() && edge_list@[kk] == (
                                #[trigger] filtered@[y2]) && has_edge_between(
                                    self.edges@,
                                    filtered@[y2].0,
                                    filtered@[y2].1,
                                );
                            assert(pair_selected(self.edges@, edge_list@, e.src, e.tgt));
                            assert(slot_live(self.edges@, j as int));
                            assert(slot_live(self.nodes@, e.src as int));
                            assert(slot_live(self.nodes@, e.tgt as int));
                            assert(node_in_selection(self.edges@, edge_list@, e.src));
                            assert(node_in_selection(self.edges@, edge_list@, e.tgt));
                            assert(out.edges@[j as int] == self.edges@[j as int]) by {
                                if dropped_by_nodes(
                                    self.nodes@,
                                    self.edges@,
                                    edge_list@,
                                    self.edges@[j as int].unwrap(),
                                    n as int,
                                ) {
                                    let x = choose|x: usize|
                                        (x as int) < n && slot_live(self.nodes@, x as int)
                                            && !node_in_selection(self.edges@, edge_list@, x)
                                            && touches(self.edges@[j as int].unwrap(), x);
                                    assert(x == e.src || x == e.tgt);
                                    assert(false);
                                }
                            }
                        }
                    }
                },
                None => {
                    proof {
                        assert(out.edges@[j as int] == nodes_phase.edges@[j as int]);
                        assert(out.edges@[j as int] is None);
                    }
                },
            }
            j = j + 1;
        }
        out
    }

    /// The handles of the live nodes whose payload the filter accepts, in
    /// increasing order.
    pub fn filter_nodes<F: Fn(V) -> bool>(&self, filter_function: F) -> (r: Vec<usize>)
        requires
            forall|v: V| call_requires(filter_function, (v,)),
        ensures
            forall|k1: int, k2: int| 0 <= k1 < k2 < r@.len() ==> r@[k1] < r@[k2],
            forall|k: int|
                0 <= k < r@.len() ==> slot_live(self.nodes@, (#[trigger] r@[k]) as int)
                    && call_ensures(
                    filter_function,
                    (self.nodes@[r@[k] as int].unwrap(),),
                    true,
                ),
            forall|i: usize|
                #[trigger] slot_live(self.nodes@, i as int) && !r@.contains(i) ==> call_ensures(
                    filter_function,
                    (self.nodes@[i as int].unwrap(),),
                    false,
                ),
    {
        let n = self.nodes.arena_len();
        let mut r: Vec<usize> = Vec::new();
        let mut i: usize = 0;
        while i < n
            invariant
                i <= n,
                n == self.nodes@.len(),
                forall|v: V| call_requires(filter_function, (v,)),
                forall|k1: int, k2: int| 0 <= k1 < k2 < r@.len() ==> r@[k1] < r@[k2],
                forall|k: int| 0 <= k < r@.len() ==> (#[trigger] r@[k]) < i,
                forall|k: int|
                    0 <= k < r@.len() ==> slot_live(self.nodes@, (#[trigger] r@[k]) as int)
                        && call_ensures(
                        filter_function,
                        (self.nodes@[r@[k] as int].unwrap(),),
                        true,
                    ),
                forall|x: usize|
                    x < i && #[trigger] slot_live(self.nodes@, x as int) && !r@.contains(x)
                        ==> call_ensures(
                        filter_function,
                        (self.nodes@[x as int].unwrap(),),
                        false,
                    ),
            decreases n - i,
        {
            let ghost prer = r@;
            match self.nodes.read(i) {
                Some(v) => {
                    if filter_function(v) {
                        r.push(i);
                        proof {
                            assert forall|x: usize|
                                x < i + 1 && #[trigger] slot_live(self.nodes@, x as int)
                                    && !r@.contains(x) implies call_ensures(
                                filter_function,
                                (self.nodes@[x as int].unwrap(),),
                                false,
                            ) by {
                                if x < i {
                                    assert(!prer.contains(x)) by {
                                        if prer.contains(x) {
                                            let k = choose|k: int|
                                                0 <= k < prer.len() && (#[trigger] prer[k]) == x;
                                            assert(r@[k] == x);
                                        }
                                    }
                                } else {
                                    assert(r@[r@.len() - 1] == x);
                                }
                            }
                        }
                    }
                },
                None => {},
            }
            i = i + 1;
        }
        r
    }

    /// The handles of the live edges whose payload the filter accepts, in
    /// increasing order.
    pub fn filter_edges<F: Fn(E) -> bool>(&self, filter_function: F) -> (r: Vec<usize>)
        requires
            forall|w: E| call_requires(filter_function, (w,)),
        ensures
            forall|k1: int, k2: int| 0 <= k1 < k2 < r@.len() ==> r@[k1] < r@[k2],
            forall|k: int|
                0 <= k < r@.len() ==> slot_live(self.edges@, (#[trigger] r@[k]) as int)
                    && call_ensures(
                    filter_function,
                    (self.edges@[r@[k] as int].unwrap().weight,),
                    true,
                ),
            forall|j: usize|
                #[trigger] slot_live(self.edges@, j as int) && !r@.contains(j) ==> call_ensures(
                    filter_function,
                    (self.edges@[j as int].unwrap().weight,),
                    false,
                ),
    {
        let m = self.edges.arena_len();
        let mut r: Vec<usize> = Vec::new();
        let mut j: usize = 0;
        while j < m
            invariant
                j <= m,
                m == self.edges@.len(),
                forall|w: E| call_requires(filter_function, (w,)),
                forall|k1: int, k2: int| 0 <= k1 < k2 < r@.len() ==> r@[k1] < r@[k2],
                forall|k: int| 0 <= k < r@.len() ==> (#[trigger] r@[k]) < j,
                forall|k: int|
                    0 <= k < r@.len() ==> slot_live(self.edges@, (#[trigger] r@[k]) as int)
                        && call_ensures(
                        filter_function,
                        (self.edges@[r@[k] as int].unwrap().weight,),
                        true,
                    ),
                forall|x: usize|
                    x < j && #[trigger] slot_live(self.edges@, x as int) && !r@.contains(x)
                        ==> call_ensures(
                        filter_function,
                        (self.edges@[x as int].unwrap().weight,),
                        false,
                    ),
            decreases m - j,
        {
            let ghost prer = r@;
            match self.edges.read(j) {
                Some(e) => {
                    if filter_function(e.weight) {
                        r.push(j);
                        proof {
                            assert forall|x: usize|
                                x < j + 1 && #[trigger] slot_live(self.edges@, x as int)
                                    && !r@.contains(x) implies call_ensures(
                                filter_function,
                                (self.edges@[x as int].unwrap().weight,),
                                false,
                            ) by {
                                if x < j {
                                    assert(!prer.contains(x)) by {
                                        if prer.contains(x) {
                                            let k = choose|k: int|
                                                0 <= k < prer.len() && (#[trigger] prer[k]) == x;
                                            assert(r@[k] == x);
                                        }
                                    }
                                } else {
                                    assert(r@[r@.len() - 1] == x);
                                }
                            }
                        }
                    }
                },
                None => {},
            }
            j = j + 1;
        }
        r
    }

    /// The node-induced subgraph over the listed handles, without the
    /// handle map.
    pub fn subgraph(&self, nodes: Vec<usize>) -> (sub: PyGraph<V, E>)
        requires
            self.wf(),
        ensures
            ({
                let sp = selected_pairs(self.nodes@, nodes@);
                let se = selected_edges(self.edges@, nodes@);
                &&& sub.wf()
                &&& sub.multigraph == self.multigraph
                &&& sub.node_removed == false
                &&& sub.nodes@.len() == sp.len()
                &&& forall|k: int|
                    0 <= k < sp.len() ==> (#[trigger] sub.nodes@[k]) == Some(sp[k].1)
                &&& sub.edges@.len() == se.len()
                &&& forall|j: int|
                    0 <= j < se.len() ==> (#[trigger] sub.edges@[j]) is Some
                        && sub.edges@[j].unwrap().weight == se[j].weight && sub.edges@[j].unwrap().src
                        < sp.len() && sub.edges@[j].unwrap().tgt < sp.len() && sp[sub.edges@[j].unwrap().src as int].0
                        == se[j].src && sp[sub.edges@[j].unwrap().tgt as int].0 == se[j].tgt
            }),
    {
        let (sub, _) = self.subgraph_with_nodemap(nodes);
        sub
    }
}

} // verus!
