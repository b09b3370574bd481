//! The state codec: an exact, hole-preserving external representation of a
//! container.
//!
//! The encoding lists every live node as a `(handle, payload)` pair in
//! increasing handle order, and every edge slot up to the edge bound as
//! either an explicit absent marker or a `(source, target, payload)`
//! triple, together with the holes-ever-existed flag.  Decoding rebuilds a
//! container with the same live sets, payloads, bounds and hole positions,
//! using only forward allocation: placeholder nodes close the gaps between
//! encoded handles and are freed afterwards, and a disposable scratch node
//! carries one placeholder self-loop per absent edge slot, so that removing
//! the scratch node at the end re-creates every edge hole in one pass.

use vstd::prelude::*;

use crate::graph::Edge;
use crate::graph::GraphError;
use crate::graph::PyGraph;
use crate::graph::connects;
use crate::slot::SlotStore;
use crate::slot::lemma_live_bound_facts;
use crate::slot::lemma_live_bound_le_len;
use crate::slot::live_bound;
use crate::slot::live_count;
use crate::slot::live_pairs;
use crate::slot::slot_live;

verus! {

/// The external representation of a container: the wire format for save
/// and restore.
pub struct GraphState<V, E> {
    /// Every live node as `(handle, payload)`, in increasing handle order.
    pub nodes: Vec<(usize, V)>,
    /// Every edge slot below the edge bound: an absent marker for a hole,
    /// a `(source, target, payload)` triple for a live edge.
    pub edges: Vec<Option<(usize, usize, E)>>,
    /// Whether a node removal ever happened.
    pub nodes_removed: bool,
}

/// The encoded edge list of an edge arena: one entry per slot below the
/// live bound.
pub open spec fn edge_state<E>(es: Seq<Option<Edge<E>>>) -> Seq<Option<(usize, usize, E)>> {
    Seq::new(
        live_bound(es),
        |j: int|
            match es[j] {
                Some(e) => Some((e.src, e.tgt, e.weight)),
                None => None,
            },
    )
}

/// Whether the handles of an encoded node list are strictly increasing.
pub open spec fn sorted_handles<V>(ns: Seq<(usize, V)>) -> bool {
    forall|k1: int, k2: int| 0 <= k1 < k2 < ns.len() ==> (#[trigger] ns[k1]).0 < (#[trigger] ns[k2]).0
}

/// Whether `i` is one of the handles of an encoded node list.
pub open spec fn is_handle<V>(ns: Seq<(usize, V)>, i: int) -> bool {
    exists|k: int| 0 <= k < ns.len() && (#[trigger] ns[k]).0 as int == i
}

/// Whether two encoded edge triples join the same unordered node pair.
pub open spec fn pair_eq<E>(p: (usize, usize, E), q: (usize, usize, E)) -> bool {
    (p.0 == q.0 && p.1 == q.1) || (p.0 == q.1 && p.1 == q.0)
}

/// Whether an encoded state describes a reachable container: handles
/// strictly increasing (and sequential from zero when no hole ever
/// existed), every encoded edge endpoint an encoded node handle, and no
/// parallel encoded edges unless the container is a multigraph.  An empty
/// node list always decodes, to the empty container.
pub open spec fn valid_state<V, E>(
    nodes: Seq<(usize, V)>,
    edges: Seq<Option<(usize, usize, E)>>,
    nodes_removed: bool,
    multigraph: bool,
) -> bool {
    ||| nodes.len() == 0
    ||| {
        &&& sorted_handles(nodes)
        &&& !nodes_removed ==> forall|k: int|
            0 <= k < nodes.len() ==> (#[trigger] nodes[k]).0 == k
        &&& forall|j: int|
            0 <= j < edges.len() && (#[trigger] edges[j]) is Some ==> is_handle(
                nodes,
                edges[j].unwrap().0 as int,
            ) && is_handle(nodes, edges[j].unwrap().1 as int)
        &&& !multigraph ==> forall|j: int, k: int|
            #![trigger edges[j], edges[k]]
            0 <= j < edges.len() && 0 <= k < edges.len() && j != k && edges[j] is Some && edges[k]
                is Some ==> !pair_eq(edges[j].unwrap(), edges[k].unwrap())
    }
}

/// What decoding promises of the container it returns: the given flags, a
/// node arena whose live pairs are exactly the encoded list, and an edge
/// arena matching the encoded edge list slot for slot — holes included —
/// with nothing live beyond it.
pub open spec fn decode_ok_post<V, E>(
    nodes: Seq<(usize, V)>,
    edges: Seq<Option<(usize, usize, E)>>,
    nodes_removed: bool,
    multigraph: bool,
    g: PyGraph<V, E>,
) -> bool {
    &&& g.wf()
    &&& g.multigraph == multigraph
    &&& g.node_removed == nodes_removed
    &&& if nodes.len() == 0 {
        g.nodes@.len() == 0 && g.edges@.len() == 0
    } else {
        &&& live_pairs(g.nodes@) == nodes
        &&& g.edges@.len() == edges.len()
        &&& forall|j: int|
            0 <= j < edges.len() ==> match (#[trigger] g.edges@[j], edges[j]) {
                (Some(e), Some(t)) => e.src == t.0 && e.tgt == t.1 && e.weight == t.2,
                (None, None) => true,
                _ => false,
            }
    }
}

impl<V: Copy, E: Copy> PyGraph<V, E> {
    /// Encode the whole container state, holes included.
    pub fn encode(&self) -> (st: GraphState<V, E>)
        ensures
            st.nodes@ == live_pairs(self.nodes@),
            st.edges@ == edge_state(self.edges@),
            st.nodes_removed == self.node_removed,
    {
        let n = self.nodes.arena_len();
        let mut ns: Vec<(usize, V)> = Vec::new();
        let mut i: usize = 0;
        while i < n
            invariant
                i <= n,
                n == self.nodes@.len(),
                ns@ =~= live_pairs(self.nodes@.take(i as int)),
            decreases n - i,
        {
            proof {
                assert(self.nodes@.take(i + 1).drop_last() =~= self.nodes@.take(i as int));
            }
            match self.nodes.read(i) {
                Some(v) => {
                    ns.push((i, v));
                },
                None => {},
            }
            i = i + 1;
        }
        proof {
            assert(self.nodes@.take(n as int) =~= self.nodes@);
        }
        let b = self.edges.bound();
        proof {
            lemma_live_bound_le_len(self.edges@);
        }
        let mut es: Vec<Option<(usize, usize, E)>> = Vec::new();
        let mut j: usize = 0;
        while j < b
            invariant
                j <= b,
                b == live_bound(self.edges@),
                b <= self.edges@.len(),
                es@.len() == j,
                forall|jj: int|
                    0 <= jj < j ==> es@[jj] == (match self.edges@[jj] {
                        Some(e) => Some((e.src, e.tgt, e.weight)),
                        None => None,
                    }),
            decreases b - j,
        {
            match self.edges.read(j) {
                Some(e) => {
                    es.push(Some((e.src, e.tgt, e.weight)));
                },
                None => {
                    es.push(None);
                },
            }
            j = j + 1;
        }
        proof {
            assert(es@ =~= edge_state(self.edges@));
        }
        GraphState { nodes: ns, edges: es, nodes_removed: self.node_removed }
    }
}

/// Whether `i` is one of the first `k` handles of an encoded node list.
spec fn is_handle_prefix<V>(ns: Seq<(usize, V)>, k: int, i: int) -> bool {
    exists|kk: int| 0 <= kk < k && (#[trigger] ns[kk]).0 as int == i
}

/// Rebuild a node arena from a sorted non-empty encoded node list: walk
/// the list in order, closing each gap below the next handle with
/// placeholder nodes, then free every placeholder, so that the arena's
/// live slots are exactly the encoded handles.
fn build_nodes<V: Copy>(ns: &Vec<(usize, V)>, node_fill: V) -> (st: SlotStore<V>)
    requires
        ns@.len() > 0,
        sorted_handles(ns@),
    ensures
        st@.len() == ns@[ns@.len() - 1].0 + 1,
        forall|k: int| 0 <= k < ns@.len() ==> st@[(#[trigger] ns@[k]).0 as int] == Some(ns@[k].1),
        forall|i: int| #[trigger] slot_live(st@, i) ==> is_handle(ns@, i),
{
    let n = ns.len();
    let mut st: SlotStore<V> = SlotStore::new();
    let mut ph: Vec<usize> = Vec::new();
    let mut k: usize = 0;
    while k < n
        invariant
            k <= n,
            n == ns@.len(),
            sorted_handles(ns@),
            st@.len() == if k == 0 {
                0int
            } else {
                ns@[k - 1].0 + 1
            },
            forall|i: int| 0 <= i < st@.len() ==> (#[trigger] st@[i]) is Some,
            forall|kk: int|
                0 <= kk < k ==> st@[(#[trigger] ns@[kk]).0 as int] == Some(ns@[kk].1),
            forall|i: usize|
                i < st@.len() && !is_handle_prefix(ns@, k as int, i as int) ==> (
                #[trigger] st@[i as int]) == Some(node_fill) && ph@.contains(i),
            forall|x: int|
                0 <= x < ph@.len() ==> (#[trigger] ph@[x]) < st@.len() && !is_handle(
                    ns@,
                    ph@[x] as int,
                ),
        decreases n - k,
    {
        let h = ns[k].0;
        let v = ns[k].1;
        proof {
            if k > 0 {
                assert(ns@[k - 1].0 < ns@[k as int].0);
            }
        }
        while st.arena_len() < h
            invariant
                k < n,
                n == ns@.len(),
                sorted_handles(ns@),
                h == ns@[k as int].0,
                v == ns@[k as int].1,
                st@.len() <= h,
                k == 0 ==> true,
                k > 0 ==> st@.len() >= ns@[k - 1].0 + 1,
                forall|i: int| 0 <= i < st@.len() ==> (#[trigger] st@[i]) is Some,
                forall|kk: int|
                    0 <= kk < k ==> st@[(#[trigger] ns@[kk]).0 as int] == Some(ns@[kk].1),
                forall|i: usize|
                    i < st@.len() && !is_handle_prefix(ns@, k as int, i as int) ==> (
                    #[trigger] st@[i as int]) == Some(node_fill) && ph@.contains(i),
                forall|x: int|
                    0 <= x < ph@.len() ==> (#[trigger] ph@[x]) < st@.len() && !is_handle(
                        ns@,
                        ph@[x] as int,
                    ),
            decreases h - st@.len(),
        {
            let ghost pre = st@;
            let ghost preph = ph@;
            let t = st.allocate(node_fill);
            proof {
                assert(t == pre.len());
                assert(!is_handle(ns@, t as int)) by {
                    if is_handle(ns@, t as int) {
                        let kk = choose|kk: int|
                            0 <= kk < ns@.len() && (#[trigger] ns@[kk]).0 as int == t as int;
                        if kk < k {
                            assert(ns@[kk].0 < ns@[k as int].0);
                            if k > 0 && kk < k {
                                lemma_sorted_le(ns@, kk, k - 1);
                            }
                        } else {
                            lemma_sorted_le(ns@, k as int, kk);
                        }
                    }
                }
            }
            ph.push(t);
            proof {
                assert forall|i: usize|
                    i < st@.len() && !is_handle_prefix(ns@, k as int, i as int) implies (
                #[trigger] st@[i as int]) == Some(node_fill) && ph@.contains(i) by {
                    if (i as int) < pre.len() {
                        assert(st@[i as int] == pre[i as int]);
                        assert(pre[i as int] == Some(node_fill) && preph.contains(i));
                        let x = choose|x: int| 0 <= x < preph.len() && preph[x] == i;
                        assert(ph@[x] == i);
                    } else {
                        assert(i == t);
                        assert(ph@[ph@.len() - 1] == i);
                    }
                }
            }
        }
        let ghost pre = st@;
        let got = st.allocate(v);
        proof {
            assert(got == h);
            assert(is_handle_prefix(ns@, k + 1, h as int)) by {
                assert((ns@[k as int]).0 as int == h as int);
            }
            assert forall|i: usize|
                i < st@.len() && !is_handle_prefix(ns@, k + 1, i as int) implies (
            #[trigger] st@[i as int]) == Some(node_fill) && ph@.contains(i) by {
                assert(i != h);
                assert(!is_handle_prefix(ns@, k as int, i as int)) by {
                    if is_handle_prefix(ns@, k as int, i as int) {
                        let kk = choose|kk: int|
                            0 <= kk < k && (#[trigger] ns@[kk]).0 as int == i as int;
                        assert(is_handle_prefix(ns@, k + 1, i as int));
                    }
                }
                assert(st@[i as int] == pre[i as int]);
                assert(pre[i as int] == Some(node_fill) && ph@.contains(i));
            }
            assert forall|kk: int| 0 <= kk < k + 1 implies st@[(#[trigger] ns@[kk]).0 as int]
                == Some(ns@[kk].1) by {
                if kk < k {
                    assert(ns@[kk].0 < ns@[k as int].0);
                    assert(pre[ns@[kk].0 as int] == Some(ns@[kk].1));
                }
            }
        }
        k = k + 1;
    }
    let m = ph.len();
    let mut x: usize = 0;
    while x < m
        invariant
            x <= m,
            m == ph@.len(),
            ns@.len() > 0,
            sorted_handles(ns@),
            st@.len() == ns@[ns@.len() - 1].0 + 1,
            forall|kk: int|
                0 <= kk < ns@.len() ==> st@[(#[trigger] ns@[kk]).0 as int] == Some(ns@[kk].1),
            forall|y: int|
                0 <= y < ph@.len() ==> (#[trigger] ph@[y]) < st@.len() && !is_handle(
                    ns@,
                    ph@[y] as int,
                ),
            forall|i: int|
                0 <= i < st@.len() && !is_handle(ns@, i) && (#[trigger] st@[i]) is Some ==> exists|
                    y: int,
                |
                    x <= y < m && ph@[y] as int == i,
        decreases m - x,
    {
        let ghost pre = st@;
        st.free(ph[x]);
        proof {
            let fx = ph@[x as int];
            assert(!is_handle(ns@, fx as int));
            assert forall|i: int|
                0 <= i < st@.len() && !is_handle(ns@, i) && (#[trigger] st@[i]) is Some implies
                exists|y: int| x + 1 <= y < m && ph@[y] as int == i by {
                assert(st@[i] == pre[i] || i == fx as int);
                assert(pre[i] is Some);
                let y = choose|y: int| x <= y < m && (#[trigger] ph@[y]) as int == i;
                assert(y != x);
            }
            assert forall|kk: int| 0 <= kk < ns@.len() implies st@[(#[trigger] ns@[kk]).0 as int]
                == Some(ns@[kk].1) by {
                assert(pre[ns@[kk].0 as int] == Some(ns@[kk].1));
                assert(ns@[kk].0 < st@.len()) by {
                    if kk < ns@.len() - 1 {
                        assert(ns@[kk].0 < ns@[ns@.len() - 1].0);
                    }
                }
                assert(fx as int != ns@[kk].0 as int) by {
                    if fx as int == ns@[kk].0 as int {
                        assert((ns@[kk]).0 as int == fx as int);
                        assert(is_handle(ns@, fx as int));
                    }
                }
                assert(st@[ns@[kk].0 as int] == pre[ns@[kk].0 as int]);
            }
        }
        x = x + 1;
    }
    proof {
        assert forall|i: int| #[trigger] slot_live(st@, i) implies is_handle(ns@, i) by {
            if !is_handle(ns@, i) {
                assert(st@[i] is Some);
            }
        }
    }
    st
}

/// Rebuild an edge arena against a reconstructed node arena: allocate a
/// disposable scratch node, one placeholder self-loop on it per absent
/// edge entry and one real edge per present entry, then remove the
/// scratch node, which frees every placeholder and leaves the encoded
/// holes.  Fails with `CorruptState` when a present entry names a handle
/// that is not an encoded node.
#[verifier::rlimit(60)]
fn build_edges<V: Copy, E: Copy>(
    nstore: &mut SlotStore<V>,
    edges: &Vec<Option<(usize, usize, E)>>,
    Ghost(ns): Ghost<Seq<(usize, V)>>,
    node_fill: V,
    edge_fill: E,
) -> (r: Result<SlotStore<Edge<E>>, GraphError>)
    requires
        ns.len() > 0,
        forall|kk: int| 0 <= kk < ns.len() ==> (#[trigger] ns[kk]).0 < old(nstore)@.len(),
        forall|kk: int|
            0 <= kk < ns.len() ==> old(nstore)@[(#[trigger] ns[kk]).0 as int] == Some(ns[kk].1),
        forall|i: int| #[trigger] slot_live(old(nstore)@, i) ==> is_handle(ns, i),
    ensures
        old(nstore)@.len() <= final(nstore)@.len(),
        forall|kk: int|
            0 <= kk < ns.len() ==> final(nstore)@[(#[trigger] ns[kk]).0 as int] == Some(ns[kk].1),
        forall|i: int| #[trigger] slot_live(final(nstore)@, i) ==> is_handle(ns, i),
        match r {
            Ok(est) => {
                &&& est@.len() == edges@.len()
                &&& forall|j: int|
                    0 <= j < edges@.len() ==> match (#[trigger] est@[j], edges@[j]) {
                        (Some(e), Some(t)) => e.src == t.0 && e.tgt == t.1 && e.weight == t.2,
                        (None, None) => true,
                        _ => false,
                    }
                &&& forall|j: int|
                    0 <= j < edges@.len() && (#[trigger] edges@[j]) is Some ==> is_handle(
                        ns,
                        edges@[j].unwrap().0 as int,
                    ) && is_handle(ns, edges@[j].unwrap().1 as int)
            },
            Err(e) => {
                &&& e == GraphError::CorruptState
                &&& exists|j: int|
                    0 <= j < edges@.len() && (#[trigger] edges@[j]) is Some && (!is_handle(
                        ns,
                        edges@[j].unwrap().0 as int,
                    ) || !is_handle(ns, edges@[j].unwrap().1 as int))
            },
        },
{
    let ghost base = nstore@;
    let m = edges.len();
    let ghost esl = edges@;
    proof {
        crate::slot::lemma_first_free_facts(base);
    }
    let z = nstore.allocate(node_fill);
    proof {
        assert(!is_handle(ns, z as int)) by {
            if is_handle(ns, z as int) {
                let kk = choose|kk: int|
                    0 <= kk < ns.len() && (#[trigger] ns[kk]).0 as int == z as int;
                assert(base[ns[kk].0 as int] == Some(ns[kk].1));
                assert(slot_live(base, z as int));
            }
        }
        assert forall|kk: int| 0 <= kk < ns.len() implies nstore@[(#[trigger] ns[kk]).0 as int]
            == Some(ns[kk].1) by {
            assert(base[ns[kk].0 as int] == Some(ns[kk].1));
            assert(ns[kk].0 as int != z as int) by {
                if ns[kk].0 as int == z as int {
                    assert(is_handle(ns, z as int));
                }
            }
        }
        assert forall|i: int| #[trigger]
            slot_live(nstore@, i) implies is_handle(ns, i) || i == z as int by {
            if i != z as int {
                assert(slot_live(base, i));
            }
        }
        assert forall|i: int|
            is_handle(ns, i) || i == z as int implies #[trigger] slot_live(nstore@, i) by {
            if i == z as int {
            } else {
                let kk = choose|kk: int|
                    0 <= kk < ns.len() && (#[trigger] ns[kk]).0 as int == i;
                assert(base[i] == Some(ns[kk].1));
                assert(slot_live(base, i));
            }
        }
    }
    let ghost nz = nstore@;
    let mut estore: SlotStore<Edge<E>> = SlotStore::new();
    let mut j: usize = 0;
    while j < m
        invariant
            j <= m,
            m == esl.len(),
            esl == edges@,
            ns.len() > 0,
            nstore@ == nz,
            !is_handle(ns, z as int),
            base == old(nstore)@,
            base.len() <= nz.len(),
            forall|i: int| #[trigger] slot_live(nz, i) <==> is_handle(ns, i) || i == z as int,
            forall|kk: int| 0 <= kk < ns.len() ==> (#[trigger] ns[kk]).0 < nz.len(),
            forall|kk: int|
                0 <= kk < ns.len() ==> nz[(#[trigger] ns[kk]).0 as int] == Some(ns[kk].1),
            estore@.len() == j,
            forall|jj: int| 0 <= jj < j ==> (#[trigger] estore@[jj]) is Some,
            forall|jj: int|
                0 <= jj < j ==> match (#[trigger] esl[jj]) {
                    None => estore@[jj] == Some((Edge { src: z, tgt: z, weight: edge_fill })),
                    Some(t) => {
                        &&& estore@[jj] == Some((Edge { src: t.0, tgt: t.1, weight: t.2 }))
                        &&& is_handle(ns, t.0 as int)
                        &&& is_handle(ns, t.1 as int)
                        &&& t.0 != z
                        &&& t.1 != z
                    },
                },
        decreases m - j,
    {
        match &edges[j] {
            Some(p) => {
                let (ps, pt, pw) = (p.0, p.1, p.2);
                if !nstore.is_live(ps) || !nstore.is_live(pt) || ps == z || pt == z {
                    proof {
                        assert(esl[j as int] is Some);
                        assert(!is_handle(ns, esl[j as int].unwrap().0 as int) || !is_handle(
                            ns,
                            esl[j as int].unwrap().1 as int,
                        ));
                    }
                    nstore.free(z);
                    proof {
                        assert forall|kk: int| 0 <= kk < ns.len() implies nstore@[(
                        #[trigger] ns[kk]).0 as int] == Some(ns[kk].1) by {
                            assert(nz[ns[kk].0 as int] == Some(ns[kk].1));
                            assert(ns[kk].0 as int != z as int) by {
                                if ns[kk].0 as int == z as int {
                                    assert(is_handle(ns, z as int));
                                }
                            }
                        }
                        assert forall|i: int| #[trigger]
                            slot_live(nstore@, i) implies is_handle(ns, i) by {
                            assert(slot_live(nz, i) && i != z as int);
                        }
                    }
                    return Err(GraphError::CorruptState);
                }
                estore.allocate(Edge { src: ps, tgt: pt, weight: pw });
            },
            None => {
                estore.allocate(Edge { src: z, tgt: z, weight: edge_fill });
            },
        }
        j = j + 1;
    }
    let ghost built = estore@;
    let mut j2: usize = 0;
    while j2 < m
        invariant
            j2 <= m,
            m == esl.len(),
            esl == edges@,
            estore@.len() == m,
            forall|jj: int| j2 <= jj < m ==> estore@[jj] == built[jj],
            forall|jj: int|
                0 <= jj < j2 ==> match (#[trigger] esl[jj]) {
                    None => estore@[jj] is None,
                    Some(t) => estore@[jj] == Some((Edge { src: t.0, tgt: t.1, weight: t.2 })),
                },
            forall|jj: int|
                0 <= jj < m ==> match (#[trigger] esl[jj]) {
                    None => built[jj] == Some((Edge { src: z, tgt: z, weight: edge_fill })),
                    Some(t) => {
                        &&& built[jj] == Some((Edge { src: t.0, tgt: t.1, weight: t.2 }))
                        &&& is_handle(ns, t.0 as int)
                        &&& is_handle(ns, t.1 as int)
                        &&& t.0 != z
                        &&& t.1 != z
                    },
                },
        decreases m - j2,
    {
        match estore.read(j2) {
            Some(e) => {
                if e.src == z || e.tgt == z {
                    estore.free(j2);
                }
            },
            None => {},
        }
        j2 = j2 + 1;
    }
    nstore.free(z);
    proof {
        assert forall|kk: int| 0 <= kk < ns.len() implies nstore@[(#[trigger] ns[kk]).0 as int]
            == Some(ns[kk].1) by {
            assert(nz[ns[kk].0 as int] == Some(ns[kk].1));
            assert(ns[kk].0 as int != z as int) by {
                if ns[kk].0 as int == z as int {
                    assert(is_handle(ns, z as int));
                }
            }
        }
        assert forall|i: int| #[trigger] slot_live(nstore@, i) implies is_handle(ns, i) by {
            assert(slot_live(nz, i) && i != z as int);
        }
    }
    Ok(estore)
}

impl<V: Copy, E: Copy> PyGraph<V, E> {
    /// Reconstruct a container from an encoded state.  The sentinel
    /// payloads fill the placeholder nodes and edges that exist only while
    /// decoding runs; no sentinel survives in the result.  Fails with
    /// `CorruptState` exactly when the state describes no reachable
    /// container.
    #[verifier::rlimit(100)]
    #[verifier::spinoff_prover]
    pub fn decode(state: &GraphState<V, E>, multigraph: bool, node_fill: V, edge_fill: E) -> (r:
        Result<PyGraph<V, E>, GraphError>)
        ensures
            match r {
                Ok(g) => decode_ok_post(
                    state.nodes@,
                    state.edges@,
                    state.nodes_removed,
                    multigraph,
                    g,
                ),
                Err(e) => e == GraphError::CorruptState,
            },
            r is Ok <==> valid_state(state.nodes@, state.edges@, state.nodes_removed, multigraph),
    {
        let ghost ns = state.nodes@;
        let ghost esl = state.edges@;
        let n = state.nodes.len();
        if n == 0 {
            let mut g: PyGraph<V, E> = PyGraph::new(multigraph);
            g.node_removed = state.nodes_removed;
            return Ok(g);
        }
        let mut k: usize = 1;
        while k < n
            invariant
                1 <= k <= n,
                n == ns.len(),
                ns == state.nodes@,
                forall|x: int| 0 <= x < k - 1 ==> (#[trigger] ns[x]).0 < ns[x + 1].0,
            decreases n - k,
        {
            if state.nodes[k - 1].0 >= state.nodes[k].0 {
                proof {
                    assert(!sorted_handles(ns));
                }
                return Err(GraphError::CorruptState);
            }
            k = k + 1;
        }
        proof {
            lemma_adjacent_sorted(ns);
        }
        if !state.nodes_removed {
            let mut k: usize = 0;
            while k < n
                invariant
                    k <= n,
                    n == ns.len(),
                    n > 0,
                    !state.nodes_removed,
                    ns == state.nodes@,
                    forall|x: int| 0 <= x < k ==> (#[trigger] ns[x]).0 == x,
                decreases n - k,
            {
                if state.nodes[k].0 != k {
                    proof {
                        assert(ns.len() > 0);
                        assert(!(forall|x: int|
                            0 <= x < ns.len() ==> (#[trigger] ns[x]).0 == x)) by {
                            assert(ns[k as int].0 != k);
                        }
                    }
                    return Err(GraphError::CorruptState);
                }
                k = k + 1;
            }
        }
        let m = state.edges.len();
        if !multigraph {
            let mut j: usize = 0;
            while j < m
                invariant
                    j <= m,
                    m == esl.len(),
                    ns == state.nodes@,
                    ns.len() > 0,
                    !multigraph,
                    esl == state.edges@,
                    forall|x: int, y: int|
                        #![trigger esl[x], esl[y]]
                        0 <= x < j && 0 <= y < m && x != y && esl[x] is Some && esl[y]
                            is Some ==> !pair_eq(esl[x].unwrap(), esl[y].unwrap()),
                decreases m - j,
            {
                match &state.edges[j] {
                    Some(p) => {
                        let (ps, pt) = (p.0, p.1);
                        let mut y: usize = j + 1;
                        while y < m
                            invariant
                                j < y <= m,
                                m == esl.len(),
                                ns == state.nodes@,
                                ns.len() > 0,
                                !multigraph,
                                esl == state.edges@,
                                esl[j as int] is Some,
                                ps == esl[j as int].unwrap().0,
                                pt == esl[j as int].unwrap().1,
                                forall|x: int|
                                    j < x < y && (#[trigger] esl[x]) is Some ==> !pair_eq(
                                        esl[j as int].unwrap(),
                                        esl[x].unwrap(),
                                    ),
                            decreases m - y,
                        {
                            match &state.edges[y] {
                                Some(q) => {
                                    if (q.0 == ps && q.1 == pt) || (q.0 == pt && q.1 == ps) {
                                        proof {
                                            assert(esl[j as int] is Some && esl[y as int]
                                                is Some);
                                            assert(pair_eq(
                                                esl[j as int].unwrap(),
                                                esl[y as int].unwrap(),
                                            ));
                                        }
                                        return Err(GraphError::CorruptState);
                                    }
                                },
                                None => {},
                            }
                            y = y + 1;
                        }
                        proof {
                            assert forall|x: int, y2: int|
                                #![trigger esl[x], esl[y2]]
                                0 <= x < j + 1 && 0 <= y2 < m && x != y2 && esl[x] is Some
                                    && esl[y2] is Some implies !pair_eq(
                                esl[x].unwrap(),
                                esl[y2].unwrap(),
                            ) by {
                                if x == j as int && y2 > j as int {
                                    assert(!pair_eq(esl[j as int].unwrap(), esl[y2].unwrap()));
                                }
                            }
                        }
                    },
                    None => {},
                }
                j = j + 1;
            }
        }
        let mut nstore = build_nodes(&state.nodes, node_fill);
        proof {
            assert forall|kk: int| 0 <= kk < ns.len() implies (#[trigger] ns[kk]).0
                < nstore@.len() by {
                if kk < ns.len() - 1 {
                    assert(ns[kk].0 < ns[ns.len() - 1].0);
                }
            }
        }
        let estore = match build_edges(&mut nstore, &state.edges, Ghost(ns), node_fill, edge_fill) {
            Ok(est) => est,
            Err(e) => {
                return Err(e);
            },
        };
        let g = PyGraph {
            nodes: nstore,
            edges: estore,
            multigraph,
            node_removed: state.nodes_removed,
        };
        proof {
            assert forall|kk: int| 0 <= kk < ns.len() implies (#[trigger] ns[kk]).0
                < g.nodes@.len() by {
                assert(g.nodes@[ns[kk].0 as int] == Some(ns[kk].1));
            }
            lemma_live_pairs_exact(g.nodes@, ns);
            assert(g.edges_valid()) by {
                assert forall|jj: int| #[trigger] slot_live(g.edges@, jj) implies slot_live(
                    g.nodes@,
                    g.edges@[jj].unwrap().src as int,
                ) && slot_live(g.nodes@, g.edges@[jj].unwrap().tgt as int) by {
                    assert(0 <= jj < m);
                    let t = esl[jj].unwrap();
                    assert(g.edges@[jj] == Some((Edge { src: t.0, tgt: t.1, weight: t.2 })));
                    let k0 = choose|kk: int|
                        0 <= kk < ns.len() && (#[trigger] ns[kk]).0 as int == t.0 as int;
                    assert(g.nodes@[t.0 as int] == Some(ns[k0].1));
                    let k1 = choose|kk: int|
                        0 <= kk < ns.len() && (#[trigger] ns[kk]).0 as int == t.1 as int;
                    assert(g.nodes@[t.1 as int] == Some(ns[k1].1));
                }
            }
            if !multigraph {
                assert forall|x: int, y: int|
                    #![trigger g.edges@[x], g.edges@[y]]
                    slot_live(g.edges@, x) && slot_live(g.edges@, y) && x != y implies !connects(
                    g.edges@[x].unwrap(),
                    g.edges@[y].unwrap().src,
                    g.edges@[y].unwrap().tgt,
                ) by {
                    assert(0 <= x < m && 0 <= y < m);
                    assert(esl[x] is Some && esl[y] is Some);
                    assert(!pair_eq(esl[x].unwrap(), esl[y].unwrap()));
                }
            }
            assert(valid_state(ns, esl, state.nodes_removed, multigraph));
        }
        Ok(g)
    }
}

/// The live pairs of an arena are its own faithful encoding: their handles
/// are strictly increasing, each names its slot's payload, and every live
/// slot appears among them.
pub proof fn lemma_live_pairs_facts<T>(s: Seq<Option<T>>)
    requires
        s.len() <= usize::MAX,
    ensures
        sorted_handles(live_pairs(s)),
        forall|k: int|
            0 <= k < live_pairs(s).len() ==> (#[trigger] live_pairs(s)[k]).0 < s.len() && s[
                live_pairs(s)[k].0 as int] == Some(live_pairs(s)[k].1),
        forall|i: int| #[trigger] slot_live(s, i) ==> is_handle(live_pairs(s), i),
    decreases s.len(),
{
    if s.len() > 0 {
        let d = s.drop_last();
        lemma_live_pairs_facts(d);
        let pd = live_pairs(d);
        let ps = live_pairs(s);
        assert forall|k: int|
            0 <= k < ps.len() implies (#[trigger] ps[k]).0 < s.len() && s[ps[k].0 as int] == Some(
            ps[k].1,
        ) by {
            if k < pd.len() {
                assert(ps[k] == pd[k]);
                assert(d[pd[k].0 as int] == Some(pd[k].1));
            }
        }
        if s.last() is Some {
            assert forall|k1: int, k2: int| 0 <= k1 < k2 < ps.len() implies (#[trigger] ps[k1]).0
                < (#[trigger] ps[k2]).0 by {
                if k2 < pd.len() {
                    assert(pd[k1].0 < pd[k2].0);
                } else {
                    assert(ps[k2].0 == s.len() - 1);
                    assert(pd[k1].0 < d.len());
                }
            }
        }
        assert forall|i: int| #[trigger] slot_live(s, i) implies is_handle(ps, i) by {
            if i < s.len() - 1 {
                assert(slot_live(d, i));
                let k = choose|k: int| 0 <= k < pd.len() && (#[trigger] pd[k]).0 as int == i;
                assert(ps[k].0 as int == i);
            } else {
                assert(s.last() is Some);
                assert(ps[ps.len() - 1].0 as int == i);
            }
        }
    }
}

/// Law: the codec round-trips exactly.  Encoding a well-formed container
/// gives a state that decoding accepts, and every container the decode
/// contract admits for that state is live at exactly the same node and
/// edge handles as the original, with the same payloads and endpoints, so
/// both counts and both bounds agree and every hole below a bound sits in
/// the same place.  (When no node hole ever existed the encoded handles
/// must be sequential, which is what the container's flag records.)
pub proof fn lemma_codec_round_trip<V, E>(g: PyGraph<V, E>, st: GraphState<V, E>, g2: PyGraph<V, E>)
    requires
        g.nodes@.len() <= usize::MAX,
        g2.nodes@.len() <= usize::MAX,
        g.wf(),
        !g.node_removed ==> forall|k: int|
            0 <= k < live_pairs(g.nodes@).len() ==> (#[trigger] live_pairs(g.nodes@)[k]).0 == k,
        st.nodes@ == live_pairs(g.nodes@),
        st.edges@ == edge_state(g.edges@),
        st.nodes_removed == g.node_removed,
        decode_ok_post(st.nodes@, st.edges@, st.nodes_removed, g.multigraph, g2),
    ensures
        valid_state(st.nodes@, st.edges@, st.nodes_removed, g.multigraph),
        forall|i: int| slot_live(g2.nodes@, i) <==> slot_live(g.nodes@, i),
        forall|i: int| #[trigger] slot_live(g.nodes@, i) ==> g2.nodes@[i] == g.nodes@[i],
        forall|j: int| slot_live(g2.edges@, j) <==> slot_live(g.edges@, j),
        forall|j: int| #[trigger] slot_live(g.edges@, j) ==> g2.edges@[j] == g.edges@[j],
        live_count(g2.nodes@) == live_count(g.nodes@),
        live_count(g2.edges@) == live_count(g.edges@),
        live_bound(g2.nodes@) == live_bound(g.nodes@),
        live_bound(g2.edges@) == live_bound(g.edges@),
{
    let ns = live_pairs(g.nodes@);
    let esl = edge_state(g.edges@);
    lemma_live_pairs_facts(g.nodes@);
    lemma_live_bound_facts(g.edges@);
    lemma_live_bound_le_len(g.edges@);
    assert(valid_state(st.nodes@, st.edges@, st.nodes_removed, g.multigraph)) by {
        if ns.len() > 0 {
            assert forall|j: int|
                0 <= j < esl.len() && (#[trigger] esl[j]) is Some implies is_handle(
                ns,
                esl[j].unwrap().0 as int,
            ) && is_handle(ns, esl[j].unwrap().1 as int) by {
                assert(slot_live(g.edges@, j));
                assert(slot_live(g.nodes@, g.edges@[j].unwrap().src as int));
                assert(slot_live(g.nodes@, g.edges@[j].unwrap().tgt as int));
            }
            if !g.multigraph {
                assert forall|j: int, k: int|
                    #![trigger esl[j], esl[k]]
                    0 <= j < esl.len() && 0 <= k < esl.len() && j != k && esl[j] is Some && esl[k]
                        is Some implies !pair_eq(esl[j].unwrap(), esl[k].unwrap()) by {
                    assert(slot_live(g.edges@, j) && slot_live(g.edges@, k));
                    assert(!connects(
                        g.edges@[j].unwrap(),
                        g.edges@[k].unwrap().src,
                        g.edges@[k].unwrap().tgt,
                    ));
                }
            }
        }
    }
    if ns.len() == 0 {
        assert forall|i: int| slot_live(g2.nodes@, i) <==> slot_live(g.nodes@, i) by {
            if slot_live(g.nodes@, i) {
                assert(is_handle(ns, i));
            }
            if slot_live(g2.nodes@, i) {
                assert(i < 0);
            }
        }
        assert forall|j: int| slot_live(g2.edges@, j) <==> slot_live(g.edges@, j) by {
            if slot_live(g.edges@, j) {
                assert(j < live_bound(g.edges@));
                assert(live_bound(g.edges@) > 0);
                assert(slot_live(g.edges@, live_bound(g.edges@) - 1));
                assert(slot_live(
                    g.nodes@,
                    g.edges@[live_bound(g.edges@) - 1].unwrap().src as int,
                ));
                assert(is_handle(ns, g.edges@[live_bound(g.edges@) - 1].unwrap().src as int));
            }
        }
    } else {
        lemma_live_pairs_facts(g2.nodes@);
        assert forall|i: int| slot_live(g2.nodes@, i) <==> slot_live(g.nodes@, i) by {
            if slot_live(g2.nodes@, i) {
                assert(is_handle(ns, i));
                let k = choose|k: int| 0 <= k < ns.len() && (#[trigger] ns[k]).0 as int == i;
                assert(g.nodes@[i] == Some(ns[k].1));
            }
            if slot_live(g.nodes@, i) {
                assert(is_handle(ns, i));
                let k = choose|k: int| 0 <= k < ns.len() && (#[trigger] ns[k]).0 as int == i;
                assert(g2.nodes@[i] == Some(ns[k].1));
            }
        }
        assert forall|i: int| #[trigger] slot_live(g.nodes@, i) implies g2.nodes@[i]
            == g.nodes@[i] by {
            assert(is_handle(ns, i));
            let k = choose|k: int| 0 <= k < ns.len() && (#[trigger] ns[k]).0 as int == i;
            assert(g.nodes@[i] == Some(ns[k].1));
            assert(g2.nodes@[i] == Some(ns[k].1));
        }
        assert forall|j: int| slot_live(g2.edges@, j) <==> slot_live(g.edges@, j) by {
            if 0 <= j < esl.len() {
                assert(match (g2.edges@[j], esl[j]) {
                    (Some(e), Some(t)) => e.src == t.0 && e.tgt == t.1 && e.weight == t.2,
                    (None, None) => true,
                    _ => false,
                });
            }
        }
        assert forall|j: int| #[trigger] slot_live(g.edges@, j) implies g2.edges@[j]
            == g.edges@[j] by {
            assert(j < esl.len());
            assert(match (g2.edges@[j], esl[j]) {
                (Some(e), Some(t)) => e.src == t.0 && e.tgt == t.1 && e.weight == t.2,
                (None, None) => true,
                _ => false,
            });
            assert(esl[j] == Some(
                (g.edges@[j].unwrap().src, g.edges@[j].unwrap().tgt, g.edges@[j].unwrap().weight),
            ));
            assert(g2.edges@[j].unwrap() == g.edges@[j].unwrap());
        }
    }
    crate::slot::lemma_live_shape_eq(g2.nodes@, g.nodes@);
    crate::slot::lemma_live_shape_eq(g2.edges@, g.edges@);
}

/// Handles never decrease along an encoded node list.
proof fn lemma_sorted_le<V>(ns: Seq<(usize, V)>, k1: int, k2: int)
    requires
        sorted_handles(ns),
        0 <= k1 <= k2 < ns.len(),
    ensures
        ns[k1].0 <= ns[k2].0,
{
    if k1 < k2 {
        assert(ns[k1].0 < ns[k2].0);
    }
}

/// Strict increase at every adjacent position already orders the whole
/// encoded node list.
pub proof fn lemma_adjacent_sorted<V>(ns: Seq<(usize, V)>)
    requires
        forall|x: int| 0 <= x < ns.len() - 1 ==> (#[trigger] ns[x]).0 < ns[x + 1].0,
    ensures
        sorted_handles(ns),
{
    assert forall|k1: int, k2: int| 0 <= k1 < k2 < ns.len() implies (#[trigger] ns[k1]).0 < (
    #[trigger] ns[k2]).0 by {
        lemma_sorted_span(ns, k1, k2);
    }
}

proof fn lemma_sorted_span<V>(ns: Seq<(usize, V)>, k1: int, k2: int)
    requires
        forall|x: int| 0 <= x < ns.len() - 1 ==> (#[trigger] ns[x]).0 < ns[x + 1].0,
        0 <= k1 < k2 < ns.len(),
    ensures
        ns[k1].0 < ns[k2].0,
    decreases k2 - k1,
{
    if k2 > k1 + 1 {
        lemma_sorted_span(ns, k1, k2 - 1);
    }
}

/// An arena whose live slots carry exactly the payloads of a sorted
/// encoded node list, handle for handle, has that list as its live pairs.
pub proof fn lemma_live_pairs_exact<V>(s: Seq<Option<V>>, ns: Seq<(usize, V)>)
    requires
        sorted_handles(ns),
        forall|k: int| 0 <= k < ns.len() ==> (#[trigger] ns[k]).0 < s.len(),
        forall|k: int| 0 <= k < ns.len() ==> s[(#[trigger] ns[k]).0 as int] == Some(ns[k].1),
        forall|i: int| #[trigger] slot_live(s, i) ==> is_handle(ns, i),
    ensures
        live_pairs(s) == ns,
    decreases s.len(),
{
    if s.len() == 0 {
        assert(ns.len() == 0) by {
            if ns.len() > 0 {
                assert(ns[0].0 < 0);
            }
        }
        assert(live_pairs(s) =~= ns);
    } else if s.last() is Some {
        assert(slot_live(s, s.len() - 1));
        assert(is_handle(ns, s.len() - 1));
        let k = choose|k: int| 0 <= k < ns.len() && (#[trigger] ns[k]).0 as int == s.len() - 1;
        assert(k == ns.len() - 1) by {
            if k < ns.len() - 1 {
                assert(ns[k].0 < ns[ns.len() - 1].0);
                assert(ns[ns.len() - 1].0 < s.len());
            }
        }
        let t = s.drop_last();
        let ms = ns.drop_last();
        assert forall|kk: int| 0 <= kk < ms.len() implies (#[trigger] ms[kk]).0 < t.len() by {
            assert(ns[kk].0 < ns[ns.len() - 1].0);
        }
        assert forall|kk: int| 0 <= kk < ms.len() implies t[(#[trigger] ms[kk]).0 as int] == Some(
            ms[kk].1,
        ) by {
            assert(ns[kk].0 < ns[ns.len() - 1].0);
            assert(s[ns[kk].0 as int] == Some(ns[kk].1));
        }
        assert forall|i: int| #[trigger] slot_live(t, i) implies is_handle(ms, i) by {
            assert(slot_live(s, i));
            let kk = choose|kk: int| 0 <= kk < ns.len() && (#[trigger] ns[kk]).0 as int == i;
            assert(kk != ns.len() - 1);
            assert(ms[kk].0 as int == i);
        }
        lemma_live_pairs_exact(t, ms);
        assert(s[ns[ns.len() - 1].0 as int] == Some(ns[ns.len() - 1].1));
        assert(live_pairs(s) == live_pairs(t).push(
            (((s.len() - 1) as usize), s.last().unwrap()),
        ));
        assert(live_pairs(s) =~= ns);
    } else {
        let t = s.drop_last();
        let ghost last_free = s.len() - 1;
        assert forall|k: int| 0 <= k < ns.len() implies (#[trigger] ns[k]).0 < t.len() by {
            assert(s[ns[k].0 as int] == Some(ns[k].1));
            if ns[k].0 as int == last_free {
                assert(s[last_free] is None);
            }
        }
        assert forall|k: int| 0 <= k < ns.len() implies t[(#[trigger] ns[k]).0 as int] == Some(
            ns[k].1,
        ) by {
            assert(s[ns[k].0 as int] == Some(ns[k].1));
        }
        assert forall|i: int| #[trigger] slot_live(t, i) implies is_handle(ns, i) by {
            assert(slot_live(s, i));
        }
        lemma_live_pairs_exact(t, ns);
    }
}

} // verus!
