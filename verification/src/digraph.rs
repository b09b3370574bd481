//! The directed sibling produced by the directed conversion: the same
//! slot-store layout, with direction-aware edges.

use vstd::prelude::*;

use crate::graph::Edge;
use crate::graph::PyGraph;
use crate::slot::SlotStore;
use crate::slot::live_count;
use crate::slot::live_pairs;
use crate::slot::live_values;
use crate::slot::slot_live;

verus! {

/// A directed container over the same slot stores; each stored edge runs
/// from its source to its target.
pub struct PyDiGraph<V, E> {
    pub nodes: SlotStore<V>,
    pub edges: SlotStore<Edge<E>>,
    pub multigraph: bool,
    pub node_removed: bool,
}

impl<V: Copy, E: Copy> PyDiGraph<V, E> {
    /// Number of live nodes.
    pub fn num_nodes(&self) -> (r: usize)
        ensures
            r == live_count(self.nodes@),
    {
        self.nodes.count()
    }

    /// Number of live edges.
    pub fn num_edges(&self) -> (r: usize)
        ensures
            r == live_count(self.edges@),
    {
        self.edges.count()
    }

    /// The directed `(source, target)` pairs of the live edges, in
    /// increasing handle order.
    pub fn edge_list(&self) -> (r: Vec<(usize, usize)>)
        ensures
            r@ == crate::graph::live_endpoint_pairs(self.edges@),
    {
        let m = self.edges.arena_len();
        let mut r: Vec<(usize, usize)> = Vec::new();
        let mut j: usize = 0;
        while j < m
            invariant
                j <= m,
                m == self.edges@.len(),
                r@ =~= crate::graph::live_endpoint_pairs(self.edges@.take(j as int)),
            decreases m - j,
        {
            proof {
                assert(self.edges@.take(j + 1).drop_last() =~= self.edges@.take(j as int));
            }
            match self.edges.read(j) {
                Some(e) => {
                    r.push((e.src, e.tgt));
                },
                None => {},
            }
            j = j + 1;
        }
        proof {
            assert(self.edges@.take(m as int) =~= self.edges@);
        }
        r
    }

    /// The payload of a live node.
    pub fn get_node_data(&self, node: usize) -> (r: Result<V, crate::graph::GraphError>)
        ensures
            match r {
                Ok(v) => slot_live(self.nodes@, node as int) && Some(v) == self.nodes@[node as int],
                Err(e) => e == crate::graph::GraphError::NotFound && !slot_live(
                    self.nodes@,
                    node as int,
                ),
            },
    {
        match self.nodes.read(node) {
            Some(v) => Ok(v),
            None => Err(crate::graph::GraphError::NotFound),
        }
    }
}

impl<V: Copy, E: Copy> PyGraph<V, E> {
    /// The directed container this undirected one induces: every live node
    /// copied once, densely renumbered from zero in handle order, and
    /// every live edge doubled into a forward and a backward directed
    /// edge sharing the payload.
    pub fn to_directed(&self) -> (dg: PyDiGraph<V, E>)
        requires
            self.wf(),
        ensures
            ({
                let sp = live_pairs(self.nodes@);
                let se = live_values(self.edges@);
                &&& dg.multigraph == self.multigraph
                &&& dg.node_removed == false
                &&& dg.nodes@.len() == sp.len()
                &&& forall|k: int|
                    0 <= k < sp.len() ==> (#[trigger] dg.nodes@[k]) == Some(sp[k].1)
                &&& dg.edges@.len() == 2 * se.len()
                &&& forall|k: int|
                    0 <= k < se.len() ==> (#[trigger] dg.edges@[2 * k]) is Some && dg.edges@[2 * k
                        + 1] is Some && dg.edges@[2 * k].unwrap().weight == se[k].weight
                        && dg.edges@[2 * k + 1].unwrap().weight == se[k].weight && dg.edges@[2 * k].unwrap().src
                        < sp.len() && dg.edges@[2 * k].unwrap().tgt < sp.len() && sp[dg.edges@[2 * k].unwrap().src as int].0
                        == se[k].src && sp[dg.edges@[2 * k].unwrap().tgt as int].0 == se[k].tgt
                        && dg.edges@[2 * k + 1].unwrap().src == dg.edges@[2 * k].unwrap().tgt
                        && dg.edges@[2 * k + 1].unwrap().tgt == dg.edges@[2 * k].unwrap().src
            }),
    {
        let ghost sp = live_pairs(self.nodes@);
        let n = self.nodes.arena_len();
        let mut mapv: Vec<Option<usize>> = Vec::new();
        let mut dnodes: SlotStore<V> = SlotStore::new();
        let mut i: usize = 0;
        while i < n
            invariant
                i <= n,
                n == self.nodes@.len(),
                mapv@.len() == i,
                dnodes@.len() == live_pairs(self.nodes@.take(i as int)).len(),
                forall|k: int|
                    0 <= k < dnodes@.len() ==> (#[trigger] dnodes@[k]) == Some(
                        live_pairs(self.nodes@.take(i as int))[k].1,
                    ),
                forall|x: int|
                    0 <= x < i ==> ((#[trigger] mapv@[x]) is Some <==> slot_live(self.nodes@, x)),
                forall|x: int|
                    0 <= x < i && (#[trigger] mapv@[x]) is Some ==> mapv@[x].unwrap()
                        < live_pairs(self.nodes@.take(i as int)).len() && live_pairs(
                        self.nodes@.take(i as int),
                    )[mapv@[x].unwrap() as int].0 == x as usize,
            decreases n - i,
        {
            proof {
                assert(self.nodes@.take(i + 1).drop_last() =~= self.nodes@.take(i as int));
            }
            match self.nodes.read(i) {
                Some(v) => {
                    let c = dnodes.allocate(v);
                    mapv.push(Some(c));
                },
                None => {
                    mapv.push(None);
                },
            }
            i = i + 1;
        }
        proof {
            assert(self.nodes@.take(n as int) =~= self.nodes@);
        }
        let m = self.edges.arena_len();
        let mut dedges: SlotStore<Edge<E>> = SlotStore::new();
        let mut j: usize = 0;
        while j < m
            invariant
                j <= m,
                m == self.edges@.len(),
                self.wf(),
                sp == live_pairs(self.nodes@),
                mapv@.len() == self.nodes@.len(),
                forall|x: int|
                    0 <= x < mapv@.len() ==> ((#[trigger] mapv@[x]) is Some <==> slot_live(
                        self.nodes@,
                        x,
                    )),
                forall|x: int|
                    0 <= x < mapv@.len() && (#[trigger] mapv@[x]) is Some ==> mapv@[x].unwrap()
                        < sp.len() && sp[mapv@[x].unwrap() as int].0 == x as usize,
                dedges@.len() == 2 * live_values(self.edges@.take(j as int)).len(),
                forall|x: int| 0 <= x < dedges@.len() ==> (#[trigger] dedges@[x]) is Some,
                forall|k: int|
                    0 <= k < live_values(self.edges@.take(j as int)).len() ==> {
                        let se = live_values(self.edges@.take(j as int));
                        &&& (#[trigger] dedges@[2 * k]) is Some
                        &&& dedges@[2 * k + 1] is Some
                        &&& dedges@[2 * k].unwrap().weight == se[k].weight
                        &&& dedges@[2 * k + 1].unwrap().weight == se[k].weight
                        &&& dedges@[2 * k].unwrap().src < sp.len()
                        &&& dedges@[2 * k].unwrap().tgt < sp.len()
                        &&& sp[dedges@[2 * k].unwrap().src as int].0 == se[k].src
                        &&& sp[dedges@[2 * k].unwrap().tgt as int].0 == se[k].tgt
                        &&& dedges@[2 * k + 1].unwrap().src == dedges@[2 * k].unwrap().tgt
                        &&& dedges@[2 * k + 1].unwrap().tgt == dedges@[2 * k].unwrap().src
                    },
            decreases m - j,
        {
            proof {
                assert(self.edges@.take(j + 1).drop_last() =~= self.edges@.take(j as int));
            }
            match self.edges.read(j) {
                Some(e) => {
                    proof {
                        assert(slot_live(self.edges@, j as int));
                        assert(slot_live(self.nodes@, e.src as int));
                        assert(slot_live(self.nodes@, e.tgt as int));
                    }
                    let a = mapv[e.src].unwrap();
                    let b = mapv[e.tgt].unwrap();
                    let ghost pre = dedges@;
                    dedges.allocate(Edge { src: a, tgt: b, weight: e.weight });
                    let ghost mid = dedges@;
                    dedges.allocate(Edge { src: b, tgt: a, weight: e.weight });
                    proof {
                        assert(mid =~= pre.push(Some((Edge { src: a, tgt: b, weight: e.weight }))));
                        assert(dedges@ =~= mid.push(
                            Some((Edge { src: b, tgt: a, weight: e.weight })),
                        ));
                        assert forall|k: int|
                            0 <= k < live_values(self.edges@.take(j + 1)).len() implies {
                            let se = live_values(self.edges@.take(j + 1));
                            &&& (#[trigger] dedges@[2 * k]) is Some
                            &&& dedges@[2 * k + 1] is Some
                            &&& dedges@[2 * k].unwrap().weight == se[k].weight
                            &&& dedges@[2 * k + 1].unwrap().weight == se[k].weight
                            &&& dedges@[2 * k].unwrap().src < sp.len()
                            &&& dedges@[2 * k].unwrap().tgt < sp.len()
                            &&& sp[dedges@[2 * k].unwrap().src as int].0 == se[k].src
                            &&& sp[dedges@[2 * k].unwrap().tgt as int].0 == se[k].tgt
                            &&& dedges@[2 * k + 1].unwrap().src == dedges@[2 * k].unwrap().tgt
                            &&& dedges@[2 * k + 1].unwrap().tgt == dedges@[2 * k].unwrap().src
                        } by {
                            let se = live_values(self.edges@.take(j + 1));
                            if k < se.len() - 1 {
                                assert(dedges@[2 * k] == pre[2 * k]);
                                assert(dedges@[2 * k + 1] == pre[2 * k + 1]);
                                assert(se[k] == live_values(self.edges@.take(j as int))[k]);
                            } else {
                                assert(2 * k == pre.len());
                                assert(dedges@[2 * k] == Some(
                                    (Edge { src: a, tgt: b, weight: e.weight }),
                                ));
                                assert(dedges@[2 * k + 1] == Some(
                                    (Edge { src: b, tgt: a, weight: e.weight }),
                                ));
                                assert(se[k] == e);
                            }
                        }
                    }
                },
                None => {},
            }
            j = j + 1;
        }
        proof {
            assert(self.edges@.take(m as int) =~= self.edges@);
        }
        PyDiGraph {
            nodes: dnodes,
            edges: dedges,
            multigraph: self.multigraph,
            node_removed: false,
        }
    }
}

} // verus!
