//! The matrix adapter: build a container from a square adjacency matrix.
//!
//! A cell is either a payload or the null marker; the caller applies the
//! null-value convention (equality with a sentinel, or an is-not-a-number
//! test) before handing the matrix over, so the adapter itself works on
//! plain optional payloads.

use vstd::prelude::*;

use crate::graph::Edge;
use crate::graph::PyGraph;
use crate::slot::slot_live;

verus! {

impl<E: Copy> PyGraph<usize, E> {
    /// Build a multigraph from a square adjacency matrix: one node per row
    /// index, carrying that index as its payload, and one edge per
    /// non-null cell on or above the diagonal, carrying the cell's value.
    /// A diagonal cell becomes a self-loop.
    pub fn from_adjacency_matrix(matrix: &Vec<Vec<Option<E>>>) -> (g: PyGraph<usize, E>)
        requires
            forall|r: int| 0 <= r < matrix@.len() ==> (#[trigger] matrix@[r])@.len()
                == matrix@.len(),
        ensures
            g.wf(),
            g.multigraph == true,
            g.node_removed == false,
            g.nodes@.len() == matrix@.len(),
            forall|i: int| 0 <= i < matrix@.len() ==> (#[trigger] g.nodes@[i]) == Some(i as usize),
            forall|i: int, j: int|
                0 <= i <= j < matrix@.len() && (#[trigger] matrix@[i]@[j]) is Some ==> exists|
                    jj: int,
                |
                    slot_live(g.edges@, jj) && (#[trigger] g.edges@[jj]) == Some(
                        (Edge {
                            src: i as usize,
                            tgt: j as usize,
                            weight: matrix@[i]@[j].unwrap(),
                        }),
                    ),
            forall|jj: int|
                #[trigger] slot_live(g.edges@, jj) ==> g.edges@[jj].unwrap().src
                    <= g.edges@[jj].unwrap().tgt && matrix@[g.edges@[jj].unwrap().src as int]@[g.edges@[jj].unwrap().tgt as int]
                    == Some(g.edges@[jj].unwrap().weight),
            forall|j1: int, j2: int|
                #![trigger g.edges@[j1], g.edges@[j2]]
                slot_live(g.edges@, j1) && slot_live(g.edges@, j2) && j1 != j2 ==> !(
                g.edges@[j1].unwrap().src == g.edges@[j2].unwrap().src && g.edges@[j1].unwrap().tgt
                    == g.edges@[j2].unwrap().tgt),
    {
        let n = matrix.len();
        let mut g: PyGraph<usize, E> = PyGraph::new(true);
        let mut i: usize = 0;
        while i < n
            invariant
                i <= n,
                n == matrix@.len(),
                g.wf(),
                g.multigraph == true,
                g.node_removed == false,
                g.nodes@.len() == i,
                g.edges@.len() == 0,
                forall|x: int| 0 <= x < i ==> (#[trigger] g.nodes@[x]) == Some(x as usize),
            decreases n - i,
        {
            let ghost pre = g;
            let h = g.add_node(i);
            proof {
                crate::slot::lemma_first_free_facts(pre.nodes@);
            }
            i = i + 1;
        }
        let mut i2: usize = 0;
        while i2 < n
            invariant
                i2 <= n,
                n == matrix@.len(),
                forall|r: int| 0 <= r < matrix@.len() ==> (#[trigger] matrix@[r])@.len()
                    == matrix@.len(),
                g.wf(),
                g.multigraph == true,
                g.node_removed == false,
                g.nodes@.len() == n,
                forall|x: int| 0 <= x < n ==> (#[trigger] g.nodes@[x]) == Some(x as usize),
                forall|x: int, y: int|
                    0 <= x < i2 && x <= y < n && (#[trigger] matrix@[x]@[y]) is Some ==> exists|
                        jj: int,
                    |
                        slot_live(g.edges@, jj) && (#[trigger] g.edges@[jj]) == Some(
                            (Edge {
                                src: x as usize,
                                tgt: y as usize,
                                weight: matrix@[x]@[y].unwrap(),
                            }),
                        ),
                forall|jj: int|
                    #[trigger] slot_live(g.edges@, jj) ==> g.edges@[jj].unwrap().src
                        <= g.edges@[jj].unwrap().tgt
                        && matrix@[g.edges@[jj].unwrap().src as int]@[g.edges@[jj].unwrap().tgt as int]
                        == Some(g.edges@[jj].unwrap().weight),
                forall|jj: int|
                    #[trigger] slot_live(g.edges@, jj) ==> g.edges@[jj].unwrap().src < i2,
                forall|j1: int, j2: int|
                    #![trigger g.edges@[j1], g.edges@[j2]]
                    slot_live(g.edges@, j1) && slot_live(g.edges@, j2) && j1 != j2 ==> !(
                    g.edges@[j1].unwrap().src == g.edges@[j2].unwrap().src
                        && g.edges@[j1].unwrap().tgt == g.edges@[j2].unwrap().tgt),
            decreases n - i2,
        {
            let row = &matrix[i2];
            let mut j2: usize = i2;
            while j2 < n
                invariant
                    i2 <= j2 <= n,
                    i2 < n,
                    n == matrix@.len(),
                    row == &matrix@[i2 as int],
                    forall|r: int| 0 <= r < matrix@.len() ==> (#[trigger] matrix@[r])@.len()
                        == matrix@.len(),
                    g.wf(),
                    g.multigraph == true,
                    g.node_removed == false,
                    g.nodes@.len() == n,
                    forall|x: int| 0 <= x < n ==> (#[trigger] g.nodes@[x]) == Some(x as usize),
                    forall|x: int, y: int|
                        0 <= x < i2 && x <= y < n && (#[trigger] matrix@[x]@[y]) is Some ==> exists|
                            jj: int,
                        |
                            slot_live(g.edges@, jj) && (#[trigger] g.edges@[jj]) == Some(
                                (Edge {
                                    src: x as usize,
                                    tgt: y as usize,
                                    weight: matrix@[x]@[y].unwrap(),
                                }),
                            ),
                    forall|y: int|
                        i2 <= y < j2 && (#[trigger] matrix@[i2 as int]@[y]) is Some ==> exists|
                            jj: int,
                        |
                            slot_live(g.edges@, jj) && (#[trigger] g.edges@[jj]) == Some(
                                (Edge {
                                    src: i2,
                                    tgt: y as usize,
                                    weight: matrix@[i2 as int]@[y].unwrap(),
                                }),
                            ),
                    forall|jj: int|
                        #[trigger] slot_live(g.edges@, jj) ==> g.edges@[jj].unwrap().src
                            <= g.edges@[jj].unwrap().tgt
                            && matrix@[g.edges@[jj].unwrap().src as int]@[g.edges@[jj].unwrap().tgt as int]
                            == Some(g.edges@[jj].unwrap().weight),
                    forall|jj: int|
                        #[trigger] slot_live(g.edges@, jj) ==> g.edges@[jj].unwrap().src < i2 || (
                        g.edges@[jj].unwrap().src == i2 && g.edges@[jj].unwrap().tgt < j2),
                    forall|j1: int, j2e: int|
                        #![trigger g.edges@[j1], g.edges@[j2e]]
                        slot_live(g.edges@, j1) && slot_live(g.edges@, j2e) && j1 != j2e ==> !(
                        g.edges@[j1].unwrap().src == g.edges@[j2e].unwrap().src
                            && g.edges@[j1].unwrap().tgt == g.edges@[j2e].unwrap().tgt),
                decreases n - j2,
            {
                match row[j2] {
                    Some(w) => {
                        let ghost pre = g;
                        let h = g.insert_or_update_edge(i2, j2, w);
                        proof {
                            crate::slot::lemma_first_free_facts(pre.edges@);
                            assert(g.edges@[h as int] == Some(
                                (Edge { src: i2, tgt: j2, weight: w }),
                            ));
                            assert forall|jj: int| #[trigger]
                                slot_live(g.edges@, jj) implies g.edges@[jj].unwrap().src
                                <= g.edges@[jj].unwrap().tgt
                                && matrix@[g.edges@[jj].unwrap().src as int]@[g.edges@[jj].unwrap().tgt as int]
                                == Some(g.edges@[jj].unwrap().weight) by {
                                if jj != h as int {
                                    assert(slot_live(pre.edges@, jj));
                                    assert(g.edges@[jj] == pre.edges@[jj]);
                                } else {
                                    assert(g.edges@[jj].unwrap().src == i2);
                                    assert(g.edges@[jj].unwrap().tgt == j2);
                                    assert(matrix@[i2 as int]@[j2 as int] == Some(w));
                                }
                            }
                            assert forall|jj: int| #[trigger]
                                slot_live(g.edges@, jj) implies g.edges@[jj].unwrap().src < i2 || (
                            g.edges@[jj].unwrap().src == i2 && g.edges@[jj].unwrap().tgt < j2
                                + 1) by {
                                if jj != h as int {
                                    assert(slot_live(pre.edges@, jj));
                                    assert(g.edges@[jj] == pre.edges@[jj]);
                                }
                            }
                            assert forall|j1: int, j2e: int|
                                #![trigger g.edges@[j1], g.edges@[j2e]]
                                slot_live(g.edges@, j1) && slot_live(g.edges@, j2e) && j1
                                    != j2e implies !(g.edges@[j1].unwrap().src
                                == g.edges@[j2e].unwrap().src && g.edges@[j1].unwrap().tgt
                                == g.edges@[j2e].unwrap().tgt) by {
                                if j1 != h as int && j2e != h as int {
                                    assert(slot_live(pre.edges@, j1));
                                    assert(slot_live(pre.edges@, j2e));
                                } else if j1 == h as int && j2e != h as int {
                                    assert(slot_live(pre.edges@, j2e));
                                    assert(pre.edges@[j2e] == g.edges@[j2e]);
                                } else if j1 != h as int && j2e == h as int {
                                    assert(slot_live(pre.edges@, j1));
                                    assert(pre.edges@[j1] == g.edges@[j1]);
                                }
                            }
                            assert forall|x: int, y: int|
                                0 <= x < i2 && x <= y < n && (#[trigger] matrix@[x]@[y])
                                    is Some implies exists|jj: int|
                                slot_live(g.edges@, jj) && (#[trigger] g.edges@[jj]) == Some(
                                    (Edge {
                                        src: x as usize,
                                        tgt: y as usize,
                                        weight: matrix@[x]@[y].unwrap(),
                                    }),
                                ) by {
                                let jj = choose|jj: int|
                                    slot_live(pre.edges@, jj) && (#[trigger] pre.edges@[jj])
                                        == Some(
                                        (Edge {
                                            src: x as usize,
                                            tgt: y as usize,
                                            weight: matrix@[x]@[y].unwrap(),
                                        }),
                                    );
                                assert(slot_live(g.edges@, jj) && g.edges@[jj] == pre.edges@[jj]);
                            }
                            assert forall|y: int|
                                i2 <= y < j2 + 1 && (#[trigger] matrix@[i2 as int]@[y])
                                    is Some implies exists|jj: int|
                                slot_live(g.edges@, jj) && (#[trigger] g.edges@[jj]) == Some(
                                    (Edge {
                                        src: i2,
                                        tgt: y as usize,
                                        weight: matrix@[i2 as int]@[y].unwrap(),
                                    }),
                                ) by {
                                if y < j2 {
                                    let jj = choose|jj: int|
                                        slot_live(pre.edges@, jj) && (#[trigger] pre.edges@[jj])
                                            == Some(
                                            (Edge {
                                                src: i2,
                                                tgt: y as usize,
                                                weight: matrix@[i2 as int]@[y].unwrap(),
                                            }),
                                        );
                                    assert(slot_live(g.edges@, jj) && g.edges@[jj]
                                        == pre.edges@[jj]);
                                } else {
                                    assert(g.edges@[h as int] == Some(
                                        (Edge {
                                            src: i2,
                                            tgt: y as usize,
                                            weight: matrix@[i2 as int]@[y].unwrap(),
                                        }),
                                    ));
                                }
                            }
                        }
                    },
                    None => {},
                }
                j2 = j2 + 1;
            }
            proof {
                assert forall|x: int, y: int|
                    0 <= x < i2 + 1 && x <= y < n && (#[trigger] matrix@[x]@[y])
                        is Some implies exists|jj: int|
                    slot_live(g.edges@, jj) && (#[trigger] g.edges@[jj]) == Some(
                        (Edge {
                            src: x as usize,
                            tgt: y as usize,
                            weight: matrix@[x]@[y].unwrap(),
                        }),
                    ) by {}
            }
            i2 = i2 + 1;
        }
        g
    }
}

} // verus!
