//! Undirected graph

use crate::graph::directed::DirectedGraph;
use crate::graph::AdjacencyMatrix;
use crate::graph::Graph;
use std::ops::Range;
use vstd::prelude::*;

verus! {

/// Undirected graph: every edge is kept in both directions.
#[derive(Debug, Hash, PartialEq, Eq)]
pub struct UndirectedGraph {
    arcs: DirectedGraph,
}

impl View for UndirectedGraph {
    type V = AdjacencyMatrix;

    closed spec fn view(&self) -> AdjacencyMatrix {
        self.arcs@
    }
}

impl Clone for UndirectedGraph {
    fn clone(&self) -> (g: Self)
        ensures
            g@ == self@,
    {
        UndirectedGraph { arcs: self.arcs.clone() }
    }
}

impl UndirectedGraph {
    /// The undirected graph with the arcs of a directed graph. There is one
    /// if and only if every arc is there in both directions.
    pub fn from_directed(arcs: DirectedGraph) -> (r: Option<Self>)
        requires
            arcs@.wf(),
        ensures
            r is Some <==> arcs@.symmetric(),
            r matches Some(g) ==> g.valid() && g@ == arcs@,
    {
        let n = arcs.size();
        let mut u: usize = 0;
        while u < n
            invariant
                n == arcs@.size,
                arcs@.wf(),
                u <= n,
                forall|a: int, b: int|
                    0 <= a < u && 0 <= b < n ==> arcs@.has_edge(a, b) == #[trigger] arcs@.has_edge(
                        b,
                        a,
                    ),
            decreases n - u,
        {
            let mut v: usize = 0;
            while v < n
                invariant
                    n == arcs@.size,
                    arcs@.wf(),
                    u < n,
                    v <= n,
                    forall|b: int|
                        0 <= b < v ==> arcs@.has_edge(u as int, b) == #[trigger] arcs@.has_edge(
                            b,
                            u as int,
                        ),
                decreases n - v,
            {
                if arcs.are_adjacent(u, v) != arcs.are_adjacent(v, u) {
                    assert(arcs@.has_edge(u as int, v as int) != arcs@.has_edge(v as int, u as int));
                    return None;
                }
                v += 1;
            }
            u += 1;
        }
        proof {
            assert forall|a: int, b: int| arcs@.has_edge(a, b) == #[trigger] arcs@.has_edge(
                b,
                a,
            ) by {
                if 0 <= a < n && 0 <= b < n {
                } else {
                    assert(!arcs@.has_edge(a, b) && !arcs@.has_edge(b, a));
                }
            }
        }
        Some(UndirectedGraph { arcs })
    }

    /// Whether both are the same graph.
    pub fn same(&self, other: &Self) -> (b: bool)
        ensures
            b == (self@ == other@),
    {
        self.arcs.same(&other.arcs)
    }

    /// The adjacency matrix as text: one line of `0` and `1` per row.
    pub fn to_string(&self) -> (s: String)
        requires
            self@.wf(),
        ensures
            s@ == self@.text_from(0),
    {
        self.arcs.to_string()
    }
}

impl Graph for UndirectedGraph {
    open spec fn matrix(&self) -> AdjacencyMatrix {
        self@
    }

    open spec fn valid(&self) -> bool {
        self@.wf() && self@.symmetric()
    }

    open spec fn connect_spec(
        m: AdjacencyMatrix,
        lhs: int,
        rhs: int,
        connect: bool,
    ) -> AdjacencyMatrix {
        m.set_edge(lhs, rhs, connect).set_edge(rhs, lhs, connect)
    }

    /// Each edge once, smaller vertex first, in the order of the matrix.
    open spec fn edges_spec(m: AdjacencyMatrix) -> Seq<(int, int)> {
        m.edges().filter(|e: (int, int)| e.0 <= e.1)
    }

    /// The number of vertices that `vertex` is adjacent to.
    open spec fn degree_spec(m: AdjacencyMatrix, vertex: int) -> nat {
        m.adjacent_to(vertex).len()
    }

    fn empty(size: usize) -> (g: Self) {
        let g = UndirectedGraph { arcs: DirectedGraph::empty(size) };
        proof {
            assert forall|u: int, v: int| !#[trigger] g@.has_edge(u, v) by {
                if 0 <= u < size && 0 <= v < size {
                    g@.lemma_index_bound(u, v);
                }
            }
        }
        g
    }

    fn size(&self) -> (n: usize) {
        self.arcs.size()
    }

    fn vertices(&self) -> (r: Range<usize>) {
        self.arcs.vertices()
    }

    fn add_vertex(&mut self) -> (vertex: usize) {
        let vertex = self.arcs.size();
        self.arcs.add_vertex();
        vertex
    }

    fn remove_vertex(&mut self, vertex_to_remove: usize) {
        let ghost before = self@;
        self.arcs.remove_vertex(vertex_to_remove);
        proof {
            assert forall|u: int, v: int| self@.has_edge(u, v) == #[trigger] self@.has_edge(
                v,
                u,
            ) by {
                let uu = if u >= vertex_to_remove {
                    u + 1
                } else {
                    u
                };
                let vv = if v >= vertex_to_remove {
                    v + 1
                } else {
                    v
                };
                assert(before.has_edge(uu, vv) == before.has_edge(vv, uu));
            }
        }
    }

    fn connect(&mut self, lhs_vertex: usize, rhs_vertex: usize, connect: bool) {
        let ghost before = self@;
        self.arcs.connect(lhs_vertex, rhs_vertex, connect);
        let ghost between = self@;
        self.arcs.connect(rhs_vertex, lhs_vertex, connect);
        proof {
            before.lemma_set_edge(lhs_vertex as int, rhs_vertex as int, connect);
            between.lemma_set_edge(rhs_vertex as int, lhs_vertex as int, connect);
            assert forall|u: int, v: int| self@.has_edge(u, v) == #[trigger] self@.has_edge(
                v,
                u,
            ) by {
                assert(before.has_edge(u, v) == before.has_edge(v, u));
            }
        }
    }

    fn adjacent_to(&self, vertex: usize) -> (adjacent: Vec<usize>) {
        self.arcs.adjacent_to(vertex).collect()
    }

    fn edges(&self) -> (edges: Vec<(usize, usize)>) {
        let all = self.arcs.edges().collect();
        let ghost pairs = all@.map_values(|e: (usize, usize)| (e.0 as int, e.1 as int));
        let ghost keep = |e: (int, int)| e.0 <= e.1;
        let mut edges: Vec<(usize, usize)> = Vec::new();
        let mut i: usize = 0;
        proof {
            assert(pairs.take(0) =~= Seq::<(int, int)>::empty());
            reveal(Seq::filter);
        }
        while i < all.len()
            invariant
                i <= all@.len(),
                keep == |e: (int, int)| e.0 <= e.1,
                pairs == all@.map_values(|e: (usize, usize)| (e.0 as int, e.1 as int)),
                edges@.map_values(|e: (usize, usize)| (e.0 as int, e.1 as int)) == pairs.take(
                    i as int,
                ).filter(keep),
            decreases all@.len() - i,
        {
            let e = all[i];
            let ghost before = edges@.map_values(|e: (usize, usize)| (e.0 as int, e.1 as int));
            if e.0 <= e.1 {
                edges.push(e);
            }
            i += 1;
            proof {
                reveal(Seq::filter);
                let now = pairs.take(i as int);
                assert(now.drop_last() =~= pairs.take(i - 1));
                assert(now.last() == (e.0 as int, e.1 as int));
                if e.0 <= e.1 {
                    assert(edges@.map_values(|e: (usize, usize)| (e.0 as int, e.1 as int))
                        =~= before.push((e.0 as int, e.1 as int)));
                }
            }
        }
        assert(pairs.take(i as int) =~= pairs);
        edges
    }

    fn degrees(&self) -> (degrees: Vec<usize>) {
        let n = self.arcs.size();
        let mut degrees: Vec<usize> = Vec::new();
        let mut v: usize = 0;
        while v < n
            invariant
                v <= n,
                n == self@.size,
                self@.wf(),
                degrees@.len() == v,
                forall|w: int|
                    0 <= w < v ==> #[trigger] degrees@[w] == self@.adjacent_to(w).len(),
            decreases n - v,
        {
            let adjacent = self.arcs.adjacent_to(v).collect();
            assert(adjacent@.map_values(|i: usize| i as int).len() == adjacent@.len());
            degrees.push(adjacent.len());
            v += 1;
        }
        degrees
    }
}

} // verus!
