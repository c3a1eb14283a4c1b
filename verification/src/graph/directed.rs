//! Directed graph

use crate::graph::AdjacencyMatrix;
use crate::graph::Graph;
use std::ops::Range;
use vstd::prelude::*;
use vstd::string::StringExecFns;

verus! {

/// Directed graph
#[derive(Debug, Hash, PartialEq, Eq)]
pub struct DirectedGraph {
    size: usize,
    adjacency_matrix: Vec<bool>,
}

impl View for DirectedGraph {
    type V = AdjacencyMatrix;

    closed spec fn view(&self) -> AdjacencyMatrix {
        AdjacencyMatrix { size: self.size as nat, entries: self.adjacency_matrix@ }
    }
}

impl Clone for DirectedGraph {
    fn clone(&self) -> (g: Self)
        ensures
            g@ == self@,
    {
        let g = DirectedGraph { size: self.size, adjacency_matrix: self.adjacency_matrix.clone() };
        assert(g.adjacency_matrix@ =~= self.adjacency_matrix@);
        g
    }
}

impl DirectedGraph {
    /// The matrix index of a valid vertex pair is computed without overflow.
    proof fn lemma_exec_index(&self, out_vertex: usize, in_vertex: usize)
        requires
            self@.wf(),
            out_vertex < self@.size,
            in_vertex < self@.size,
        ensures
            0 <= self.size * in_vertex <= self.size * in_vertex + out_vertex
                < self.adjacency_matrix@.len() <= usize::MAX,
    {
        self@.lemma_index_bound(out_vertex as int, in_vertex as int);
        assert(self.adjacency_matrix@.len() == self.adjacency_matrix.len());
        assert(0 <= self.size * in_vertex) by (nonlinear_arith);
    }

    /// Create an empty graph without any edges between vertices
    pub fn empty(size: usize) -> (g: Self)
        requires
            size * size <= usize::MAX,
        ensures
            g@ == AdjacencyMatrix::empty(size as nat),
            g@.wf(),
    {
        let g = DirectedGraph { size, adjacency_matrix: vec![false; size * size] };
        assert(g@.entries =~= AdjacencyMatrix::empty(size as nat).entries);
        g
    }

    /// Create a graph from flattened adjecency matrix. Must be correct length
    pub fn from_vec(size: usize, vec: Vec<bool>) -> (r: Option<Self>)
        ensures
            r is Some <==> vec@.len() == size * size,
            r matches Some(g) ==> g@ == (AdjacencyMatrix { size: size as nat, entries: vec@ }),
    {
        let vec_len = vec.len();
        match size.checked_mul(size) {
            Some(len) => {
                if vec_len != len {
                    return None;
                }
                Some(DirectedGraph { size, adjacency_matrix: vec })
            },
            None => {
                None
            },
        }
    }

    /// Create a graph from adjecency matrix. Must be correct length
    pub fn from_matrix(size: usize, matrix: &[Vec<bool>]) -> (r: Option<Self>)
        ensures
            r is Some <==> matrix@.map_values(|row: Vec<bool>| row@).flatten().len() == size
                * size,
            r matches Some(g) ==> g@ == (AdjacencyMatrix {
                size: size as nat,
                entries: matrix@.map_values(|row: Vec<bool>| row@).flatten(),
            }),
    {
        let ghost rows = matrix@.map_values(|row: Vec<bool>| row@);
        let mut vec: Vec<bool> = Vec::new();
        let mut i: usize = 0;
        while i < matrix.len()
            invariant
                i <= matrix@.len(),
                rows == matrix@.map_values(|row: Vec<bool>| row@),
                vec@ == rows.take(i as int).flatten(),
            decreases matrix@.len() - i,
        {
            let row = &matrix[i];
            let ghost before = vec@;
            let mut j: usize = 0;
            while j < row.len()
                invariant
                    j <= row@.len(),
                    vec@ == before + row@.take(j as int),
                decreases row@.len() - j,
            {
                vec.push(row[j]);
                j += 1;
                assert(row@.take(j as int) =~= row@.take(j - 1).push(row@[j - 1]));
                assert(vec@ =~= before + row@.take(j as int));
            }
            proof {
                assert(row@.take(j as int) =~= row@);
                assert(rows.take(i + 1) =~= rows.take(i as int).push(rows[i as int]));
                rows.take(i as int).lemma_flatten_push(rows[i as int]);
            }
            i += 1;
        }
        assert(rows.take(i as int) =~= rows);
        Self::from_vec(size, vec)
    }

    /// Get number of vertices in the graph.
    pub fn size(&self) -> (n: usize)
        ensures
            n == self@.size,
            self@.wf() ==> n * n <= usize::MAX,
    {
        assert(self.adjacency_matrix@.len() == self.adjacency_matrix.len());
        self.size
    }

    /// Whether both are the same graph.
    pub fn same(&self, other: &Self) -> (b: bool)
        ensures
            b == (self@ == other@),
    {
        if self.size != other.size || self.adjacency_matrix.len() != other.adjacency_matrix.len() {
            assert(self@.entries.len() == self.adjacency_matrix@.len());
            assert(other@.entries.len() == other.adjacency_matrix@.len());
            return false;
        }
        let mut i: usize = 0;
        while i < self.adjacency_matrix.len()
            invariant
                i <= self.adjacency_matrix@.len(),
                self.adjacency_matrix@.len() == other.adjacency_matrix@.len(),
                forall|k: int| 0 <= k < i ==> self.adjacency_matrix@[k] == other.adjacency_matrix@[k],
            decreases self.adjacency_matrix@.len() - i,
        {
            if self.adjacency_matrix[i] != other.adjacency_matrix[i] {
                assert(self@.entries[i as int] != other@.entries[i as int]);
                return false;
            }
            i += 1;
        }
        assert(self@.entries =~= other@.entries);
        true
    }

    /// Check if two vertices are adjacent.
    pub fn are_adjacent(&self, out_vertex: usize, in_vertex: usize) -> (b: bool)
        requires
            self@.wf(),
            out_vertex < self@.size,
            in_vertex < self@.size,
        ensures
            b == self@.has_edge(out_vertex as int, in_vertex as int),
    {
        proof {
            self.lemma_exec_index(out_vertex, in_vertex);
        }
        self.adjacency_matrix[self.size * in_vertex + out_vertex]
    }

    /// Connect two vertices with an edge.
    pub fn connect(&mut self, out_vertex: usize, in_vertex: usize, connect: bool)
        requires
            old(self)@.wf(),
            out_vertex < old(self)@.size,
            in_vertex < old(self)@.size,
        ensures
            final(self)@ == old(self)@.set_edge(out_vertex as int, in_vertex as int, connect),
            final(self)@.wf(),
    {
        proof {
            self.lemma_exec_index(out_vertex, in_vertex);
        }
        self.adjacency_matrix.set(self.size * in_vertex + out_vertex, connect);
    }

    /// Get vertices adjacent to `out_vertex`.
    pub fn adjacent_to(&self, out_vertex: usize) -> (it: AdjacentIter<'_>)
        requires
            self@.wf(),
            out_vertex < self@.size,
        ensures
            it.wf(),
            it.remaining() == self@.adjacent_to(out_vertex as int),
    {
        AdjacentIter { vertex: out_vertex, idx: 0, graph: self }
    }

    /// Get edges of the graph
    pub fn edges(&self) -> (it: EdgesIter<'_>)
        requires
            self@.wf(),
        ensures
            it.wf(),
            it.remaining() == self@.edges(),
    {
        proof {
            if self@.size > 0 {
                assert(self@.size * 0 + 0 == 0);
            }
        }
        EdgesIter { u: 0, v: 0, graph: self }
    }

    /// Get iterator over vertices
    pub fn vertices(&self) -> (r: Range<usize>)
        ensures
            r.start == 0,
            r.end == self@.size,
    {
        0..self.size
    }

    /// Add a new disconnected vertex at the end of the graph
    pub fn add_vertex(&mut self)
        requires
            old(self)@.wf(),
            (old(self)@.size + 1) * (old(self)@.size + 1) <= usize::MAX,
        ensures
            final(self)@.wf(),
            final(self)@.size == old(self)@.size + 1,
            forall|u: int, v: int| #[trigger]
                final(self)@.has_edge(u, v) == old(self)@.has_edge(u, v),
    {
        let n = self.size;
        assert(n + 1 <= usize::MAX) by (nonlinear_arith)
            requires
                (n + 1) * (n + 1) <= usize::MAX,
        ;
        let mut new_graph = Self::empty(n + 1);
        assert forall|u: int, v: int| !#[trigger] new_graph@.has_edge(u, v) by {
            if 0 <= u < n + 1 && 0 <= v < n + 1 {
                new_graph@.lemma_index_bound(u, v);
            }
        }
        let mut in_v: usize = 0;
        while in_v < n
            invariant
                n == self@.size,
                self@.wf(),
                in_v <= n,
                new_graph@.wf(),
                new_graph@.size == n + 1,
                forall|u: int, v: int| #[trigger]
                    new_graph@.has_edge(u, v) == (v < in_v && self@.has_edge(u, v)),
            decreases n - in_v,
        {
            let mut out_v: usize = 0;
            while out_v < n
                invariant
                    n == self@.size,
                    self@.wf(),
                    in_v < n,
                    out_v <= n,
                    new_graph@.wf(),
                    new_graph@.size == n + 1,
                    forall|u: int, v: int| #[trigger]
                        new_graph@.has_edge(u, v) == ((v < in_v || (v == in_v && u < out_v))
                            && self@.has_edge(u, v)),
                decreases n - out_v,
            {
                let ghost prev = new_graph@;
                let b = self.are_adjacent(out_v, in_v);
                new_graph.connect(out_v, in_v, b);
                proof {
                    prev.lemma_set_edge(out_v as int, in_v as int, b);
                }
                out_v += 1;
            }
            in_v += 1;
        }
        *self = new_graph;
    }

    /// Remove a given vertex from the graph, remove all its edges
    pub fn remove_vertex(&mut self, vertex_to_remove: usize)
        requires
            old(self)@.wf(),
            old(self)@.size > 0,
        ensures
            final(self)@.wf(),
            final(self)@.size == old(self)@.size - 1,
            forall|u: int, v: int|
                0 <= u < final(self)@.size && 0 <= v < final(self)@.size ==> (#[trigger]
                final(self)@.has_edge(u, v) == old(self)@.has_edge(
                    if u >= vertex_to_remove {
                        u + 1
                    } else {
                        u
                    },
                    if v >= vertex_to_remove {
                        v + 1
                    } else {
                        v
                    },
                )),
    {
        let n = self.size - 1;
        proof {
            assert(n * n <= (n + 1) * (n + 1)) by (nonlinear_arith)
                requires
                    n >= 0,
            ;
            assert(self.adjacency_matrix@.len() == self.adjacency_matrix.len());
        }
        let mut new_graph = Self::empty(n);
        let mut in_v: usize = 0;
        while in_v < n
            invariant
                n + 1 == self@.size,
                self@.wf(),
                in_v <= n,
                new_graph@.wf(),
                new_graph@.size == n,
                forall|u: int, v: int|
                    0 <= u < n && 0 <= v < in_v ==> (#[trigger] new_graph@.has_edge(u, v)
                        == self@.has_edge(
                        if u >= vertex_to_remove {
                            u + 1
                        } else {
                            u
                        },
                        if v >= vertex_to_remove {
                            v + 1
                        } else {
                            v
                        },
                    )),
            decreases n - in_v,
        {
            let mut out_v: usize = 0;
            while out_v < n
                invariant
                    n + 1 == self@.size,
                    self@.wf(),
                    in_v < n,
                    out_v <= n,
                    new_graph@.wf(),
                    new_graph@.size == n,
                    forall|u: int, v: int|
                        0 <= u < n && 0 <= v < n && (v < in_v || (v == in_v && u < out_v))
                            ==> (#[trigger] new_graph@.has_edge(u, v) == self@.has_edge(
                            if u >= vertex_to_remove {
                                u + 1
                            } else {
                                u
                            },
                            if v >= vertex_to_remove {
                                v + 1
                            } else {
                                v
                            },
                        )),
                decreases n - out_v,
            {
                let ghost prev = new_graph@;
                // Skip over vertex we're removing
                let from_out = if out_v >= vertex_to_remove {
                    out_v + 1
                } else {
                    out_v
                };
                let from_in = if in_v >= vertex_to_remove {
                    in_v + 1
                } else {
                    in_v
                };
                let b = self.are_adjacent(from_out, from_in);
                new_graph.connect(out_v, in_v, b);
                proof {
                    prev.lemma_set_edge(out_v as int, in_v as int, b);
                }
                out_v += 1;
            }
            in_v += 1;
        }
        *self = new_graph;
    }

    /// The adjacency matrix as text: one line of `0` and `1` per row.
    pub fn to_string(&self) -> (s: String)
        requires
            self@.wf(),
        ensures
            s@ == self@.text_from(0),
    {
        let mut s = String::new();
        let len = self.adjacency_matrix.len();
        let mut idx: usize = 0;
        while idx < len
            invariant
                self@.wf(),
                len == self@.entries.len(),
                idx <= len,
                s@ + self@.text_from(idx as int) == self@.text_from(0),
            decreases len - idx,
        {
            proof {
                self@.lemma_index_split(idx as int);
                reveal_strlit("0");
                reveal_strlit("1");
                reveal_strlit("\n");
            }
            let ghost before = s@;
            if self.adjacency_matrix[idx] {
                s.append("1");
            } else {
                s.append("0");
            }
            if (idx + 1) % self.size == 0 {
                s.append("\n");
            }
            assert(s@ + self@.text_from(idx + 1) =~= before + self@.text_from(idx as int));
            idx += 1;
        }
        assert(self@.text_from(idx as int) =~= Seq::<char>::empty());
        assert(s@ + Seq::<char>::empty() =~= s@);
        s
    }
}

impl Graph for DirectedGraph {
    open spec fn matrix(&self) -> AdjacencyMatrix {
        self@
    }

    open spec fn valid(&self) -> bool {
        self@.wf()
    }

    open spec fn connect_spec(
        m: AdjacencyMatrix,
        lhs: int,
        rhs: int,
        connect: bool,
    ) -> AdjacencyMatrix {
        m.set_edge(lhs, rhs, connect)
    }

    /// Every edge, in the order of the matrix.
    open spec fn edges_spec(m: AdjacencyMatrix) -> Seq<(int, int)> {
        m.edges()
    }

    /// The number of vertices that `vertex` has an edge to.
    open spec fn degree_spec(m: AdjacencyMatrix, vertex: int) -> nat {
        m.adjacent_to(vertex).len()
    }

    fn empty(size: usize) -> (g: Self) {
        DirectedGraph::empty(size)
    }

    fn size(&self) -> (n: usize) {
        DirectedGraph::size(self)
    }

    fn vertices(&self) -> (r: Range<usize>) {
        DirectedGraph::vertices(self)
    }

    fn add_vertex(&mut self) -> (vertex: usize) {
        let vertex = self.size;
        DirectedGraph::add_vertex(self);
        vertex
    }

    fn remove_vertex(&mut self, vertex_to_remove: usize) {
        DirectedGraph::remove_vertex(self, vertex_to_remove)
    }

    fn connect(&mut self, lhs_vertex: usize, rhs_vertex: usize, connect: bool) {
        DirectedGraph::connect(self, lhs_vertex, rhs_vertex, connect)
    }

    fn adjacent_to(&self, vertex: usize) -> (adjacent: Vec<usize>) {
        DirectedGraph::adjacent_to(self, vertex).collect()
    }

    fn edges(&self) -> (edges: Vec<(usize, usize)>) {
        DirectedGraph::edges(self).collect()
    }

    fn degrees(&self) -> (degrees: Vec<usize>) {
        let n = self.size;
        let mut degrees: Vec<usize> = Vec::new();
        let mut v: usize = 0;
        while v < n
            invariant
                v <= n,
                n == self@.size,
                self@.wf(),
                degrees@.len() == v,
                forall|w: int|
                    0 <= w < v ==> #[trigger] degrees@[w] == self@.adjacent_to(w).len(),
            decreases n - v,
        {
            let adjacent = DirectedGraph::adjacent_to(self, v).collect();
            assert(adjacent@.map_values(|i: usize| i as int).len() == adjacent@.len());
            degrees.push(adjacent.len());
            v += 1;
        }
        degrees
    }
}

/// Iterator over graph edges, constructed with [`DirectedGraph::edges`].
pub struct EdgesIter<'graph> {
    u: usize,
    v: usize,
    graph: &'graph DirectedGraph,
}

impl<'graph> EdgesIter<'graph> {
    /// The cursor is inside the matrix of a well-formed graph, or at its end.
    pub closed spec fn wf(&self) -> bool {
        &&& self.graph@.wf()
        &&& self.u <= self.graph@.size
        &&& self.v <= self.graph@.size
        &&& self.v == self.graph@.size ==> self.u == 0
    }

    /// The graph that is iterated over.
    pub closed spec fn graph(&self) -> AdjacencyMatrix {
        self.graph@
    }

    /// The edges still to come, in order.
    pub closed spec fn remaining(&self) -> Seq<(int, int)> {
        self.graph@.edges_from(self.graph@.size * self.v + self.u)
    }

    /// Hands out the next edge `(out_vertex, in_vertex)`, or `None` at the end.
    pub fn next(&mut self) -> (r: Option<(usize, usize)>)
        requires
            old(self).wf(),
        ensures
            final(self).wf(),
            final(self).graph() == old(self).graph(),
            match r {
                Some(e) => old(self).remaining() == seq![(e.0 as int, e.1 as int)] + final(self).remaining(),
                None => old(self).remaining() == Seq::<(int, int)>::empty() && final(self).remaining() == old(self).remaining(),
            },
    {
        let n = self.graph.size();
        loop
            invariant
                self.wf(),
                n == self.graph@.size,
                self.graph == old(self).graph,
                self.remaining() == old(self).remaining(),
            decreases n - self.v, n - self.u,
        {
            proof {
                assert(n * n == self.graph@.entries.len());
                assert(n * self.v + self.u <= n * n) by (nonlinear_arith)
                    requires
                        self.u <= n,
                        self.v <= n,
                        self.v == n ==> self.u == 0,
                ;
            }
            if self.v >= n {
                return None;
            }
            if self.u >= n {
                assert(n * self.v + self.u == n * (self.v + 1) + 0) by (nonlinear_arith)
                    requires
                        self.u == n,
                ;
                self.u = 0;
                self.v += 1;
                continue ;
            }
            proof {
                self.graph@.lemma_index_bound(self.u as int, self.v as int);
                assert(n * self.v + (self.u + 1) == n * self.v + self.u + 1);
            }
            if self.graph.are_adjacent(self.u, self.v) {
                let res = Some((self.u, self.v));
                self.u += 1;
                return res;
            }
            self.u += 1;
        }
    }

    /// Hands out all remaining edges.
    pub fn collect(self) -> (edges: Vec<(usize, usize)>)
        requires
            self.wf(),
        ensures
            edges@.map_values(|e: (usize, usize)| (e.0 as int, e.1 as int)) == self.remaining(),
    {
        let mut it = self;
        let mut edges: Vec<(usize, usize)> = Vec::new();
        loop
            invariant
                it.wf(),
                it.graph() == self.graph(),
                edges@.map_values(|e: (usize, usize)| (e.0 as int, e.1 as int)) + it.remaining()
                    == self.remaining(),
            decreases it.remaining().len(),
        {
            let ghost before = edges@.map_values(|e: (usize, usize)| (e.0 as int, e.1 as int));
            let ghost rest = it.remaining();
            match it.next() {
                Some(e) => {
                    edges.push(e);
                    assert(edges@.map_values(|e: (usize, usize)| (e.0 as int, e.1 as int))
                        =~= before.push((e.0 as int, e.1 as int)));
                    assert(before.push((e.0 as int, e.1 as int)) + it.remaining() =~= before
                        + rest);
                },
                None => {
                    assert(before + rest =~= before);
                    return edges;
                },
            }
        }
    }
}

/// Iterator of adjacent vertices. Obtained by calling [`DirectedGraph::adjacent_to`]
#[derive(Debug)]
pub struct AdjacentIter<'graph> {
    vertex: usize,
    idx: usize,
    graph: &'graph DirectedGraph,
}

impl<'graph> AdjacentIter<'graph> {
    /// The cursor is inside a well-formed graph, or at its end.
    pub closed spec fn wf(&self) -> bool {
        &&& self.graph@.wf()
        &&& self.vertex < self.graph@.size
        &&& self.idx <= self.graph@.size
    }

    /// The graph that is iterated over.
    pub closed spec fn graph(&self) -> AdjacencyMatrix {
        self.graph@
    }

    /// The adjacent vertices still to come, in increasing order.
    pub closed spec fn remaining(&self) -> Seq<int> {
        self.graph@.adjacent_from(self.vertex as int, self.idx as int)
    }

    /// Hands out the next adjacent vertex, or `None` at the end.
    pub fn next(&mut self) -> (r: Option<usize>)
        requires
            old(self).wf(),
        ensures
            final(self).wf(),
            final(self).graph() == old(self).graph(),
            match r {
                Some(i) => old(self).remaining() == seq![i as int] + final(self).remaining(),
                None => old(self).remaining() == Seq::<int>::empty() && final(self).remaining()
                    == old(self).remaining(),
            },
    {
        loop
            invariant
                self.wf(),
                self.graph == old(self).graph,
                self.vertex == old(self).vertex,
                self.remaining() == old(self).remaining(),
            decreases self.graph@.size - self.idx,
        {
            if self.idx >= self.graph.size() {
                return None;
            }
            if self.graph.are_adjacent(self.vertex, self.idx) {
                let res = Some(self.idx);
                self.idx += 1;
                return res;
            }
            self.idx += 1;
        }
    }

    /// Hands out all remaining adjacent vertices.
    pub fn collect(self) -> (vertices: Vec<usize>)
        requires
            self.wf(),
        ensures
            vertices@.map_values(|i: usize| i as int) == self.remaining(),
    {
        let mut it = self;
        let mut vertices: Vec<usize> = Vec::new();
        loop
            invariant
                it.wf(),
                it.graph() == self.graph(),
                vertices@.map_values(|i: usize| i as int) + it.remaining() == self.remaining(),
            decreases it.remaining().len(),
        {
            let ghost before = vertices@.map_values(|i: usize| i as int);
            let ghost rest = it.remaining();
            match it.next() {
                Some(i) => {
                    vertices.push(i);
                    assert(vertices@.map_values(|i: usize| i as int) =~= before.push(i as int));
                    assert(before.push(i as int) + it.remaining() =~= before + rest);
                },
                None => {
                    assert(before + rest =~= before);
                    return vertices;
                },
            }
        }
    }
}

} // verus!
