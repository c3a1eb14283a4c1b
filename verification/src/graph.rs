//! Simple graph implementations backed by adjacency matrices.

use std::collections::VecDeque;
use std::ops::Range;
use vstd::prelude::*;

pub mod directed;
pub mod undirected;

verus! {

/// Mathematical model of a graph on the vertices `0..size`: a row-major
/// square matrix of booleans. The entry for an edge from `out_vertex` to
/// `in_vertex` is at index `size * in_vertex + out_vertex`.
pub struct AdjacencyMatrix {
    pub size: nat,
    pub entries: Seq<bool>,
}

impl AdjacencyMatrix {
    /// The matrix has exactly one entry per ordered pair of vertices.
    pub open spec fn wf(self) -> bool {
        self.entries.len() == self.size * self.size
    }

    /// Whether there is an edge from `out_vertex` to `in_vertex`.
    pub open spec fn has_edge(self, out_vertex: int, in_vertex: int) -> bool {
        &&& 0 <= out_vertex < self.size
        &&& 0 <= in_vertex < self.size
        &&& self.entries[self.size * in_vertex + out_vertex]
    }

    /// The matrix is symmetric: every edge is present in both directions.
    pub open spec fn symmetric(self) -> bool {
        forall|u: int, v: int| self.has_edge(u, v) == #[trigger] self.has_edge(v, u)
    }

    /// The graph on `size` vertices without edges.
    pub open spec fn empty(size: nat) -> Self {
        AdjacencyMatrix { size, entries: Seq::new(size * size, |i: int| false) }
    }

    /// The matrix after the entry for the edge from `out_vertex` to
    /// `in_vertex` is set to `connect`.
    pub open spec fn set_edge(self, out_vertex: int, in_vertex: int, connect: bool) -> Self {
        AdjacencyMatrix {
            size: self.size,
            entries: self.entries.update(self.size * in_vertex + out_vertex, connect),
        }
    }

    /// The edges `(out_vertex, in_vertex)` whose matrix index is at least `k`,
    /// in the order of their matrix indices.
    pub open spec fn edges_from(self, k: int) -> Seq<(int, int)>
        decreases self.entries.len() - k,
    {
        if k < 0 || k >= self.entries.len() || self.size == 0 {
            Seq::empty()
        } else if self.entries[k] {
            seq![(k % (self.size as int), k / (self.size as int))] + self.edges_from(k + 1)
        } else {
            self.edges_from(k + 1)
        }
    }

    /// All edges of the graph, in the order of their matrix indices.
    pub open spec fn edges(self) -> Seq<(int, int)> {
        self.edges_from(0)
    }

    /// The vertices `i >= idx` with an edge from `vertex` to `i`, in
    /// increasing order.
    pub open spec fn adjacent_from(self, vertex: int, idx: int) -> Seq<int>
        decreases self.size - idx,
    {
        if idx < 0 || idx >= self.size {
            Seq::empty()
        } else if self.has_edge(vertex, idx) {
            seq![idx] + self.adjacent_from(vertex, idx + 1)
        } else {
            self.adjacent_from(vertex, idx + 1)
        }
    }

    /// The vertices that `vertex` has an edge to, in increasing order.
    pub open spec fn adjacent_to(self, vertex: int) -> Seq<int> {
        self.adjacent_from(vertex, 0)
    }

    /// The rows of the matrix from index `k` on, as text: one `0` or `1` per
    /// entry and a line feed after each row.
    pub open spec fn text_from(self, k: int) -> Seq<char>
        decreases self.entries.len() - k,
    {
        if k < 0 || k >= self.entries.len() || self.size == 0 {
            Seq::empty()
        } else {
            seq![if self.entries[k] { '1' } else { '0' }] + (if (k + 1) % (self.size as int) == 0 {
                seq!['\n']
            } else {
                Seq::empty()
            }) + self.text_from(k + 1)
        }
    }

    /// A walk along edges: every vertex of `path` has an edge to the next one.
    pub open spec fn is_path(self, path: Seq<int>) -> bool {
        &&& path.len() > 0
        &&& 0 <= path[0] < self.size
        &&& forall|i: int| 0 <= i < path.len() - 1 ==> self.has_edge(path[i], #[trigger] path[i + 1])
    }

    /// Whether a walk along edges leads from `from` to `to`.
    pub open spec fn reachable(self, from: int, to: int) -> bool {
        exists|path: Seq<int>| #[trigger]
            self.is_path(path) && path.first() == from && path.last() == to
    }

    /// Whether every vertex can be reached from vertex 0. The graph without
    /// vertices is connected.
    pub open spec fn is_connected(self) -> bool {
        self.size == 0 || forall|v: int| 0 <= v < self.size ==> self.reachable(0, v)
    }

    /// `seen` holds, with each vertex, all the vertices it has an edge to.
    pub open spec fn closed_under_edges(self, seen: Seq<bool>) -> bool {
        forall|v: int, u: int|
            0 <= v < seen.len() && seen[v] && #[trigger] self.has_edge(v, u) ==> seen[u]
    }

    /// A set of vertices that is closed under edges holds every vertex that
    /// can be reached from one of its members.
    pub proof fn lemma_closed_holds_reachable(self, seen: Seq<bool>, path: Seq<int>)
        requires
            seen.len() == self.size,
            self.closed_under_edges(seen),
            self.is_path(path),
            seen[path.first()],
        ensures
            seen[path.last()],
        decreases path.len(),
    {
        if path.len() > 1 {
            let shorter = path.drop_last();
            assert forall|i: int| 0 <= i < shorter.len() - 1 implies self.has_edge(
                shorter[i],
                #[trigger] shorter[i + 1],
            ) by {
                assert(shorter[i + 1] == path[i + 1]);
            }
            self.lemma_closed_holds_reachable(seen, shorter);
            let k = path.len() - 2;
            assert(self.has_edge(path[k], path[k + 1]));
        }
    }

    /// A walk that ends in `v` goes on along an edge from `v` to `u`.
    pub proof fn lemma_reachable_step(self, from: int, v: int, u: int)
        requires
            self.reachable(from, v),
            self.has_edge(v, u),
        ensures
            self.reachable(from, u),
    {
        let path = choose|path: Seq<int>| #[trigger]
            self.is_path(path) && path.first() == from && path.last() == v;
        let longer = path.push(u);
        assert forall|i: int| 0 <= i < longer.len() - 1 implies self.has_edge(
            longer[i],
            #[trigger] longer[i + 1],
        ) by {
            if i < path.len() - 1 {
                assert(longer[i + 1] == path[i + 1]);
            }
        }
        assert(self.is_path(longer) && longer.first() == from && longer.last() == u);
    }

    /// `adjacent_from` lists, in strictly increasing order, exactly the
    /// vertices from `idx` on that `vertex` has an edge to.
    pub proof fn lemma_adjacent_from(self, vertex: int, idx: int)
        requires
            0 <= idx,
        ensures
            forall|i: int| #[trigger]
                self.adjacent_from(vertex, idx).contains(i) <==> (idx <= i && self.has_edge(
                    vertex,
                    i,
                )),
            forall|a: int, b: int|
                0 <= a < b < self.adjacent_from(vertex, idx).len() ==> self.adjacent_from(
                    vertex,
                    idx,
                )[a] < self.adjacent_from(vertex, idx)[b],
        decreases self.size - idx,
    {
        let s = self.adjacent_from(vertex, idx);
        if idx < self.size {
            self.lemma_adjacent_from(vertex, idx + 1);
            let rest = self.adjacent_from(vertex, idx + 1);
            if self.has_edge(vertex, idx) {
                assert(s == seq![idx] + rest);
                assert(s.len() == rest.len() + 1);
                assert(s[0] == idx);
                assert forall|k: int| 1 <= k < s.len() implies s[k] == rest[k - 1] by {}
                assert forall|i: int| #[trigger] s.contains(i) implies idx <= i && self.has_edge(
                    vertex,
                    i,
                ) by {
                    let k = choose|k: int| 0 <= k < s.len() && s[k] == i;
                    if k > 0 {
                        assert(rest[k - 1] == i);
                        assert(rest.contains(i));
                    }
                }
                assert forall|i: int| idx <= i && self.has_edge(vertex, i) implies #[trigger]
                    s.contains(i) by {
                    if i == idx {
                        assert(s[0] == i);
                    } else {
                        assert(rest.contains(i));
                        let k = choose|k: int| 0 <= k < rest.len() && rest[k] == i;
                        assert(s[k + 1] == i);
                    }
                }
                assert forall|a: int, b: int| 0 <= a < b < s.len() implies s[a] < s[b] by {
                    assert(s[b] == rest[b - 1]);
                    assert(rest.contains(rest[b - 1]));
                    if a > 0 {
                        assert(s[a] == rest[a - 1]);
                    }
                }
            } else {
                assert(s == rest);
            }
        } else {
            assert(s.len() == 0);
        }
    }

    /// Matrix indices of valid vertex pairs are in bounds.
    pub proof fn lemma_index_bound(self, out_vertex: int, in_vertex: int)
        requires
            self.wf(),
            0 <= out_vertex < self.size,
            0 <= in_vertex < self.size,
        ensures
            0 <= self.size * in_vertex + out_vertex < self.entries.len(),
            (self.size * in_vertex + out_vertex) % (self.size as int) == out_vertex,
            (self.size * in_vertex + out_vertex) / (self.size as int) == in_vertex,
    {
        let n = self.size as int;
        assert(0 <= n * in_vertex + out_vertex < n * n) by (nonlinear_arith)
            requires
                0 <= out_vertex < n,
                0 <= in_vertex < n,
        ;
        assert(n * in_vertex == in_vertex * n) by (nonlinear_arith);
        vstd::arithmetic::div_mod::lemma_fundamental_div_mod_converse(
            n * in_vertex + out_vertex,
            n,
            in_vertex,
            out_vertex,
        );
    }

    /// A matrix index splits into a valid vertex pair.
    pub proof fn lemma_index_split(self, k: int)
        requires
            self.wf(),
            0 <= k < self.entries.len(),
        ensures
            self.size > 0,
            0 <= k % (self.size as int) < self.size,
            0 <= k / (self.size as int) < self.size,
            self.size * (k / (self.size as int)) + k % (self.size as int) == k,
    {
        let n = self.size as int;
        assert(n > 0) by (nonlinear_arith)
            requires
                0 <= k < n * n,
                n >= 0,
        ;
        vstd::arithmetic::div_mod::lemma_fundamental_div_mod(k, n);
        assert(0 <= k / n < n) by (nonlinear_arith)
            requires
                0 <= k < n * n,
                n > 0,
                k == n * (k / n) + k % n,
                0 <= k % n < n,
        ;
    }

    /// Setting the entry of an edge in both directions leaves every other edge as it was.
    pub proof fn lemma_set_both(self, lhs: int, rhs: int, connect: bool)
        requires
            self.wf(),
            0 <= lhs < self.size,
            0 <= rhs < self.size,
        ensures
            self.set_edge(lhs, rhs, connect).set_edge(rhs, lhs, connect).wf(),
            forall|u: int, v: int| #[trigger]
                self.set_edge(lhs, rhs, connect).set_edge(rhs, lhs, connect).has_edge(u, v) == (if (
                u == lhs && v == rhs) || (u == rhs && v == lhs) {
                    connect
                } else {
                    self.has_edge(u, v)
                }),
    {
        self.lemma_set_edge(lhs, rhs, connect);
        self.set_edge(lhs, rhs, connect).lemma_set_edge(rhs, lhs, connect);
    }

    /// Setting one entry leaves every other edge as it was.
    pub proof fn lemma_set_edge(self, out_vertex: int, in_vertex: int, connect: bool)
        requires
            self.wf(),
            0 <= out_vertex < self.size,
            0 <= in_vertex < self.size,
        ensures
            self.set_edge(out_vertex, in_vertex, connect).wf(),
            forall|u: int, v: int| #[trigger]
                self.set_edge(out_vertex, in_vertex, connect).has_edge(u, v) == (if u
                    == out_vertex && v == in_vertex {
                    connect
                } else {
                    self.has_edge(u, v)
                }),
    {
        let m = self.set_edge(out_vertex, in_vertex, connect);
        self.lemma_index_bound(out_vertex, in_vertex);
        assert forall|u: int, v: int| #[trigger]
            m.has_edge(u, v) == (if u == out_vertex && v == in_vertex {
                connect
            } else {
                self.has_edge(u, v)
            }) by {
            if 0 <= u < self.size && 0 <= v < self.size {
                self.lemma_index_bound(u, v);
            }
        }
    }
}

/// The numbers `0..k`, in order.
pub open spec fn indices(k: nat) -> Seq<int> {
    Seq::new(k, |i: int| i)
}

/// How many entries of `s` are `true`.
pub open spec fn count_true(s: Seq<bool>) -> nat
    decreases s.len(),
{
    if s.len() == 0 {
        0
    } else {
        count_true(s.drop_last()) + if s.last() {
            1nat
        } else {
            0nat
        }
    }
}

/// No more entries are `true` than there are entries.
pub proof fn lemma_count_true_bound(s: Seq<bool>)
    ensures
        count_true(s) <= s.len(),
    decreases s.len(),
{
    if s.len() > 0 {
        lemma_count_true_bound(s.drop_last());
    }
}

/// Turning one entry from `false` to `true` raises the count by one.
pub proof fn lemma_count_true_update(s: Seq<bool>, i: int)
    requires
        0 <= i < s.len(),
        !s[i],
    ensures
        count_true(s.update(i, true)) == count_true(s) + 1,
    decreases s.len(),
{
    let t = s.update(i, true);
    if i == s.len() - 1 {
        assert(t.drop_last() =~= s.drop_last());
    } else {
        assert(t.drop_last() =~= s.drop_last().update(i, true));
        lemma_count_true_update(s.drop_last(), i);
    }
}

/// A graph on the vertices `0..size`.
pub trait Graph: Sized {
    /// The adjacency matrix that the graph stands for.
    spec fn matrix(&self) -> AdjacencyMatrix;

    /// The graph keeps the invariant of its representation.
    spec fn valid(&self) -> bool;

    /// What `connect` does to the adjacency matrix.
    spec fn connect_spec(m: AdjacencyMatrix, lhs: int, rhs: int, connect: bool) -> AdjacencyMatrix;

    /// What `edges` lists of an adjacency matrix.
    spec fn edges_spec(m: AdjacencyMatrix) -> Seq<(int, int)>;

    /// The degree of a vertex.
    spec fn degree_spec(m: AdjacencyMatrix, vertex: int) -> nat;

    /// Create a graph without edges.
    fn empty(size: usize) -> (g: Self)
        requires
            size * size <= usize::MAX,
        ensures
            g.valid(),
            g.matrix() == AdjacencyMatrix::empty(size as nat),
    ;

    /// Get number of vertices in the graph.
    fn size(&self) -> (n: usize)
        ensures
            n == self.matrix().size,
            self.valid() ==> n * n <= usize::MAX,
    ;

    /// The vertices of the graph.
    fn vertices(&self) -> (r: Range<usize>)
        ensures
            r.start == 0,
            r.end == self.matrix().size,
    ;

    /// Add a new disconnected vertex at the end of the graph, and return it.
    fn add_vertex(&mut self) -> (vertex: usize)
        requires
            old(self).valid(),
            (old(self).matrix().size + 1) * (old(self).matrix().size + 1) <= usize::MAX,
        ensures
            final(self).valid(),
            vertex == old(self).matrix().size,
            final(self).matrix().size == old(self).matrix().size + 1,
            forall|u: int, v: int| #[trigger]
                final(self).matrix().has_edge(u, v) == old(self).matrix().has_edge(u, v),
    ;

    /// Remove a vertex with all its edges; the vertices after it move down by one.
    fn remove_vertex(&mut self, vertex_to_remove: usize)
        requires
            old(self).valid(),
            old(self).matrix().size > 0,
        ensures
            final(self).valid(),
            final(self).matrix().size == old(self).matrix().size - 1,
            forall|u: int, v: int|
                0 <= u < final(self).matrix().size && 0 <= v < final(self).matrix().size ==> (
                #[trigger] final(self).matrix().has_edge(u, v) == old(self).matrix().has_edge(
                    if u >= vertex_to_remove {
                        u + 1
                    } else {
                        u
                    },
                    if v >= vertex_to_remove {
                        v + 1
                    } else {
                        v
                    },
                )),
    ;

    /// Connect or disconnect two vertices.
    fn connect(&mut self, lhs_vertex: usize, rhs_vertex: usize, connect: bool)
        requires
            old(self).valid(),
            lhs_vertex < old(self).matrix().size,
            rhs_vertex < old(self).matrix().size,
        ensures
            final(self).valid(),
            final(self).matrix() == Self::connect_spec(
                old(self).matrix(),
                lhs_vertex as int,
                rhs_vertex as int,
                connect,
            ),
            final(self).matrix().size == old(self).matrix().size,
    ;

    /// The vertices that `vertex` has an edge to, in increasing order.
    fn adjacent_to(&self, vertex: usize) -> (adjacent: Vec<usize>)
        requires
            self.valid(),
            vertex < self.matrix().size,
        ensures
            adjacent@.map_values(|i: usize| i as int) == self.matrix().adjacent_to(vertex as int),
    ;

    /// Check if there is an edge from `lhs_vertex` to `rhs_vertex`.
    fn are_adjacent(&self, lhs_vertex: usize, rhs_vertex: usize) -> (b: bool)
        requires
            self.valid(),
            lhs_vertex < self.matrix().size,
            rhs_vertex < self.matrix().size,
        ensures
            b == self.matrix().has_edge(lhs_vertex as int, rhs_vertex as int),
    {
        let adjacent = self.adjacent_to(lhs_vertex);
        let ghost listed = adjacent@.map_values(|i: usize| i as int);
        proof {
            self.matrix().lemma_adjacent_from(lhs_vertex as int, 0);
            assert(listed =~= self.matrix().adjacent_from(lhs_vertex as int, 0));
        }
        let mut i: usize = 0;
        while i < adjacent.len()
            invariant
                i <= adjacent@.len(),
                listed == self.matrix().adjacent_from(lhs_vertex as int, 0),
                listed.len() == adjacent@.len(),
                forall|k: int| 0 <= k < listed.len() ==> listed[k] == adjacent@[k],
                forall|k: int| 0 <= k < i ==> listed[k] != rhs_vertex,
            decreases adjacent@.len() - i,
        {
            if adjacent[i] == rhs_vertex {
                assert(listed[i as int] == rhs_vertex);
                assert(listed.contains(rhs_vertex as int));
                proof {
                    self.matrix().lemma_adjacent_from(lhs_vertex as int, 0);
                }
                return true;
            }
            i += 1;
        }
        proof {
            self.matrix().lemma_adjacent_from(lhs_vertex as int, 0);
            if listed.contains(rhs_vertex as int) {
                let k = choose|k: int| 0 <= k < listed.len() && listed[k] == rhs_vertex;
                assert(false);
            }
        }
        false
    }

    /// The edges of the graph.
    fn edges(&self) -> (edges: Vec<(usize, usize)>)
        requires
            self.valid(),
        ensures
            edges@.map_values(|e: (usize, usize)| (e.0 as int, e.1 as int)) == Self::edges_spec(
                self.matrix(),
            ),
    ;

    /// The degree of each vertex.
    fn degrees(&self) -> (degrees: Vec<usize>)
        requires
            self.valid(),
        ensures
            degrees@.len() == self.matrix().size,
            forall|v: int|
                0 <= v < degrees@.len() ==> #[trigger] degrees@[v] == Self::degree_spec(
                    self.matrix(),
                    v,
                ),
    ;

    /// Create a graph from a flattened matrix: entry `size * u + v` says
    /// whether `u` is connected with `v`. `None` unless there are
    /// `size * size` entries.
    fn from_flat_matrix(size: usize, matrix: &[bool]) -> (r: Option<Self>)
        ensures
            r is Some <==> matrix@.len() == size * size,
            r matches Some(g) ==> g.matrix().size == size,
            r matches Some(g) ==> g.valid() && g.matrix() == indices(matrix@.len()).fold_left(
                AdjacencyMatrix::empty(size as nat),
                |m: AdjacencyMatrix, k: int| Self::connect_spec(m, k / (size as int), k % (size as int), matrix@[k]),
            ),
    {
        let len = matrix.len();
        match size.checked_mul(size) {
            Some(expected) => {
                if len != expected {
                    return None;
                }
            },
            None => {
                return None;
            },
        }
        let mut g = Self::empty(size);
        let mut u: usize = 0;
        assert(size * 0 == 0);
        while u < size
            invariant
                u <= size,
                len == size * size,
                len == matrix@.len(),
                g.valid(),
                g.matrix().size == size,
                g.matrix() == indices((size * u) as nat).fold_left(
                    AdjacencyMatrix::empty(size as nat),
                    |m: AdjacencyMatrix, k: int| Self::connect_spec(m, k / (size as int), k % (size as int), matrix@[k]),
                ),
            decreases size - u,
        {
            let mut v: usize = 0;
            while v < size
                invariant
                    u < size,
                    v <= size,
                    len == size * size,
                    len == matrix@.len(),
                    g.valid(),
                    g.matrix().size == size,
                    g.matrix() == indices((size * u + v) as nat).fold_left(
                        AdjacencyMatrix::empty(size as nat),
                        |m: AdjacencyMatrix, k: int| Self::connect_spec(m, k / (size as int), k % (size as int), matrix@[k]),
                    ),
                decreases size - v,
            {
                proof {
                    let m = AdjacencyMatrix { size: size as nat, entries: matrix@ };
                    m.lemma_index_bound(v as int, u as int);
                    assert(0 <= size * u) by (nonlinear_arith);
                }
                g.connect(u, v, matrix[size * u + v]);
                proof {
                    let k = size * u + v;
                    assert(size * u == u * size) by (nonlinear_arith);
                    vstd::arithmetic::div_mod::lemma_fundamental_div_mod_converse(
                        k as int,
                        size as int,
                        u as int,
                        v as int,
                    );
                    assert(indices((k + 1) as nat).drop_last() =~= indices(k as nat));
                }
                v += 1;
            }
            assert(size * u + size == size * (u + 1)) by (nonlinear_arith);
            u += 1;
        }
        Some(g)
    }

    /// Create a graph from a matrix given by rows: entry `v` of row `u` says
    /// whether `u` is connected with `v`. `None` unless the rows hold
    /// `size * size` entries in all.
    fn from_matrix(size: usize, matrix: &[&[bool]]) -> (r: Option<Self>)
        ensures
            r is Some <==> matrix@.map_values(|row: &[bool]| row@).flatten().len() == size * size,
            r matches Some(g) ==> g.matrix().size == size,
            r matches Some(g) ==> g.valid() && g.matrix() == indices((size * size) as nat).fold_left(
                AdjacencyMatrix::empty(size as nat),
                |m: AdjacencyMatrix, k: int| Self::connect_spec(m, k / (size as int), k % (size as int), matrix@.map_values(|row: &[bool]| row@).flatten()[k]),
            ),
    {
        let ghost rows = matrix@.map_values(|row: &[bool]| row@);
        let mut vec: Vec<bool> = Vec::new();
        let mut i: usize = 0;
        while i < matrix.len()
            invariant
                i <= matrix@.len(),
                rows == matrix@.map_values(|row: &[bool]| row@),
                vec@ == rows.take(i as int).flatten(),
            decreases matrix@.len() - i,
        {
            let row = matrix[i];
            let ghost before = vec@;
            let mut j: usize = 0;
            while j < row.len()
                invariant
                    j <= row@.len(),
                    vec@ == before + row@.take(j as int),
                decreases row@.len() - j,
            {
                vec.push(row[j]);
                j += 1;
                assert(row@.take(j as int) =~= row@.take(j - 1).push(row@[j - 1]));
                assert(vec@ =~= before + row@.take(j as int));
            }
            proof {
                assert(row@.take(j as int) =~= row@);
                assert(rows.take(i + 1) =~= rows.take(i as int).push(rows[i as int]));
                rows.take(i as int).lemma_flatten_push(rows[i as int]);
            }
            i += 1;
        }
        assert(rows.take(i as int) =~= rows);
        Self::from_flat_matrix(size, vec.as_slice())
    }

    /// Get graph degree (highest vertex degree)
    fn degree(&self) -> (d: usize)
        requires
            self.valid(),
        ensures
            forall|v: int|
                0 <= v < self.matrix().size ==> #[trigger] Self::degree_spec(self.matrix(), v)
                    <= d,
            self.matrix().size == 0 ==> d == 0,
            self.matrix().size > 0 ==> exists|v: int|
                0 <= v < self.matrix().size && #[trigger] Self::degree_spec(self.matrix(), v)
                    == d,
    {
        let degrees = self.degrees();
        let mut d: usize = 0;
        let mut i: usize = 0;
        while i < degrees.len()
            invariant
                i <= degrees@.len(),
                forall|v: int| 0 <= v < i ==> #[trigger] degrees@[v] <= d,
                i == 0 ==> d == 0,
                i > 0 ==> exists|v: int| 0 <= v < i && #[trigger] degrees@[v] == d,
            decreases degrees@.len() - i,
        {
            if i == 0 || degrees[i] > d {
                d = degrees[i];
            }
            i += 1;
        }
        proof {
            assert forall|v: int| 0 <= v < self.matrix().size implies #[trigger] Self::degree_spec(
                self.matrix(),
                v,
            ) <= d by {
                assert(degrees@[v] <= d);
            }
            if self.matrix().size > 0 {
                let v = choose|v: int| 0 <= v < i && #[trigger] degrees@[v] == d;
                assert(Self::degree_spec(self.matrix(), v) == d);
            }
        }
        d
    }

    /// Check if graph is connected
    fn is_connected(&self) -> (b: bool)
        requires
            self.valid(),
        ensures
            b == self.matrix().is_connected(),
    {
        let n = self.size();
        if n == 0 {
            return true;
        }
        let ghost m = self.matrix();
        let mut seen = vec![false; n];
        let mut queue: VecDeque<usize> = VecDeque::with_capacity(n);
        assert(seen@ =~= Seq::new(n as nat, |i: int| false));
        assert(count_true(seen@) == 0) by {
            lemma_count_zero(n as nat);
        }
        proof {
            lemma_count_true_update(seen@, 0);
        }
        seen.set(0, true);
        queue.push_back(0);
        let ghost mut popped: int = 0;
        proof {
            assert(m.is_path(seq![0int]));
            assert(seq![0int].first() == 0 && seq![0int].last() == 0);
            assert(queue@[0] == 0);
        }
        while queue.len() > 0
            invariant
                n == m.size,
                n > 0,
                m == self.matrix(),
                self.valid(),
                seen@.len() == n,
                seen@[0],
                popped + queue@.len() == count_true(seen@),
                forall|k: int|
                    0 <= k < queue@.len() ==> #[trigger] queue@[k] < n && seen@[queue@[k] as int],
                forall|w: int| 0 <= w < n && #[trigger] seen@[w] ==> m.reachable(0, w),
                forall|w: int, u: int|
                    0 <= w < n && seen@[w] && #[trigger] m.has_edge(w, u) ==> seen@[u]
                        || queue@.contains(w as usize),
            decreases n - popped,
        {
            proof {
                lemma_count_true_bound(seen@);
            }
            let ghost before = queue@;
            let v = queue.pop_front().unwrap();
            proof {
                popped = popped + 1;
                assert(before[0] == v);
                assert forall|w: usize| before.contains(w) && w != v implies queue@.contains(
                    w,
                ) by {
                    let k = choose|k: int| 0 <= k < before.len() && before[k] == w;
                    assert(queue@[k - 1] == w);
                }
            }
            let mut u: usize = 0;
            while u < n
                invariant
                    n == m.size,
                    n > 0,
                    m == self.matrix(),
                    self.valid(),
                    u <= n,
                    v < n,
                    seen@.len() == n,
                    seen@[0],
                    seen@[v as int],
                    popped + queue@.len() == count_true(seen@),
                    forall|k: int|
                        0 <= k < queue@.len() ==> #[trigger] queue@[k] < n && seen@[queue@[k] as int],
                    forall|w: int| 0 <= w < n && #[trigger] seen@[w] ==> m.reachable(0, w),
                    forall|w: int, x: int|
                        0 <= w < n && w != v && seen@[w] && #[trigger] m.has_edge(w, x)
                            ==> seen@[x] || queue@.contains(w as usize),
                    forall|x: int| 0 <= x < u && #[trigger] m.has_edge(v as int, x) ==> seen@[x],
                decreases n - u,
            {
                if self.are_adjacent(v, u) && v != u && !seen[u] {
                    let ghost seen_before = seen@;
                    let ghost queue_before = queue@;
                    proof {
                        lemma_count_true_update(seen@, u as int);
                        m.lemma_reachable_step(0, v as int, u as int);
                    }
                    seen.set(u, true);
                    queue.push_back(u);
                    proof {
                        assert(queue@[queue@.len() - 1] == u);
                        assert(queue@.contains(u));
                        assert forall|w: usize| queue_before.contains(w) implies queue@.contains(
                            w,
                        ) by {
                            let k = choose|k: int|
                                0 <= k < queue_before.len() && queue_before[k] == w;
                            assert(queue@[k] == w);
                        }
                    }
                }
                u += 1;
            }
        }
        let mut all = true;
        let mut i: usize = 0;
        while i < n
            invariant
                i <= n,
                seen@.len() == n,
                all == (forall|w: int| 0 <= w < i ==> #[trigger] seen@[w]),
            decreases n - i,
        {
            if !seen[i] {
                all = false;
            }
            i += 1;
        }
        proof {
            assert(m.closed_under_edges(seen@)) by {
                assert forall|w: int, x: int|
                    0 <= w < seen@.len() && seen@[w] && #[trigger] m.has_edge(w, x)
                    implies seen@[x] by {
                    assert(!queue@.contains(w as usize));
                }
            }
            if all {
                assert forall|w: int| 0 <= w < n implies m.reachable(0, w) by {
                    assert(seen@[w]);
                }
            }
            if m.is_connected() {
                assert forall|w: int| 0 <= w < n implies #[trigger] seen@[w] by {
                    assert(m.reachable(0, w));
                    let path = choose|path: Seq<int>| #[trigger]
                        m.is_path(path) && path.first() == 0 && path.last() == w;
                    m.lemma_closed_holds_reachable(seen@, path);
                }
            }
        }
        all
    }

    /// Create a graph from list of edges
    fn from_edges(size: usize, edges: &[(usize, usize)]) -> (g: Self)
        requires
            size * size <= usize::MAX,
            forall|i: int| 0 <= i < edges@.len() ==> (#[trigger] edges@[i]).0 < size && edges@[i].1 < size,
        ensures
            g.valid(),
            g.matrix().size == size,
            g.matrix() == edges@.map_values(|e: (usize, usize)| (e.0 as int, e.1 as int)).fold_left(
                AdjacencyMatrix::empty(size as nat),
                |m: AdjacencyMatrix, e: (int, int)| Self::connect_spec(m, e.0, e.1, true),
            ),
    {
        let ghost pairs = edges@.map_values(|e: (usize, usize)| (e.0 as int, e.1 as int));
        let mut graph = Self::empty(size);
        let mut i: usize = 0;
        assert(pairs.take(0) =~= Seq::<(int, int)>::empty());
        while i < edges.len()
            invariant
                i <= edges@.len(),
                pairs == edges@.map_values(|e: (usize, usize)| (e.0 as int, e.1 as int)),
                forall|i: int| 0 <= i < edges@.len() ==> (#[trigger] edges@[i]).0 < size && edges@[i].1 < size,
                graph.valid(),
                graph.matrix().size == size,
                graph.matrix() == pairs.take(i as int).fold_left(
                    AdjacencyMatrix::empty(size as nat),
                    |m: AdjacencyMatrix, e: (int, int)| Self::connect_spec(m, e.0, e.1, true),
                ),
            decreases edges@.len() - i,
        {
            let (v, u) = edges[i];
            graph.connect(v, u, true);
            i += 1;
            proof {
                let now = pairs.take(i as int);
                assert(now.drop_last() =~= pairs.take(i - 1));
                assert(now.last() == (v as int, u as int));
            }
        }
        assert(pairs.take(i as int) =~= pairs);
        graph
    }
}

/// Turning one entry from `true` to `false` lowers the count by one.
pub proof fn lemma_count_true_clear(s: Seq<bool>, i: int)
    requires
        0 <= i < s.len(),
        s[i],
    ensures
        count_true(s.update(i, false)) + 1 == count_true(s),
{
    let t = s.update(i, false);
    lemma_count_true_update(t, i);
    assert(t.update(i, true) =~= s);
}

/// Sequences with the same entries hold as many `true`; where one has
/// `true` only where the other one has, it holds no more; and fewer if the
/// other one has a `true` more.
pub proof fn lemma_count_true_monotone(fewer: Seq<bool>, more: Seq<bool>)
    requires
        fewer.len() == more.len(),
        forall|i: int| 0 <= i < fewer.len() && fewer[i] ==> more[i],
    ensures
        count_true(fewer) <= count_true(more),
        (exists|m: int| 0 <= m < more.len() && more[m] && !fewer[m]) ==> count_true(fewer)
            < count_true(more),
    decreases fewer.len(),
{
    if fewer.len() > 0 {
        lemma_count_true_monotone(fewer.drop_last(), more.drop_last());
        if exists|m: int| 0 <= m < more.len() && more[m] && !fewer[m] {
            let m = choose|m: int| 0 <= m < more.len() && more[m] && !fewer[m];
            if m < more.len() - 1 {
                assert(more.drop_last()[m] && !fewer.drop_last()[m]);
            }
        }
    }
}

/// Picking entries at different places yields no more `true` than there are.
pub proof fn lemma_count_true_picked(marks: Seq<bool>, places: Seq<int>)
    requires
        forall|k: int| 0 <= k < places.len() ==> 0 <= #[trigger] places[k] < marks.len(),
        forall|k: int, l: int| 0 <= k < l < places.len() ==> #[trigger] places[k] != #[trigger] places[l],
    ensures
        count_true(Seq::new(places.len(), |k: int| marks[places[k]])) <= count_true(marks),
    decreases places.len(),
{
    let picked = Seq::new(places.len(), |k: int| marks[places[k]]);
    if places.len() > 0 {
        let x = places.last();
        let fewer_places = places.drop_last();
        let cleared = marks.update(x, false);
        assert forall|k: int| 0 <= k < fewer_places.len() implies 0 <= #[trigger] fewer_places[k]
            < cleared.len() by {
            assert(fewer_places[k] == places[k]);
        }
        assert forall|k: int, l: int| 0 <= k < l < fewer_places.len() implies #[trigger] fewer_places[k]
            != #[trigger] fewer_places[l] by {
            assert(fewer_places[k] == places[k] && fewer_places[l] == places[l]);
        }
        lemma_count_true_picked(cleared, fewer_places);
        let fewer_picked = Seq::new(fewer_places.len(), |k: int| cleared[fewer_places[k]]);
        assert(picked.drop_last() =~= fewer_picked) by {
            assert forall|k: int| 0 <= k < fewer_places.len() implies picked[k] == fewer_picked[k] by {
                assert(places[k] != places[places.len() - 1]);
            }
        }
        if marks[x] {
            lemma_count_true_clear(marks, x);
        } else {
            assert(cleared =~= marks);
        }
    }
}

/// A sequence of `false` holds no `true`.
pub proof fn lemma_count_zero(n: nat)
    ensures
        count_true(Seq::new(n, |i: int| false)) == 0,
    decreases n,
{
    if n > 0 {
        assert(Seq::new(n, |i: int| false).drop_last() =~= Seq::new(
            (n - 1) as nat,
            |i: int| false,
        ));
        lemma_count_zero((n - 1) as nat);
    }
}

} // verus!
