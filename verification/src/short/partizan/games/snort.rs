//! Snort is played on undirected graph. In each turn Left colors a vertex blue and Right colors
//! a vertex red. Players can only choose a vertex that is adjecent to only empty vertices or to
//! vertices in their own color.

use crate::graph::undirected::UndirectedGraph;
use crate::graph::count_true;
use crate::graph::lemma_count_true_bound;
use crate::graph::lemma_count_true_update;
use crate::graph::AdjacencyMatrix;
use crate::graph::Graph;
use crate::numeric::decimal::append_decimal;
use crate::numeric::decimal::decimal;
use crate::short::partizan::canonical_form::CanonicalForm;
use crate::short::partizan::partizan_game::canonical_form_of;
use crate::short::partizan::partizan_game::position_value;
use crate::short::partizan::partizan_game::sound;
use crate::short::partizan::partizan_game::PartizanGame;
use crate::short::partizan::transposition_table::TranspositionTable;
use std::collections::VecDeque;
use vstd::prelude::*;
use vstd::string::StringExecFns;

verus! {

/// Color of Snort vertex. Note that we are taking tinting apporach rather than direct tracking
/// of adjacent colors.
#[derive(Debug, Clone, Copy, Hash, PartialEq, Eq, Structural)]
pub enum VertexColor {
    /// Vertex without color, not connected to any taken vertices
    Empty,
    /// Vertex that is adjecent to left
    TintLeft,
    /// Vertex that is adjecent to right
    TintRight,
    /// Vertex that is either taken or connected to both colors
    Taken,
}

/// Mathematical model of a Snort position: the color of each vertex and
/// the edges between the vertices.
pub struct Snort {
    pub colors: Seq<VertexColor>,
    pub graph: AdjacencyMatrix,
}

impl Snort {
    /// There is one color for each vertex of an undirected graph.
    pub open spec fn wf(self) -> bool {
        &&& self.graph.wf()
        &&& self.graph.symmetric()
        &&& self.colors.len() == self.graph.size
    }

    /// The tint of the player: blue for Left, red for Right.
    pub open spec fn tint(left: bool) -> VertexColor {
        if left {
            VertexColor::TintLeft
        } else {
            VertexColor::TintRight
        }
    }

    /// Whether the player with the tint `tint` may take the vertex `v`:
    /// it is empty or tinted in their color.
    pub open spec fn legal(self, v: int, tint: VertexColor) -> bool {
        &&& 0 <= v < self.colors.len()
        &&& (self.colors[v] == tint || self.colors[v] == VertexColor::Empty)
    }

    /// Whether the vertex `u` is lost to both players once the vertex `m`
    /// is taken by the player with the tint `tint`: it is adjacent to `m`
    /// and neither empty nor tinted in that color.
    pub open spec fn blocked(self, m: int, u: int, tint: VertexColor) -> bool {
        &&& self.graph.has_edge(m, u)
        &&& u != m
        &&& self.colors[u] != tint
        &&& self.colors[u] != VertexColor::Empty
    }

    /// The color of the vertex `u` after the vertex `m` was taken by the
    /// player with the tint `tint`: `m` is taken, its neighbours are tinted
    /// or lost, the others stay as they are.
    pub open spec fn color_after(self, m: int, u: int, tint: VertexColor) -> VertexColor {
        if u == m {
            VertexColor::Taken
        } else if self.graph.has_edge(m, u) {
            if self.colors[u] == tint || self.colors[u] == VertexColor::Empty {
                tint
            } else {
                VertexColor::Taken
            }
        } else {
            self.colors[u]
        }
    }

    /// Whether the edge between `u` and `v` stays after the vertex `m` was
    /// taken: the taken vertex and the vertices that are lost keep no edge.
    pub open spec fn edge_after(self, m: int, u: int, v: int, tint: VertexColor) -> bool {
        &&& self.graph.has_edge(u, v)
        &&& u != m
        &&& v != m
        &&& !self.blocked(m, u, tint)
        &&& !self.blocked(m, v, tint)
    }

    /// The position after the vertex `m` was taken by the player with the tint `tint`.
    pub open spec fn after_move(self, m: int, tint: VertexColor) -> Snort {
        let n = self.graph.size as int;
        Snort {
            colors: Seq::new(self.colors.len(), |u: int| self.color_after(m, u, tint)),
            graph: AdjacencyMatrix {
                size: self.graph.size,
                entries: Seq::new(
                    self.graph.entries.len(),
                    |k: int| self.edge_after(m, k % n, k / n, tint),
                ),
            },
        }
    }

    /// The positions after each legal move of the player at one of the
    /// vertices from `v` on, in the order of the vertices.
    pub open spec fn moves_from(self, tint: VertexColor, v: int) -> Seq<Snort>
        decreases self.colors.len() - v,
    {
        if v < 0 || v >= self.colors.len() {
            Seq::empty()
        } else if self.legal(v, tint) {
            seq![self.after_move(v, tint)] + self.moves_from(tint, v + 1)
        } else {
            self.moves_from(tint, v + 1)
        }
    }

    /// The positions that the player can move to.
    pub open spec fn moves(self, left: bool) -> Seq<Snort> {
        self.moves_from(Self::tint(left), 0)
    }

    /// Whether `u` is among the first `t` of the vertices `listed`.
    pub open spec fn handled(listed: Seq<int>, t: int, u: int) -> bool {
        exists|k: int| 0 <= k < t && #[trigger] listed[k] == u
    }

    /// The color of `u` while the vertex `m` is taken, after the first `t`
    /// of its neighbours `listed` were dealt with.
    pub open spec fn color_during(
        self,
        m: int,
        u: int,
        tint: VertexColor,
        listed: Seq<int>,
        t: int,
    ) -> VertexColor {
        if u == m {
            VertexColor::Taken
        } else if Self::handled(listed, t, u) {
            if self.colors[u] == tint || self.colors[u] == VertexColor::Empty {
                tint
            } else {
                VertexColor::Taken
            }
        } else {
            self.colors[u]
        }
    }

    /// Whether the edge between `u` and `v` is still there while the vertex
    /// `m` is taken, after the first `t` of its neighbours `listed` were dealt with.
    pub open spec fn edge_during(
        self,
        m: int,
        u: int,
        v: int,
        tint: VertexColor,
        listed: Seq<int>,
        t: int,
    ) -> bool {
        &&& self.graph.has_edge(u, v)
        &&& !(u == m && Self::handled(listed, t, v))
        &&& !(v == m && Self::handled(listed, t, u))
        &&& !(Self::handled(listed, t, u) && self.blocked(m, u, tint))
        &&& !(Self::handled(listed, t, v) && self.blocked(m, v, tint))
    }

    /// Once all neighbours of `m` were dealt with, the position is the one after the move.
    pub proof fn lemma_all_handled(self, m: int, tint: VertexColor, colors: Seq<VertexColor>, graph: AdjacencyMatrix)
        requires
            self.wf(),
            0 <= m < self.colors.len(),
            graph.wf(),
            graph.size == self.graph.size,
            colors.len() == self.colors.len(),
            forall|u: int|
                0 <= u < colors.len() ==> #[trigger] colors[u] == self.color_during(
                    m,
                    u,
                    tint,
                    self.graph.adjacent_to(m),
                    self.graph.adjacent_to(m).len() as int,
                ),
            forall|u: int, v: int| #[trigger]
                graph.has_edge(u, v) == self.edge_during(
                    m,
                    u,
                    v,
                    tint,
                    self.graph.adjacent_to(m),
                    self.graph.adjacent_to(m).len() as int,
                ),
        ensures
            (Snort { colors, graph }) == self.after_move(m, tint),
    {
        let listed = self.graph.adjacent_to(m);
        let t = listed.len() as int;
        let after = self.after_move(m, tint);
        let n = self.graph.size as int;
        self.graph.lemma_adjacent_from(m, 0);
        assert forall|u: int| Self::handled(listed, t, u) == self.graph.has_edge(m, u) by {
            if Self::handled(listed, t, u) {
                let k = choose|k: int| 0 <= k < t && #[trigger] listed[k] == u;
                assert(listed.contains(u));
            }
            if self.graph.has_edge(m, u) {
                assert(listed.contains(u));
                let k = choose|k: int| 0 <= k < listed.len() && listed[k] == u;
                assert(listed[k] == u);
            }
        }
        assert forall|u: int| 0 <= u < colors.len() implies colors[u] == after.colors[u] by {
            assert(colors[u] == self.color_during(m, u, tint, listed, t));
        }
        assert(colors =~= after.colors);
        assert forall|k: int| 0 <= k < graph.entries.len() implies graph.entries[k]
            == after.graph.entries[k] by {
            graph.lemma_index_split(k);
            let u = k % n;
            let v = k / n;
            assert(graph.has_edge(u, v) == self.edge_during(m, u, v, tint, listed, t));
            assert(self.graph.has_edge(u, v) == self.graph.has_edge(v, u));
        }
        assert(graph.entries =~= after.graph.entries);
    }

    /// What was dealt with after one more vertex.
    pub proof fn lemma_handled_next(listed: Seq<int>, t: int)
        requires
            0 <= t < listed.len(),
        ensures
            forall|u: int|
                Self::handled(listed, t + 1, u) == (Self::handled(listed, t, u) || u == listed[t]),
    {
        assert forall|u: int|
            Self::handled(listed, t + 1, u) == (Self::handled(listed, t, u) || u
                == listed[t]) by {
            if Self::handled(listed, t + 1, u) {
                let k = choose|k: int| 0 <= k < t + 1 && #[trigger] listed[k] == u;
                if k < t {
                    assert(Self::handled(listed, t, u));
                }
            }
            if Self::handled(listed, t, u) {
                let k = choose|k: int| 0 <= k < t && #[trigger] listed[k] == u;
                assert(0 <= k < t + 1 && listed[k] == u);
            }
            if u == listed[t] {
                assert(0 <= t < t + 1 && listed[t] == u);
            }
        }
    }

    /// The edges of the position after a move.
    pub proof fn lemma_after_move(self, m: int, tint: VertexColor)
        requires
            self.wf(),
            0 <= m < self.colors.len(),
        ensures
            self.after_move(m, tint).wf(),
            forall|u: int, v: int| #[trigger]
                self.after_move(m, tint).graph.has_edge(u, v) == self.edge_after(m, u, v, tint),
    {
        let after = self.after_move(m, tint);
        assert forall|u: int, v: int| #[trigger]
            after.graph.has_edge(u, v) == self.edge_after(m, u, v, tint) by {
            if 0 <= u < self.graph.size && 0 <= v < self.graph.size {
                self.graph.lemma_index_bound(u, v);
            }
        }
        assert forall|u: int, v: int| after.graph.has_edge(u, v) == #[trigger] after.graph.has_edge(
            v,
            u,
        ) by {
            assert(self.graph.has_edge(u, v) == self.graph.has_edge(v, u));
        }
    }
}

/// The state of a breadth-first search that started with the marks
/// `before`: the vertices `found` since then are different from each
/// other, and they are exactly the vertices that were marked since.
pub open spec fn searching(before: Seq<bool>, visited: Seq<bool>, found: Seq<int>) -> bool {
    &&& visited.len() == before.len()
    &&& forall|k: int| 0 <= k < found.len() ==> 0 <= #[trigger] found[k] < visited.len() && !before[found[k]]
    &&& forall|k: int, l: int| 0 <= k < l < found.len() ==> #[trigger] found[k] != #[trigger] found[l]
    &&& forall|u: int| 0 <= u < visited.len() ==> #[trigger] visited[u] == (before[u] || found.contains(u))
    &&& count_true(visited) == count_true(before) + found.len()
}

impl Snort {
    /// Marks the vertices of `adjacent` from index `t` on that are not
    /// marked yet, and appends them to `found`.
    pub open spec fn discover(
        visited: Seq<bool>,
        found: Seq<int>,
        adjacent: Seq<int>,
        t: int,
    ) -> (Seq<bool>, Seq<int>)
        decreases adjacent.len() - t,
    {
        if t < 0 || t >= adjacent.len() {
            (visited, found)
        } else {
            let u = adjacent[t];
            if 0 <= u < visited.len() && !visited[u] {
                Self::discover(visited.update(u, true), found.push(u), adjacent, t + 1)
            } else {
                Self::discover(visited, found, adjacent, t + 1)
            }
        }
    }

    /// Breadth-first search: the vertices of `found` from index `i` on
    /// are visited in turn, and the neighbours of each that are not marked
    /// yet are marked and appended, in increasing order.
    pub open spec fn search(self, visited: Seq<bool>, found: Seq<int>, i: int) -> (Seq<bool>, Seq<int>)
        decreases visited.len() - count_true(visited) + found.len() - i,
        when 0 <= i && exists|before: Seq<bool>| searching(before, visited, found)
        via Self::search_decreases
    {
        if i >= found.len() {
            (visited, found)
        } else {
            let next = Self::discover(visited, found, self.graph.adjacent_to(found[i]), 0);
            self.search(next.0, next.1, i + 1)
        }
    }

    #[via_fn]
    proof fn search_decreases(self, visited: Seq<bool>, found: Seq<int>, i: int) {
        if i < found.len() {
            let before = choose|before: Seq<bool>| searching(before, visited, found);
            Self::lemma_discover(before, visited, found, self.graph.adjacent_to(found[i]), 0);
            let next = Self::discover(visited, found, self.graph.adjacent_to(found[i]), 0);
            lemma_count_true_bound(next.0);
        }
    }

    /// Discovering keeps the state of the search, and what was found stays in front.
    pub proof fn lemma_discover(
        before: Seq<bool>,
        visited: Seq<bool>,
        found: Seq<int>,
        adjacent: Seq<int>,
        t: int,
    )
        requires
            searching(before, visited, found),
            0 <= t,
        ensures
            searching(
                before,
                Self::discover(visited, found, adjacent, t).0,
                Self::discover(visited, found, adjacent, t).1,
            ),
            found.len() <= Self::discover(visited, found, adjacent, t).1.len(),
            forall|k: int|
                0 <= k < found.len() ==> Self::discover(visited, found, adjacent, t).1[k]
                    == found[k],
        decreases adjacent.len() - t,
    {
        if t < adjacent.len() {
            let u = adjacent[t];
            if 0 <= u < visited.len() && !visited[u] {
                let v2 = visited.update(u, true);
                let f2 = found.push(u);
                lemma_count_true_update(visited, u);
                assert(!found.contains(u));
                assert forall|w: int| 0 <= w < v2.len() implies #[trigger] v2[w] == (before[w]
                    || f2.contains(w)) by {
                    if f2.contains(w) {
                        let k = choose|k: int| 0 <= k < f2.len() && f2[k] == w;
                        if k < found.len() {
                            assert(found[k] == w);
                            assert(found.contains(w));
                        }
                    }
                    if found.contains(w) {
                        let k = choose|k: int| 0 <= k < found.len() && found[k] == w;
                        assert(f2[k] == w);
                    }
                    if w == u {
                        assert(f2[found.len() as int] == u);
                    }
                }
                assert forall|k: int, l: int| 0 <= k < l < f2.len() implies #[trigger] f2[k]
                    != #[trigger] f2[l] by {
                    if l == found.len() {
                        assert(found[k] == f2[k]);
                        assert(found.contains(found[k]));
                    } else {
                        assert(found[k] == f2[k] && found[l] == f2[l]);
                    }
                }
                assert forall|k: int| 0 <= k < f2.len() implies 0 <= #[trigger] f2[k] < v2.len()
                    && !before[f2[k]] by {
                    if k < found.len() {
                        assert(found[k] == f2[k]);
                    }
                }
                Self::lemma_discover(before, v2, f2, adjacent, t + 1);
                assert forall|k: int| 0 <= k < found.len() implies Self::discover(
                    visited,
                    found,
                    adjacent,
                    t,
                ).1[k] == found[k] by {
                    assert(f2[k] == found[k]);
                }
            } else {
                Self::lemma_discover(before, visited, found, adjacent, t + 1);
            }
        }
    }

    /// The state of the search after one more vertex was marked and appended.
    pub proof fn lemma_discover_step(before: Seq<bool>, visited: Seq<bool>, found: Seq<int>, u: int)
        requires
            searching(before, visited, found),
            0 <= u < visited.len(),
            !visited[u],
        ensures
            searching(before, visited.update(u, true), found.push(u)),
    {
        let adjacent = seq![u];
        Self::lemma_discover(before, visited, found, adjacent, 0);
        assert(Self::discover(visited.update(u, true), found.push(u), adjacent, 1) == (
            visited.update(u, true),
            found.push(u),
        ));
    }

    /// The search keeps its state, and what was found stays in front.
    pub proof fn lemma_search(self, before: Seq<bool>, visited: Seq<bool>, found: Seq<int>, i: int)
        requires
            searching(before, visited, found),
            0 <= i,
        ensures
            searching(before, self.search(visited, found, i).0, self.search(visited, found, i).1),
            found.len() <= self.search(visited, found, i).1.len(),
            forall|k: int|
                0 <= k < found.len() ==> self.search(visited, found, i).1[k] == found[k],
        decreases visited.len() - count_true(visited) + found.len() - i,
    {
        if i < found.len() {
            let adjacent = self.graph.adjacent_to(found[i]);
            Self::lemma_discover(before, visited, found, adjacent, 0);
            let next = Self::discover(visited, found, adjacent, 0);
            lemma_count_true_bound(next.0);
            self.lemma_search(before, next.0, next.1, i + 1);
        }
    }

    /// The position on the vertices `order` alone, with the edges between them.
    pub open spec fn induced(self, order: Seq<int>) -> Snort {
        let k = order.len() as int;
        Snort {
            colors: Seq::new(order.len(), |a: int| self.colors[order[a]]),
            graph: AdjacencyMatrix {
                size: order.len(),
                entries: Seq::new(
                    (k * k) as nat,
                    |idx: int| self.graph.has_edge(order[idx % k], order[idx / k]),
                ),
            },
        }
    }

    /// The marks after, and the vertices of, the component of the vertex
    /// `start`, found by a breadth-first search from it.
    pub open spec fn component(self, visited: Seq<bool>, start: int) -> (Seq<bool>, Seq<int>) {
        self.search(visited.update(start, true), seq![start], 0)
    }

    /// The components of the vertices from `v` on that are neither taken
    /// nor marked, each searched from its first vertex.
    pub open spec fn components_from(self, visited: Seq<bool>, v: int) -> Seq<Snort>
        decreases self.colors.len() - v,
    {
        if v < 0 || v >= self.colors.len() || visited.len() != self.colors.len() {
            Seq::empty()
        } else if self.colors[v] != VertexColor::Taken && !visited[v] {
            let found = self.component(visited, v);
            seq![self.induced(found.1)] + self.components_from(found.0, v + 1)
        } else {
            self.components_from(visited, v + 1)
        }
    }

    /// The position as independent positions: the connected components of
    /// the vertices that are not taken.
    pub open spec fn components(self) -> Seq<Snort> {
        self.components_from(Seq::new(self.colors.len(), |i: int| false), 0)
    }

    /// One step of the search.
    pub proof fn lemma_search_unfold(self, before: Seq<bool>, visited: Seq<bool>, found: Seq<int>, i: int)
        requires
            searching(before, visited, found),
            0 <= i,
        ensures
            i >= found.len() ==> self.search(visited, found, i) == (visited, found),
            i < found.len() ==> self.search(visited, found, i) == self.search(
                Self::discover(visited, found, self.graph.adjacent_to(found[i]), 0).0,
                Self::discover(visited, found, self.graph.adjacent_to(found[i]), 0).1,
                i + 1,
            ),
    {
        if i < found.len() {
            Self::lemma_discover(before, visited, found, self.graph.adjacent_to(found[i]), 0);
            let next = Self::discover(visited, found, self.graph.adjacent_to(found[i]), 0);
            lemma_count_true_bound(next.0);
        }
    }

    /// The edges of the position on some of the vertices.
    pub proof fn lemma_induced(self, order: Seq<int>)
        requires
            self.wf(),
            forall|k: int| 0 <= k < order.len() ==> 0 <= #[trigger] order[k] < self.colors.len(),
        ensures
            self.induced(order).wf(),
            forall|a: int, b: int| #[trigger]
                self.induced(order).graph.has_edge(a, b) == (0 <= a < order.len() && 0 <= b
                    < order.len() && self.graph.has_edge(order[a], order[b])),
    {
        let part = self.induced(order);
        assert forall|a: int, b: int| #[trigger]
            part.graph.has_edge(a, b) == (0 <= a < order.len() && 0 <= b < order.len()
                && self.graph.has_edge(order[a], order[b])) by {
            if 0 <= a < order.len() && 0 <= b < order.len() {
                part.graph.lemma_index_bound(a, b);
            }
        }
        assert forall|a: int, b: int| part.graph.has_edge(a, b) == #[trigger] part.graph.has_edge(
            b,
            a,
        ) by {
            if 0 <= a < order.len() && 0 <= b < order.len() {
                assert(self.graph.has_edge(order[a], order[b]) == self.graph.has_edge(
                    order[b],
                    order[a],
                ));
            }
        }
    }

    /// A search can start at a vertex that is not marked.
    pub proof fn lemma_search_start(visited: Seq<bool>, start: int)
        requires
            0 <= start < visited.len(),
            !visited[start],
        ensures
            searching(visited, visited.update(start, true), seq![start]),
    {
        let v2 = visited.update(start, true);
        let found = seq![start];
        lemma_count_true_update(visited, start);
        assert forall|u: int| 0 <= u < v2.len() implies #[trigger] v2[u] == (visited[u]
            || found.contains(u)) by {
            if found.contains(u) {
                let k = choose|k: int| 0 <= k < found.len() && found[k] == u;
            }
            if u == start {
                assert(found[0] == u);
            }
        }
    }
}

impl Snort {
    /// The name of the color that a vertex is filled with.
    pub open spec fn fill(color: VertexColor) -> Seq<char> {
        match color {
            VertexColor::Empty => "white"@,
            VertexColor::TintLeft => "blue"@,
            VertexColor::TintRight => "red"@,
            VertexColor::Taken => Seq::empty(),
        }
    }

    /// The vertices from `v` on that are not taken, each with its color.
    pub open spec fn vertices_text(self, v: int) -> Seq<char>
        decreases self.colors.len() - v,
    {
        if v < 0 || v >= self.colors.len() {
            Seq::empty()
        } else if self.colors[v] == VertexColor::Taken {
            self.vertices_text(v + 1)
        } else {
            decimal(v as nat) + " [fillcolor="@ + Self::fill(self.colors[v])
                + ", style=filled, shape=circle, fixedsize=true, width=1, height=1, fontsize=24];"@
                + self.vertices_text(v + 1)
        }
    }

    /// The edges from `v` to the vertices from `u` on that are larger than `v`.
    pub open spec fn row_text(self, v: int, u: int) -> Seq<char>
        decreases self.colors.len() - u,
    {
        if u < 0 || u >= self.colors.len() {
            Seq::empty()
        } else if v < u && self.graph.has_edge(v, u) {
            decimal(v as nat) + " -- "@ + decimal(u as nat) + ";"@ + self.row_text(v, u + 1)
        } else {
            self.row_text(v, u + 1)
        }
    }

    /// The edges from the vertices from `v` on to larger vertices.
    pub open spec fn edges_text(self, v: int) -> Seq<char>
        decreases self.colors.len() - v,
    {
        if v < 0 || v >= self.colors.len() {
            Seq::empty()
        } else {
            self.row_text(v, 0) + self.edges_text(v + 1)
        }
    }

    /// The position as a graph in the language of graphviz.
    pub open spec fn graphviz(self) -> Seq<char> {
        "graph G {"@ + self.vertices_text(0) + self.edges_text(0) + "}"@
    }
}

/// Position of a [snort](self) game
#[derive(Debug, Hash, PartialEq, Eq)]
pub struct Position {
    /// Vertices colors of the game graph
    pub vertices: Vec<VertexColor>,
    /// Get graph of the game. This includes only edges
    pub graph: UndirectedGraph,
}

impl View for Position {
    type V = Snort;

    open spec fn view(&self) -> Snort {
        Snort { colors: self.vertices@, graph: self.graph@ }
    }
}

impl Clone for Position {
    fn clone(&self) -> (p: Self)
        ensures
            p@ == self@,
    {
        let p = Position { vertices: self.vertices.clone(), graph: self.graph.clone() };
        assert(p.vertices@ =~= self.vertices@);
        p
    }
}

impl Position {
    /// Create new Snort position with all vertices empty.
    pub fn new(graph: UndirectedGraph) -> (p: Self)
        requires
            graph.valid(),
        ensures
            p@.wf(),
            p@.graph == graph@,
            p@.colors == Seq::new(graph@.size, |i: int| VertexColor::Empty),
    {
        let p = Position { vertices: vec![VertexColor::Empty; graph.size()], graph };
        assert(p@.colors =~= Seq::new(graph@.size, |i: int| VertexColor::Empty));
        p
    }

    /// The position after the vertex `move_vertex` was taken by the player
    /// with the tint `own_tint_color`.
    fn take_vertex(&self, move_vertex: usize, own_tint_color: VertexColor) -> (position: Position)
        requires
            self@.wf(),
            move_vertex < self@.colors.len(),
        ensures
            position@ == self@.after_move(move_vertex as int, own_tint_color),
    {
        let ghost start = self@;
        let ghost m = move_vertex as int;
        let n = self.graph.size();
        let mut position: Position = self.clone();
        // Take vertex
        position.vertices.set(move_vertex, VertexColor::Taken);
        let adjacent = self.graph.adjacent_to(move_vertex);
        let ghost listed = start.graph.adjacent_to(m);
        proof {
            start.graph.lemma_adjacent_from(m, 0);
            assert(listed.len() == adjacent@.len());
        }
        // Disconnect `move_vertex` from adjecent vertices and tint them
        let mut t: usize = 0;
        while t < adjacent.len()
            invariant
                t <= adjacent@.len(),
                start == self@,
                start.wf(),
                n == start.graph.size,
                m == move_vertex,
                m < n,
                listed == start.graph.adjacent_to(m),
                listed == adjacent@.map_values(|i: usize| i as int),
                position@.graph.wf(),
                position.graph.valid(),
                position@.graph.size == n,
                position@.colors.len() == n,
                forall|u: int|
                    0 <= u < n ==> #[trigger] position@.colors[u] == start.color_during(
                        m,
                        u,
                        own_tint_color,
                        listed,
                        t as int,
                    ),
                forall|u: int, v: int| #[trigger]
                    position@.graph.has_edge(u, v) == start.edge_during(
                        m,
                        u,
                        v,
                        own_tint_color,
                        listed,
                        t as int,
                    ),
            decreases adjacent@.len() - t,
        {
            let adjacent_vertex = adjacent[t];
            let ghost a = adjacent_vertex as int;
            let ghost before = position@;
            proof {
                start.graph.lemma_adjacent_from(m, 0);
                assert(listed[t as int] == a);
                assert(listed.contains(a));
                assert(start.graph.has_edge(m, a));
                before.graph.lemma_set_both(m, a, false);
                Snort::lemma_handled_next(listed, t as int);
            }
            // Disconnect move vertex from adjecent
            position.graph.connect(move_vertex, adjacent_vertex, false);
            // No loops in snort graphs
            if adjacent_vertex != move_vertex {
                let adjacent_vertex_color = position.vertices[adjacent_vertex];
                // Tint adjacent vertex
                if adjacent_vertex_color == own_tint_color || adjacent_vertex_color
                    == VertexColor::Empty {
                    // If adjacent vertex is empty or tinted in own color, tint it in own
                    position.vertices.set(adjacent_vertex, own_tint_color);
                } else {
                    // Otherwise the vertex is tinted in opponents color, so no one can longer
                    // move there, thus we mark is as taken and disconnect from the graph
                    position.vertices.set(adjacent_vertex, VertexColor::Taken);
                    let ghost cut = position@.graph;
                    let ghost colors_now = position@.colors;
                    let mut v: usize = 0;
                    while v < n
                        invariant
                            position@.colors == colors_now,
                            v <= n,
                            a < n,
                            a == adjacent_vertex,
                            cut.wf(),
                            cut.size == n,
                            position.graph.valid(),
                            position@.graph.wf(),
                            position@.graph.size == n,
                            position@.colors.len() == n,
                            forall|x: int, y: int| #[trigger]
                                position@.graph.has_edge(x, y) == (cut.has_edge(x, y) && !(x == a
                                    && y < v) && !(y == a && x < v)),
                        decreases n - v,
                    {
                        proof {
                            position@.graph.lemma_set_both(v as int, a, false);
                        }
                        position.graph.connect(v, adjacent_vertex, false);
                        v += 1;
                    }
                    proof {
                        assert forall|x: int, y: int| #[trigger]
                            position@.graph.has_edge(x, y) == (cut.has_edge(x, y) && x != a && y
                                != a) by {
                            if cut.has_edge(x, y) {
                                assert(0 <= x < n && 0 <= y < n);
                            }
                        }
                    }
                }
            }
            proof {
                assert(before.colors[a] == start.colors[a] || a == m) by {
                    if a != m {
                        assert(before.colors[a] == start.color_during(
                            m,
                            a,
                            own_tint_color,
                            listed,
                            t as int,
                        ));
                        if Snort::handled(listed, t as int, a) {
                            let k = choose|k: int| 0 <= k < t && #[trigger] listed[k] == a;
                            assert(listed[k] < listed[t as int]);
                        }
                    }
                }
                assert forall|u: int| 0 <= u < n implies #[trigger] position@.colors[u]
                    == start.color_during(m, u, own_tint_color, listed, t + 1) by {
                    assert(before.colors[u] == start.color_during(
                        m,
                        u,
                        own_tint_color,
                        listed,
                        t as int,
                    ));
                }
                assert forall|u: int, v: int| #[trigger]
                    position@.graph.has_edge(u, v) == start.edge_during(
                        m,
                        u,
                        v,
                        own_tint_color,
                        listed,
                        t + 1,
                    ) by {
                    assert(before.graph.has_edge(u, v) == start.edge_during(
                        m,
                        u,
                        v,
                        own_tint_color,
                        listed,
                        t as int,
                    ));
                    assert(start.graph.has_edge(u, v) == start.graph.has_edge(v, u));
                }
            }
            t += 1;
        }
        proof {
            start.lemma_all_handled(m, own_tint_color, position@.colors, position@.graph);
        }
        position
    }

    /// Get moves for a given player. Works only for `TintLeft` and `TintRight`.
    fn moves_for(&self, own_tint_color: VertexColor) -> (moves: Vec<Position>)
        requires
            self@.wf(),
        ensures
            moves@.map_values(|p: Position| p@) == self@.moves_from(own_tint_color, 0),
    {
        let n = self.graph.size();
        let mut moves: Vec<Position> = Vec::new();
        let mut move_vertex: usize = 0;
        // Go through list of vertices with legal move
        while move_vertex < n
            invariant
                move_vertex <= n,
                n == self@.colors.len(),
                self@.wf(),
                moves@.map_values(|p: Position| p@) + self@.moves_from(
                    own_tint_color,
                    move_vertex as int,
                ) == self@.moves_from(own_tint_color, 0),
            decreases n - move_vertex,
        {
            let ghost listed = moves@.map_values(|p: Position| p@);
            let color = self.vertices[move_vertex];
            if color == own_tint_color || color == VertexColor::Empty {
                let position = self.take_vertex(move_vertex, own_tint_color);
                moves.push(position);
                assert(moves@.map_values(|p: Position| p@) =~= listed.push(position@));
                assert(listed.push(position@) + self@.moves_from(own_tint_color, move_vertex + 1)
                    =~= listed + self@.moves_from(own_tint_color, move_vertex as int));
            }
            move_vertex += 1;
        }
        assert(self@.moves_from(own_tint_color, move_vertex as int) =~= Seq::<Snort>::empty());
        assert(moves@.map_values(|p: Position| p@) + Seq::<Snort>::empty() =~= moves@.map_values(
            |p: Position| p@,
        ));
        moves
    }

    /// The positions that Left can move to.
    pub fn left_moves(&self) -> (moves: Vec<Position>)
        requires
            self@.wf(),
        ensures
            moves@.map_values(|p: Position| p@) == self@.moves(true),
    {
        self.moves_for(VertexColor::TintLeft)
    }

    /// The positions that Right can move to.
    pub fn right_moves(&self) -> (moves: Vec<Position>)
        requires
            self@.wf(),
        ensures
            moves@.map_values(|p: Position| p@) == self@.moves(false),
    {
        self.moves_for(VertexColor::TintRight)
    }

    /// The first place of `x` in `list`.
    fn position_of(list: &Vec<usize>, x: usize) -> (r: Option<usize>)
        ensures
            match r {
                Some(i) => i < list@.len() && list@[i as int] == x,
                None => forall|j: int| 0 <= j < list@.len() ==> list@[j] != x,
            },
    {
        let mut i: usize = 0;
        while i < list.len()
            invariant
                i <= list@.len(),
                forall|j: int| 0 <= j < i ==> list@[j] != x,
            decreases list@.len() - i,
        {
            if list[i] == x {
                return Some(i);
            }
            i += 1;
        }
        None
    }

    /// The position on the vertices `vertices_to_take` alone, with the edges between them.
    fn take_vertices(&self, vertices_to_take: &Vec<usize>) -> (part: Position)
        requires
            self@.wf(),
            vertices_to_take@.len() <= self@.colors.len(),
            forall|k: int|
                0 <= k < vertices_to_take@.len() ==> #[trigger] vertices_to_take@[k]
                    < self@.colors.len(),
            forall|k: int, l: int|
                0 <= k < l < vertices_to_take@.len() ==> #[trigger] vertices_to_take@[k]
                    != #[trigger] vertices_to_take@[l],
        ensures
            part@ == self@.induced(vertices_to_take@.map_values(|v: usize| v as int)),
            part@.wf(),
    {
        let ghost order = vertices_to_take@.map_values(|v: usize| v as int);
        let ghost g = self@.graph;
        let k = vertices_to_take.len();
        let n = self.graph.size();
        proof {
            assert(k * k <= n * n) by (nonlinear_arith)
                requires
                    0 <= k <= n,
            ;
            self@.lemma_induced(order);
        }
        let mut new_graph = UndirectedGraph::empty(k);
        proof {
            assert forall|a: int, b: int| !#[trigger] new_graph@.has_edge(a, b) by {
                if 0 <= a < k && 0 <= b < k {
                    new_graph@.lemma_index_bound(a, b);
                }
            }
        }
        let mut new_v: usize = 0;
        while new_v < k
            invariant
                new_v <= k,
                k == vertices_to_take@.len(),
                self@.wf(),
                g == self@.graph,
                order == vertices_to_take@.map_values(|v: usize| v as int),
                forall|i: int| 0 <= i < k ==> 0 <= #[trigger] order[i] < g.size,
                forall|i: int, j: int| 0 <= i < j < k ==> #[trigger] order[i] != #[trigger] order[j],
                new_graph.valid(),
                new_graph@.size == k,
                forall|a: int, b: int| #[trigger]
                    new_graph@.has_edge(a, b) == (0 <= a < k && 0 <= b < k && g.has_edge(
                        order[a],
                        order[b],
                    ) && (a < new_v || b < new_v)),
            decreases k - new_v,
        {
            let old_v = vertices_to_take[new_v];
            assert(order[new_v as int] == old_v);
            let adjacent = self.graph.adjacent_to(old_v);
            let ghost listed = g.adjacent_to(old_v as int);
            let mut t: usize = 0;
            while t < adjacent.len()
                invariant
                    t <= adjacent@.len(),
                    new_v < k,
                    k == vertices_to_take@.len(),
                    self@.wf(),
                    g == self@.graph,
                    old_v == order[new_v as int],
                    order == vertices_to_take@.map_values(|v: usize| v as int),
                    forall|i: int| 0 <= i < k ==> 0 <= #[trigger] order[i] < g.size,
                    forall|i: int, j: int|
                        0 <= i < j < k ==> #[trigger] order[i] != #[trigger] order[j],
                    listed == g.adjacent_to(old_v as int),
                    listed == adjacent@.map_values(|i: usize| i as int),
                    new_graph.valid(),
                    new_graph@.size == k,
                    forall|a: int, b: int| #[trigger]
                        new_graph@.has_edge(a, b) == (0 <= a < k && 0 <= b < k && g.has_edge(
                            order[a],
                            order[b],
                        ) && (a < new_v || b < new_v || (a == new_v && Snort::handled(
                            listed,
                            t as int,
                            order[b],
                        )) || (b == new_v && Snort::handled(listed, t as int, order[a])))),
                decreases adjacent@.len() - t,
            {
                let old_u = adjacent[t];
                let ghost now = new_graph@;
                proof {
                    g.lemma_adjacent_from(old_v as int, 0);
                    assert(listed[t as int] == old_u);
                    assert(listed.contains(old_u as int));
                    Snort::lemma_handled_next(listed, t as int);
                }
                match Self::position_of(vertices_to_take, old_u) {
                    Some(new_u) => {
                        proof {
                            now.lemma_set_both(new_v as int, new_u as int, true);
                            assert(order[new_u as int] == old_u);
                        }
                        new_graph.connect(new_v, new_u, true);
                        proof {
                            assert forall|a: int, b: int| #[trigger]
                                new_graph@.has_edge(a, b) == (0 <= a < k && 0 <= b < k
                                    && g.has_edge(order[a], order[b]) && (a < new_v || b < new_v
                                    || (a == new_v && Snort::handled(listed, t + 1, order[b]))
                                    || (b == new_v && Snort::handled(
                                    listed,
                                    t + 1,
                                    order[a],
                                )))) by {
                                if 0 <= a < k && 0 <= b < k {
                                    assert(g.has_edge(order[a], order[b]) == g.has_edge(
                                        order[b],
                                        order[a],
                                    ));
                                    if order[b] == old_u {
                                        assert(b == new_u);
                                    }
                                    if order[a] == old_u {
                                        assert(a == new_u);
                                    }
                                }
                            }
                        }
                    },
                    None => {
                        proof {
                            assert forall|b: int| 0 <= b < k implies order[b] != old_u by {
                                assert(vertices_to_take@[b] != old_u);
                            }
                        }
                    },
                }
                t += 1;
            }
            proof {
                g.lemma_adjacent_from(old_v as int, 0);
                assert forall|a: int, b: int| #[trigger]
                    new_graph@.has_edge(a, b) == (0 <= a < k && 0 <= b < k && g.has_edge(
                        order[a],
                        order[b],
                    ) && (a < new_v + 1 || b < new_v + 1)) by {
                    if 0 <= a < k && 0 <= b < k {
                        assert(g.has_edge(order[a], order[b]) == g.has_edge(order[b], order[a]));
                        if a == new_v && g.has_edge(order[a], order[b]) {
                            assert(listed.contains(order[b]));
                            let i = choose|i: int| 0 <= i < listed.len() && listed[i] == order[b];
                            assert(Snort::handled(listed, t as int, order[b]));
                        }
                        if b == new_v && g.has_edge(order[b], order[a]) {
                            assert(listed.contains(order[a]));
                            let i = choose|i: int| 0 <= i < listed.len() && listed[i] == order[a];
                            assert(Snort::handled(listed, t as int, order[a]));
                        }
                    }
                }
            }
            new_v += 1;
        }
        let mut new_vertices: Vec<VertexColor> = Vec::new();
        let mut i: usize = 0;
        while i < k
            invariant
                i <= k,
                k == vertices_to_take@.len(),
                forall|k: int|
                    0 <= k < vertices_to_take@.len() ==> #[trigger] vertices_to_take@[k]
                        < self@.colors.len(),
                new_vertices@.len() == i,
                forall|a: int|
                    0 <= a < i ==> #[trigger] new_vertices@[a] == self@.colors[vertices_to_take@[a] as int],
            decreases k - i,
        {
            new_vertices.push(self.vertices[vertices_to_take[i]]);
            i += 1;
        }
        let part = Position { vertices: new_vertices, graph: new_graph };
        proof {
            let want = self@.induced(order);
            assert(part@.colors =~= want.colors);
            assert forall|idx: int| 0 <= idx < part@.graph.entries.len() implies part@.graph.entries[idx]
                == want.graph.entries[idx] by {
                part@.graph.lemma_index_split(idx);
                let a = idx % (k as int);
                let b = idx / (k as int);
                assert(part@.graph.has_edge(a, b) == part@.graph.entries[idx]);
            }
            assert(part@.graph.entries =~= want.graph.entries);
        }
        part
    }

    /// BFS search to get the decompisitons, should be used only as a helper for [Self::decompositions]
    fn bfs(&self, visited: &mut Vec<bool>, v: usize) -> (component: Position)
        requires
            self@.wf(),
            old(visited)@.len() == self@.colors.len(),
            v < self@.colors.len(),
            !old(visited)@[v as int],
        ensures
            final(visited)@ == self@.component(old(visited)@, v as int).0,
            component@ == self@.induced(self@.component(old(visited)@, v as int).1),
            component@.wf(),
            final(visited)@.len() == old(visited)@.len(),
    {
        let n = self.graph.size();
        let ghost before = visited@;
        let ghost start = v as int;
        let mut vertices_to_take: Vec<usize> = Vec::new();
        let mut q: VecDeque<usize> = VecDeque::new();
        q.push_back(v);
        visited.set(v, true);
        let ghost mut found: Seq<int> = seq![start];
        proof {
            Snort::lemma_search_start(before, start);
            assert(q@[0] == v);
        }
        while q.len() > 0
            invariant
                n == self@.colors.len(),
                before.len() == n,
                self@.wf(),
                searching(before, visited@, found),
                found.len() == vertices_to_take@.len() + q@.len(),
                forall|k: int|
                    0 <= k < vertices_to_take@.len() ==> found[k] == #[trigger] vertices_to_take@[k],
                forall|k: int|
                    0 <= k < q@.len() ==> found[vertices_to_take@.len() + k] == #[trigger] q@[k],
                self@.component(before, start) == self@.search(
                    visited@,
                    found,
                    vertices_to_take@.len() as int,
                ),
            decreases n - count_true(visited@) + q@.len(),
        {
            let ghost i = vertices_to_take@.len() as int;
            let ghost queue = q@;
            let x = q.pop_front().unwrap();
            vertices_to_take.push(x);
            proof {
                lemma_count_true_bound(visited@);
                assert(queue[0] == x);
                assert(found[i] == x);
                assert(0 <= found[i] < visited@.len());
                assert forall|k: int| 0 <= k < q@.len() implies found[i + 1 + k] == #[trigger] q@[k] by {
                    assert(q@[k] == queue[k + 1]);
                }
                self@.lemma_search_unfold(before, visited@, found, i);
            }
            let adjacent = self.graph.adjacent_to(x);
            let ghost listed = self@.graph.adjacent_to(x as int);
            let ghost visited_then = visited@;
            let ghost found_then = found;
            let mut t: usize = 0;
            while t < adjacent.len()
                invariant
                    t <= adjacent@.len(),
                    n == self@.colors.len(),
                    before.len() == n,
                    x < n,
                    self@.wf(),
                    listed == self@.graph.adjacent_to(x as int),
                    listed == adjacent@.map_values(|i: usize| i as int),
                    searching(before, visited@, found),
                    found.len() == vertices_to_take@.len() + q@.len(),
                    forall|k: int|
                        0 <= k < vertices_to_take@.len() ==> found[k]
                            == #[trigger] vertices_to_take@[k],
                    forall|k: int|
                        0 <= k < q@.len() ==> found[vertices_to_take@.len() + k] == #[trigger] q@[k],
                    Snort::discover(visited_then, found_then, listed, 0) == Snort::discover(
                        visited@,
                        found,
                        listed,
                        t as int,
                    ),
                    n - count_true(visited@) + q@.len() == n - count_true(visited_then)
                        + queue.len() - 1,
                decreases adjacent@.len() - t,
            {
                let u = adjacent[t];
                proof {
                    self@.graph.lemma_adjacent_from(x as int, 0);
                    assert(listed[t as int] == u);
                    assert(listed.contains(u as int));
                    assert(self@.graph.has_edge(x as int, u as int));
                    Snort::lemma_discover(before, visited@, found, listed, t as int + 1);
                }
                if !visited[u] {
                    let ghost was = visited@;
                    let ghost had = found;
                    let ghost waiting = q@;
                    proof {
                        lemma_count_true_update(visited@, u as int);
                    }
                    visited.set(u, true);
                    q.push_back(u);
                    proof {
                        found = had.push(u as int);
                        assert(Snort::discover(was, had, listed, t as int) == Snort::discover(
                            visited@,
                            found,
                            listed,
                            t + 1,
                        ));
                        Snort::lemma_discover_step(before, was, had, u as int);
                        assert forall|k: int| 0 <= k < q@.len() implies found[vertices_to_take@.len()
                            + k] == #[trigger] q@[k] by {
                            if k < waiting.len() {
                                assert(q@[k] == waiting[k]);
                                assert(found[vertices_to_take@.len() + k] == had[vertices_to_take@.len()
                                    + k]);
                            }
                        }
                        assert forall|k: int| 0 <= k < vertices_to_take@.len() implies found[k]
                            == #[trigger] vertices_to_take@[k] by {
                            assert(found[k] == had[k]);
                        }
                    }
                }
                t += 1;
            }
        }
        proof {
            self@.lemma_search_unfold(before, visited@, found, vertices_to_take@.len() as int);
            assert(found =~= vertices_to_take@.map_values(|v: usize| v as int));
            lemma_count_true_bound(visited@);
            lemma_count_true_bound(before);
        }
        self.take_vertices(&vertices_to_take)
    }

    /// Decompose the game graph into disconnected components
    pub fn decompositions(&self) -> (res: Vec<Position>)
        requires
            self@.wf(),
        ensures
            res@.map_values(|p: Position| p@) == self@.components(),
            forall|i: int| 0 <= i < res@.len() ==> (#[trigger] res@[i])@.wf(),
    {
        let n = self.vertices.len();
        let mut visited = vec![false; n];
        let mut res: Vec<Position> = Vec::new();
        assert(visited@ =~= Seq::new(n as nat, |i: int| false));
        let mut v: usize = 0;
        while v < n
            invariant
                v <= n,
                n == self@.colors.len(),
                self@.wf(),
                visited@.len() == n,
                forall|i: int| 0 <= i < res@.len() ==> (#[trigger] res@[i])@.wf(),
                res@.map_values(|p: Position| p@) + self@.components_from(visited@, v as int)
                    == self@.components(),
            decreases n - v,
        {
            let ghost listed = res@.map_values(|p: Position| p@);
            let ghost marks = visited@;
            if !matches!(self.vertices[v], VertexColor::Taken) && !visited[v] {
                let part = self.bfs(&mut visited, v);
                res.push(part);
                proof {
                    assert(res@.map_values(|p: Position| p@) =~= listed.push(part@));
                    assert(listed.push(part@) + self@.components_from(visited@, v + 1) =~= listed
                        + self@.components_from(marks, v as int));
                }
            }
            v += 1;
        }
        proof {
            assert(self@.components_from(visited@, v as int) =~= Seq::<Snort>::empty());
            assert(res@.map_values(|p: Position| p@) + Seq::<Snort>::empty() =~= res@.map_values(
                |p: Position| p@,
            ));
        }
        res
    }

    /// Whether both are the same position.
    pub fn same(&self, other: &Position) -> (b: bool)
        ensures
            b == (self@ == other@),
    {
        if self.vertices.len() != other.vertices.len() {
            return false;
        }
        let mut i: usize = 0;
        while i < self.vertices.len()
            invariant
                i <= self.vertices@.len(),
                self.vertices@.len() == other.vertices@.len(),
                forall|k: int| 0 <= k < i ==> self.vertices@[k] == other.vertices@[k],
            decreases self.vertices@.len() - i,
        {
            if self.vertices[i] != other.vertices[i] {
                return false;
            }
            i += 1;
        }
        assert(self.vertices@ =~= other.vertices@);
        self.graph.same(&other.graph)
    }

    /// Get the canonical form of the position.
    ///
    /// # Arguments
    ///
    /// `cache` - Table of the canonical forms of positions that were computed before.
    pub fn canonical_form(&self, cache: &mut TranspositionTable<Self>) -> (cf: CanonicalForm)
        requires
            self@.wf(),
            old(cache).wf(),
            sound::<Self>(old(cache)@),
        ensures
            final(cache).wf(),
            sound::<Self>(final(cache)@),
            cf@.canonical(),
            cf@ == position_value::<Self>(self@),
    {
        canonical_form_of(self, cache)
    }

    /// Render to a [graphviz](https://graphviz.org/) format, that can be later rendered to an
    /// image with external engine.
    pub fn to_graphviz(&self) -> (buf: String)
        requires
            self@.wf(),
        ensures
            buf@ == self@.graphviz(),
    {
        let n = self.graph.size();
        let mut buf = String::new();
        buf.append("graph G {");
        let ghost head = buf@;
        let mut v: usize = 0;
        while v < n
            invariant
                v <= n,
                n == self@.colors.len(),
                buf@ + self@.vertices_text(v as int) == head + self@.vertices_text(0),
            decreases n - v,
        {
            let ghost now = buf@;
            let color = self.vertices[v];
            match color {
                VertexColor::Taken => {},
                _ => {
                    append_decimal(&mut buf, v as u64);
                    buf.append(" [fillcolor=");
                    match color {
                        VertexColor::Empty => {
                            buf.append("white");
                        },
                        VertexColor::TintLeft => {
                            buf.append("blue");
                        },
                        _ => {
                            buf.append("red");
                        },
                    }
                    buf.append(
                        ", style=filled, shape=circle, fixedsize=true, width=1, height=1, fontsize=24];",
                    );
                },
            }
            proof {
                assert(buf@ + self@.vertices_text(v + 1) =~= now + self@.vertices_text(v as int));
            }
            v += 1;
        }
        let ghost middle = buf@;
        proof {
            assert(self@.vertices_text(n as int) =~= Seq::<char>::empty());
            assert(middle =~= head + self@.vertices_text(0));
        }
        let mut v: usize = 0;
        while v < n
            invariant
                v <= n,
                n == self@.colors.len(),
                self@.wf(),
                buf@ + self@.edges_text(v as int) == middle + self@.edges_text(0),
            decreases n - v,
        {
            let ghost row = buf@;
            let mut u: usize = 0;
            while u < n
                invariant
                    u <= n,
                    v < n,
                    n == self@.colors.len(),
                    self@.wf(),
                    buf@ + self@.row_text(v as int, u as int) == row + self@.row_text(v as int, 0),
                decreases n - u,
            {
                let ghost now = buf@;
                if v < u && self.graph.are_adjacent(v, u) {
                    append_decimal(&mut buf, v as u64);
                    buf.append(" -- ");
                    append_decimal(&mut buf, u as u64);
                    buf.append(";");
                }
                proof {
                    assert(buf@ + self@.row_text(v as int, u + 1) =~= now + self@.row_text(
                        v as int,
                        u as int,
                    ));
                }
                u += 1;
            }
            proof {
                assert(self@.row_text(v as int, n as int) =~= Seq::<char>::empty());
                assert(buf@ =~= row + self@.row_text(v as int, 0));
                assert(buf@ + self@.edges_text(v + 1) =~= row + self@.edges_text(v as int));
            }
            v += 1;
        }
        proof {
            assert(self@.edges_text(n as int) =~= Seq::<char>::empty());
            assert(buf@ =~= middle + self@.edges_text(0));
        }
        buf.append("}");
        buf
    }

    /// Create a Snort position with initial colors. It's up to the user to ensure that no conflicting
    /// colors are connected in the graph.
    /// Returns `None` if `vertices` and `graph` have conflicting sizes.
    pub fn with_colors(vertices: Vec<VertexColor>, graph: UndirectedGraph) -> (r: Option<Self>)
        requires
            graph.valid(),
        ensures
            r is Some <==> vertices@.len() == graph@.size,
            r matches Some(p) ==> p@.wf() && p@ == (Snort { colors: vertices@, graph: graph@ }),
    {
        if vertices.len() != graph.size() {
            return None;
        }
        Some(Position { vertices, graph })
    }
}

/// The fingerprint so far with one more number worked in.
pub open spec fn mixed(h: u64, x: u64) -> u64 {
    ((h << 5) | (h >> 59)) ^ x ^ (h >> 2)
}

/// A number for each color.
pub open spec fn color_code(color: VertexColor) -> u64 {
    match color {
        VertexColor::Empty => 0,
        VertexColor::TintLeft => 1,
        VertexColor::TintRight => 2,
        VertexColor::Taken => 3,
    }
}

impl Snort {
    /// The fingerprint after the first `k` colors were worked in.
    pub open spec fn colors_fingerprint(self, k: nat) -> u64
        decreases k,
    {
        if k == 0 || k > self.colors.len() {
            self.colors.len() as u64
        } else {
            mixed(self.colors_fingerprint((k - 1) as nat), color_code(self.colors[k - 1]))
        }
    }

    /// The fingerprint after the colors and the first `k` entries of the
    /// matrix were worked in.
    pub open spec fn edges_fingerprint(self, k: nat) -> u64
        decreases k,
    {
        if k == 0 || k > self.graph.entries.len() {
            self.colors_fingerprint(self.colors.len())
        } else {
            mixed(
                self.edges_fingerprint((k - 1) as nat),
                if self.graph.entries[k - 1] {
                    1u64
                } else {
                    0u64
                },
            )
        }
    }

    /// The fingerprint of the position: its colors and edges, mixed one by one.
    pub open spec fn fingerprint(self) -> u64 {
        self.edges_fingerprint(self.graph.entries.len())
    }
}

impl Position {
    /// The fingerprint so far with one more number worked in.
    fn mix(h: u64, x: u64) -> (r: u64)
        ensures
            r == mixed(h, x),
    {
        ((h << 5) | (h >> 59)) ^ x ^ (h >> 2)
    }

    /// The fingerprint of the position, for looking it up in a table.
    pub fn fingerprint(&self) -> (h: u64)
        requires
            self@.wf(),
        ensures
            h == self@.fingerprint(),
    {
        let n = self.vertices.len();
        let mut h: u64 = n as u64;
        let mut k: usize = 0;
        while k < n
            invariant
                k <= n,
                n == self@.colors.len(),
                h == self@.colors_fingerprint(k as nat),
            decreases n - k,
        {
            let code: u64 = match self.vertices[k] {
                VertexColor::Empty => 0,
                VertexColor::TintLeft => 1,
                VertexColor::TintRight => 2,
                VertexColor::Taken => 3,
            };
            h = Self::mix(h, code);
            k += 1;
        }
        let mut u: usize = 0;
        proof {
            assert(n * 0 + 0 == 0);
        }
        while u < n
            invariant
                u <= n,
                n == self@.colors.len(),
                self@.wf(),
                h == self@.edges_fingerprint((n * u) as nat),
            decreases n - u,
        {
            let mut v: usize = 0;
            while v < n
                invariant
                    u < n,
                    v <= n,
                    n == self@.colors.len(),
                    self@.wf(),
                    h == self@.edges_fingerprint((n * u + v) as nat),
                decreases n - v,
            {
                proof {
                    self@.graph.lemma_index_bound(v as int, u as int);
                }
                // the entry for the edge from `v` to `u`
                let bit: u64 = if self.graph.are_adjacent(v, u) {
                    1
                } else {
                    0
                };
                h = Self::mix(h, bit);
                v += 1;
            }
            proof {
                assert(n * u + n == n * (u + 1)) by (nonlinear_arith);
            }
            u += 1;
        }
        proof {
            assert(n * n == self@.graph.entries.len());
        }
        h
    }
}

impl PartizanGame for Position {
    open spec fn fingerprint_of(position: Snort) -> u64 {
        position.fingerprint()
    }

    open spec fn valid(position: Snort) -> bool {
        position.wf()
    }

    open spec fn rank(position: Snort) -> nat {
        position.rank()
    }

    open spec fn moves(position: Snort, left: bool) -> Seq<Snort> {
        position.moves(left)
    }

    open spec fn components(position: Snort) -> Seq<Snort> {
        position.components()
    }

    proof fn lemma_moves(position: Snort, left: bool, i: int) {
        let tint = Snort::tint(left);
        position.lemma_moves_from(tint, 0, i);
        let m = choose|m: int|
            position.legal(m, tint) && position.moves_from(tint, 0)[i]
                == #[trigger] position.after_move(m, tint);
        position.lemma_after_move(m, tint);
        position.lemma_move_rank(m, tint);
    }

    proof fn lemma_components(position: Snort, i: int) {
        position.lemma_components_from(Seq::new(position.colors.len(), |i: int| false), 0, i);
    }

    fn left_moves(&self) -> (moves: Vec<Self>) {
        self.moves_for(VertexColor::TintLeft)
    }

    fn right_moves(&self) -> (moves: Vec<Self>) {
        self.moves_for(VertexColor::TintRight)
    }

    fn decompositions(&self) -> (components: Vec<Self>) {
        Position::decompositions(self)
    }

    fn same(&self, other: &Self) -> (b: bool) {
        Position::same(self, other)
    }

    fn fingerprint(&self) -> (h: u64) {
        Position::fingerprint(self)
    }

    fn duplicate(&self) -> (copy: Self) {
        self.clone()
    }
}

} // verus!
