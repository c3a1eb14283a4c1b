//! The components of a Snort position are the classes of its vertices
//! under the walks along edges.

use crate::graph::count_true;
use crate::graph::lemma_count_true_bound;
use crate::graph::lemma_count_zero;
use crate::short::partizan::games::snort::searching;
use crate::short::partizan::games::snort::Snort;
use crate::short::partizan::games::snort::VertexColor;
use crate::short::partizan::games::snort_components::comes;
use crate::short::partizan::games::snort_components::first_marks;
use crate::short::partizan::games::snort_components::first_vertices;
use vstd::prelude::*;

verus! {

/// Whether the vertex `u` lies in one of the parts.
pub open spec fn in_parts(parts: Seq<Seq<int>>, u: int) -> bool {
    exists|i: int| 0 <= i < parts.len() && #[trigger] parts[i].contains(u)
}

/// No vertex lies in two of the parts.
pub open spec fn disjoint(parts: Seq<Seq<int>>) -> bool {
    forall|i: int, j: int, u: int|
        0 <= i < j < parts.len() && #[trigger] parts[i].contains(u) ==> !#[trigger] parts[j].contains(
            u,
        )
}

/// The number of vertices in all the parts.
pub open spec fn total_len(parts: Seq<Seq<int>>) -> nat
    decreases parts.len(),
{
    if parts.len() == 0 {
        0
    } else {
        parts[0].len() + total_len(parts.drop_first())
    }
}

impl Snort {
    /// The vertices of the components of the vertices from `v` on that are
    /// neither taken nor marked, each in the order in which the search from
    /// its first vertex finds them.
    pub open spec fn parts_from(self, visited: Seq<bool>, v: int) -> Seq<Seq<int>>
        decreases self.colors.len() - v,
    {
        if v < 0 || v >= self.colors.len() || visited.len() != self.colors.len() {
            Seq::empty()
        } else if self.colors[v] != VertexColor::Taken && !visited[v] {
            let found = self.component(visited, v);
            seq![found.1] + self.parts_from(found.0, v + 1)
        } else {
            self.parts_from(visited, v + 1)
        }
    }

    /// The marks after the components of the vertices from `v` on were searched.
    pub open spec fn marks_from(self, visited: Seq<bool>, v: int) -> Seq<bool>
        decreases self.colors.len() - v,
    {
        if v < 0 || v >= self.colors.len() || visited.len() != self.colors.len() {
            visited
        } else if self.colors[v] != VertexColor::Taken && !visited[v] {
            self.marks_from(self.component(visited, v).0, v + 1)
        } else {
            self.marks_from(visited, v + 1)
        }
    }

    /// The vertices of the components of the position.
    pub open spec fn parts(self) -> Seq<Seq<int>> {
        self.parts_from(Seq::new(self.colors.len(), |i: int| false), 0)
    }

    /// The vertices of `part` are different from each other, the first one
    /// is not taken, and they are exactly the vertices that a walk along
    /// edges leads to from the first one.
    pub open spec fn is_class(self, part: Seq<int>) -> bool {
        &&& part.len() > 0
        &&& 0 <= part[0] < self.colors.len()
        &&& self.colors[part[0]] != VertexColor::Taken
        &&& forall|k: int, l: int| 0 <= k < l < part.len() ==> #[trigger] part[k] != #[trigger] part[l]
        &&& forall|u: int| #[trigger] part.contains(u) <==> self.graph.reachable(part[0], u)
    }

    /// No vertex that is taken has an edge.
    pub open spec fn taken_alone(self) -> bool {
        forall|u: int, w: int|
            0 <= u < self.colors.len() && self.colors[u] == VertexColor::Taken ==> !#[trigger] self.graph.has_edge(
                u,
                w,
            )
    }

    /// In every state of the search from `start`, a walk along edges leads
    /// from `start` to each vertex that was found, and every vertex that a
    /// visited vertex has an edge to is marked.
    pub proof fn lemma_search_reach(self, visited: Seq<bool>, start: int, i: nat)
        requires
            self.wf(),
            visited.len() == self.colors.len(),
            0 <= start < visited.len(),
            !visited[start],
        ensures
            ({
                let state = self.search_state(visited, start, i);
                &&& state.0.len() == visited.len()
                &&& forall|k: int|
                    0 <= k < state.1.len() ==> self.graph.reachable(start, #[trigger] state.1[k])
                &&& forall|k: int, u: int|
                    0 <= k < state.1.len() && k < i && #[trigger] self.graph.has_edge(state.1[k], u)
                        ==> state.0[u]
            }),
        decreases i,
    {
        self.lemma_search_state(visited, start, i);
        let now = self.search_state(visited, start, i);
        if i == 0 {
            let path = seq![start];
            assert(self.graph.is_path(path) && path.first() == start && path.last() == start);
            assert(now.1[0] == start);
        } else {
            let j = (i - 1) as nat;
            self.lemma_search_reach(visited, start, j);
            self.lemma_search_state(visited, start, j);
            let s = self.search_state(visited, start, j);
            if j < s.1.len() {
                let x = s.1[j as int];
                let adjacent = self.graph.adjacent_to(x);
                self.graph.lemma_adjacent_from(x, 0);
                assert forall|t: int| 0 <= t < adjacent.len() implies 0 <= #[trigger] adjacent[t]
                    < s.0.len() by {
                    assert(adjacent.contains(adjacent[t]));
                }
                Self::lemma_discover(visited, s.0, s.1, adjacent, 0);
                Self::lemma_discovered(visited, s.0, s.1, adjacent, 0);
                assert forall|k: int| 0 <= k < now.1.len() implies self.graph.reachable(
                    start,
                    #[trigger] now.1[k],
                ) by {
                    if k < s.1.len() {
                        assert(now.1[k] == s.1[k]);
                    } else {
                        assert(comes(adjacent, 0, now.1[k]));
                        assert(adjacent.contains(now.1[k]));
                        self.graph.lemma_reachable_step(start, x, now.1[k]);
                    }
                }
                assert forall|k: int, u: int|
                    0 <= k < now.1.len() && k < i && #[trigger] self.graph.has_edge(
                        now.1[k],
                        u,
                    ) implies now.0[u] by {
                    assert(now.1[k] == s.1[k]);
                    if k < j {
                        assert(self.graph.has_edge(s.1[k], u));
                        assert(s.0[u]);
                    } else {
                        assert(adjacent.contains(u));
                        let t = choose|t: int| 0 <= t < adjacent.len() && adjacent[t] == u;
                        assert(now.0[adjacent[t]]);
                    }
                }
            }
        }
    }

    /// The search from `start`, where the marked vertices have edges to
    /// marked vertices only, finds exactly the vertices that a walk along
    /// edges leads to from `start`, and leaves such marks.
    pub proof fn lemma_component_class(self, visited: Seq<bool>, start: int)
        requires
            self.wf(),
            visited.len() == self.colors.len(),
            0 <= start < visited.len(),
            !visited[start],
            self.graph.closed_under_edges(visited),
        ensures
            searching(visited, self.component(visited, start).0, self.component(visited, start).1),
            self.component(visited, start).1.len() > 0,
            self.component(visited, start).1[0] == start,
            self.graph.closed_under_edges(self.component(visited, start).0),
            forall|u: int| #[trigger]
                self.component(visited, start).1.contains(u) <==> self.graph.reachable(start, u),
    {
        let n = visited.len();
        self.lemma_search_state(visited, start, n);
        self.lemma_search_reach(visited, start, n);
        let state = self.search_state(visited, start, n);
        lemma_count_true_bound(state.0);
        assert(state.1.len() <= n);
        let found = self.component(visited, start);
        assert(found == state);
        assert forall|v: int, u: int|
            0 <= v < found.0.len() && found.0[v] && #[trigger] self.graph.has_edge(
                v,
                u,
            ) implies found.0[u] by {
            if visited[v] {
                assert(visited[u]);
            } else {
                assert(found.1.contains(v));
                let k = choose|k: int| 0 <= k < found.1.len() && found.1[k] == v;
                assert(self.graph.has_edge(found.1[k], u));
            }
        }
        // no edge leads from a vertex without a mark to a marked one
        let clear = Seq::new(n, |w: int| !visited[w]);
        assert forall|v: int, u: int|
            0 <= v < clear.len() && clear[v] && #[trigger] self.graph.has_edge(v, u) implies clear[u] by {
            if visited[u] {
                assert(self.graph.has_edge(u, v));
            }
        }
        assert forall|u: int| #[trigger]
            found.1.contains(u) <==> self.graph.reachable(start, u) by {
            if found.1.contains(u) {
                let k = choose|k: int| 0 <= k < found.1.len() && found.1[k] == u;
                assert(self.graph.reachable(start, found.1[k]));
            }
            if self.graph.reachable(start, u) {
                let path = choose|path: Seq<int>| #[trigger]
                    self.graph.is_path(path) && path.first() == start && path.last() == u;
                self.graph.lemma_closed_holds_reachable(found.0, path);
                self.graph.lemma_closed_holds_reachable(clear, path);
                if path.len() > 1 {
                    let k = path.len() - 2;
                    assert(self.graph.has_edge(path[k], path[k + 1]));
                }
                assert(0 <= u < n);
                assert(found.0[u] && !visited[u]);
            }
        }
    }

    /// The graph of a component is connected.
    pub proof fn lemma_component_connected(self, visited: Seq<bool>, start: int)
        requires
            self.wf(),
            visited.len() == self.colors.len(),
            0 <= start < visited.len(),
            !visited[start],
        ensures
            self.induced(self.component(visited, start).1).graph.is_connected(),
    {
        let order = self.component(visited, start).1;
        let k = order.len();
        let part = self.induced(order);
        self.lemma_search_state(visited, start, 0);
        self.lemma_induced(order);
        // the search in the component finds all its vertices
        self.lemma_search_again(visited, start, 0);
        let all_clear = Seq::new(k, |x: int| false);
        assert(all_clear.update(0, true) =~= first_marks(k, 1));
        assert(seq![0int] =~= first_vertices(1));
        assert(part.component(all_clear, 0) == (first_marks(k, k as int), first_vertices(k)));
        part.lemma_component_class(all_clear, 0);
        assert forall|b: int| 0 <= b < part.graph.size implies part.graph.reachable(0, b) by {
            assert(first_vertices(k)[b] == b);
            assert(first_vertices(k).contains(b));
        }
    }

    /// What the search for the components from the vertex `v` on gives,
    /// where the marked vertices have edges to marked vertices only and
    /// every vertex before `v` is marked or taken.
    pub proof fn lemma_parts_from(self, visited: Seq<bool>, v: int)
        requires
            self.wf(),
            visited.len() == self.colors.len(),
            0 <= v,
            self.graph.closed_under_edges(visited),
            forall|u: int| 0 <= u < v && u < visited.len() && !visited[u] ==> self.colors[u] == VertexColor::Taken,
        ensures
            ({
                let parts = self.parts_from(visited, v);
                let marks = self.marks_from(visited, v);
                let all = self.components_from(visited, v);
                &&& all.len() == parts.len()
                &&& forall|i: int| 0 <= i < parts.len() ==> #[trigger] all[i] == self.induced(parts[i])
                &&& forall|i: int| 0 <= i < parts.len() ==> #[trigger] all[i].graph.is_connected()
                &&& forall|i: int| 0 <= i < parts.len() ==> self.is_class(#[trigger] parts[i])
                &&& disjoint(parts)
                &&& forall|u: int| #[trigger] in_parts(parts, u) ==> 0 <= u < visited.len() && !visited[u]
                &&& marks.len() == visited.len()
                &&& forall|u: int|
                    0 <= u < marks.len() ==> #[trigger] marks[u] == (visited[u] || in_parts(parts, u))
                &&& forall|u: int|
                    0 <= u < marks.len() && !#[trigger] marks[u] ==> self.colors[u] == VertexColor::Taken
                &&& count_true(marks) == count_true(visited) + total_len(parts)
            }),
        decreases self.colors.len() - v,
    {
        let parts = self.parts_from(visited, v);
        let marks = self.marks_from(visited, v);
        let all = self.components_from(visited, v);
        if v >= self.colors.len() {
            assert forall|u: int| #[trigger] in_parts(parts, u) implies false by {}
        } else if self.colors[v] != VertexColor::Taken && !visited[v] {
            let found = self.component(visited, v);
            self.lemma_component_class(visited, v);
            self.lemma_component_connected(visited, v);
            self.lemma_parts_from(found.0, v + 1);
            let rest = self.parts_from(found.0, v + 1);
            let others = self.components_from(found.0, v + 1);
            assert(parts[0] == found.1);
            assert(parts.drop_first() =~= rest);
            assert forall|i: int| 0 <= i < parts.len() implies #[trigger] all[i] == self.induced(
                parts[i],
            ) && all[i].graph.is_connected() && self.is_class(parts[i]) by {
                if i > 0 {
                    assert(parts[i] == rest[i - 1]);
                    assert(all[i] == others[i - 1]);
                }
            }
            assert forall|u: int| #[trigger] in_parts(parts, u) <==> (found.1.contains(u)
                || in_parts(rest, u)) by {
                if in_parts(parts, u) {
                    let i = choose|i: int| 0 <= i < parts.len() && #[trigger] parts[i].contains(u);
                    if i > 0 {
                        assert(parts[i] == rest[i - 1]);
                        assert(rest[i - 1].contains(u));
                    }
                }
                if found.1.contains(u) {
                    assert(parts[0].contains(u));
                }
                if in_parts(rest, u) {
                    let i = choose|i: int| 0 <= i < rest.len() && #[trigger] rest[i].contains(u);
                    assert(parts[i + 1] == rest[i]);
                    assert(parts[i + 1].contains(u));
                }
            }
            assert forall|u: int| found.1.contains(u) implies 0 <= u < visited.len() && !visited[u]
                && found.0[u] by {
                let k = choose|k: int| 0 <= k < found.1.len() && found.1[k] == u;
            }
            assert forall|i: int, j: int, u: int|
                0 <= i < j < parts.len() && #[trigger] parts[i].contains(u) implies !#[trigger] parts[j].contains(
                u,
            ) by {
                assert(parts[j] == rest[j - 1]);
                if parts[j].contains(u) {
                    assert(rest[j - 1].contains(u));
                    assert(in_parts(rest, u));
                    if i > 0 {
                        assert(parts[i] == rest[i - 1]);
                        assert(rest[i - 1].contains(u));
                    }
                }
            }
        } else {
            self.lemma_parts_from(visited, v + 1);
        }
    }

    /// The components of a position part its vertices by the walks along
    /// edges. Each component is the position on the vertices of one part,
    /// and its graph is connected. The vertices of a part are exactly those
    /// that a walk leads to from its first vertex, which is not taken. No
    /// vertex lies in two parts, and every vertex that is not taken lies in
    /// one. The sizes of the parts add up to the number of vertices that lie
    /// in a part.
    pub proof fn lemma_partition(self)
        requires
            self.wf(),
        ensures
            self.components().len() == self.parts().len(),
            forall|i: int|
                0 <= i < self.parts().len() ==> #[trigger] self.components()[i] == self.induced(
                    self.parts()[i],
                ),
            forall|i: int|
                0 <= i < self.parts().len() ==> #[trigger] self.components()[i].graph.is_connected(),
            forall|i: int| 0 <= i < self.parts().len() ==> self.is_class(#[trigger] self.parts()[i]),
            disjoint(self.parts()),
            forall|u: int| #[trigger] in_parts(self.parts(), u) ==> 0 <= u < self.colors.len(),
            forall|u: int|
                0 <= u < self.colors.len() && self.colors[u] != VertexColor::Taken ==> #[trigger] in_parts(
                    self.parts(),
                    u,
                ),
            total_len(self.parts()) == count_true(
                Seq::new(self.colors.len(), |u: int| in_parts(self.parts(), u)),
            ),
    {
        let n = self.colors.len();
        let clear = Seq::new(n, |i: int| false);
        lemma_count_zero(n);
        self.lemma_parts_from(clear, 0);
        let marks = self.marks_from(clear, 0);
        assert(marks =~= Seq::new(n, |u: int| in_parts(self.parts(), u)));
        assert forall|u: int| 0 <= u < n && self.colors[u] != VertexColor::Taken implies #[trigger] in_parts(
            self.parts(),
            u,
        ) by {
            assert(marks[u]);
        }
    }

    /// Where no vertex that is taken has an edge, the vertices in the parts
    /// are exactly the vertices that are not taken, and the sizes of the
    /// components add up to their number.
    pub proof fn lemma_partition_sizes(self)
        requires
            self.wf(),
            self.taken_alone(),
        ensures
            forall|u: int| #[trigger]
                in_parts(self.parts(), u) <==> (0 <= u < self.colors.len() && self.colors[u]
                    != VertexColor::Taken),
            total_len(self.parts()) == self.rank(),
    {
        let n = self.colors.len();
        let parts = self.parts();
        self.lemma_partition();
        let live = self.live();
        // no edge leads from a vertex that is not taken to one that is
        assert forall|v: int, u: int|
            0 <= v < live.len() && live[v] && #[trigger] self.graph.has_edge(v, u) implies live[u] by {
            if self.colors[u] == VertexColor::Taken {
                assert(self.graph.has_edge(u, v));
            }
        }
        assert forall|u: int| #[trigger] in_parts(parts, u) implies self.colors[u]
            != VertexColor::Taken by {
            let i = choose|i: int| 0 <= i < parts.len() && #[trigger] parts[i].contains(u);
            assert(self.is_class(parts[i]));
            let path = choose|path: Seq<int>| #[trigger]
                self.graph.is_path(path) && path.first() == parts[i][0] && path.last() == u;
            self.graph.lemma_closed_holds_reachable(live, path);
        }
        assert(Seq::new(n, |u: int| in_parts(parts, u)) =~= live);
    }
}

} // verus!
