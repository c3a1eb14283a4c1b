//! Why a Snort position gets smaller with every move, and why its
//! components are positions that fall into no further components.

use crate::graph::count_true;
use crate::graph::lemma_count_true_bound;
use crate::graph::lemma_count_true_monotone;
use crate::graph::lemma_count_true_picked;
use crate::graph::lemma_count_true_update;
use crate::graph::lemma_count_zero;
use crate::short::partizan::games::snort::searching;
use crate::short::partizan::games::snort::Snort;
use crate::short::partizan::games::snort::VertexColor;
use vstd::prelude::*;

verus! {

/// Marks on the first `j` of `n` vertices.
pub open spec fn first_marks(n: nat, j: int) -> Seq<bool> {
    Seq::new(n, |i: int| i < j)
}

/// The vertices `0..j`, in order.
pub open spec fn first_vertices(j: nat) -> Seq<int> {
    Seq::new(j, |i: int| i)
}

/// Whether `u` is among the vertices `adjacent` from index `t` on.
pub open spec fn comes(adjacent: Seq<int>, t: int, u: int) -> bool {
    exists|s: int| t <= s < adjacent.len() && #[trigger] adjacent[s] == u
}

impl Snort {
    /// Which vertices are not taken.
    pub open spec fn live(self) -> Seq<bool> {
        Seq::new(self.colors.len(), |v: int| self.colors[v] != VertexColor::Taken)
    }

    /// The number of vertices that are not taken: no more moves can be made.
    pub open spec fn rank(self) -> nat {
        count_true(self.live())
    }

    /// A move takes a vertex that was not taken, and frees none.
    pub proof fn lemma_move_rank(self, m: int, tint: VertexColor)
        requires
            self.wf(),
            self.legal(m, tint),
            tint != VertexColor::Taken,
        ensures
            self.after_move(m, tint).rank() < self.rank(),
    {
        let after = self.after_move(m, tint);
        assert(self.live()[m] && !after.live()[m]);
        lemma_count_true_monotone(after.live(), self.live());
    }

    /// Every position that the player can move to is reached by taking a
    /// vertex that the player may take.
    pub proof fn lemma_moves_from(self, tint: VertexColor, v: int, i: int)
        requires
            0 <= v,
            0 <= i < self.moves_from(tint, v).len(),
        ensures
            exists|m: int| self.legal(m, tint) && self.moves_from(tint, v)[i] == #[trigger] self.after_move(
                m,
                tint,
            ),
        decreases self.colors.len() - v,
    {
        if v < self.colors.len() {
            if self.legal(v, tint) {
                if i == 0 {
                    assert(self.moves_from(tint, v)[i] == self.after_move(v, tint));
                } else {
                    self.lemma_moves_from(tint, v + 1, i - 1);
                    let m = choose|m: int|
                        self.legal(m, tint) && self.moves_from(tint, v + 1)[i - 1]
                            == #[trigger] self.after_move(m, tint);
                    assert(self.moves_from(tint, v)[i] == self.after_move(m, tint));
                }
            } else {
                self.lemma_moves_from(tint, v + 1, i);
            }
        }
    }

    /// After the neighbours in `adjacent` from index `t` on were discovered,
    /// each of them is marked, and what was found in addition is among them.
    pub proof fn lemma_discovered(
        before: Seq<bool>,
        visited: Seq<bool>,
        found: Seq<int>,
        adjacent: Seq<int>,
        t: int,
    )
        requires
            searching(before, visited, found),
            0 <= t,
            forall|s: int| 0 <= s < adjacent.len() ==> 0 <= #[trigger] adjacent[s] < visited.len(),
        ensures
            forall|s: int|
                t <= s < adjacent.len() ==> Self::discover(visited, found, adjacent, t).0[#[trigger] adjacent[s]],
            forall|u: int|
                0 <= u < visited.len() && #[trigger] visited[u] ==> Self::discover(
                    visited,
                    found,
                    adjacent,
                    t,
                ).0[u],
            Self::discover(visited, found, adjacent, t).0.len() == visited.len(),
            forall|k: int|
                found.len() <= k < Self::discover(visited, found, adjacent, t).1.len() ==> comes(
                    adjacent,
                    t,
                    #[trigger] Self::discover(visited, found, adjacent, t).1[k],
                ),
        decreases adjacent.len() - t,
    {
        if t < adjacent.len() {
            let u = adjacent[t];
            let result = Self::discover(visited, found, adjacent, t);
            if !visited[u] {
                let v2 = visited.update(u, true);
                let f2 = found.push(u);
                Self::lemma_discover_step(before, visited, found, u);
                Self::lemma_discovered(before, v2, f2, adjacent, t + 1);
                Self::lemma_discover(before, v2, f2, adjacent, t + 1);
                assert forall|k: int| found.len() <= k < result.1.len() implies comes(
                    adjacent,
                    t,
                    #[trigger] result.1[k],
                ) by {
                    if k == found.len() {
                        assert(result.1[k] == f2[k]);
                        assert(adjacent[t] == result.1[k]);
                    } else {
                        assert(comes(adjacent, t + 1, result.1[k]));
                        let s = choose|s: int|
                            t + 1 <= s < adjacent.len() && #[trigger] adjacent[s] == result.1[k];
                        assert(t <= s < adjacent.len() && adjacent[s] == result.1[k]);
                    }
                }
                assert forall|s: int| t <= s < adjacent.len() implies result.0[#[trigger] adjacent[s]] by {
                    if s == t {
                        assert(v2[u]);
                    }
                }
                assert forall|w: int| 0 <= w < visited.len() && #[trigger] visited[w] implies result.0[w] by {
                    assert(v2[w]);
                }
            } else {
                Self::lemma_discovered(before, visited, found, adjacent, t + 1);
                assert forall|k: int| found.len() <= k < result.1.len() implies comes(
                    adjacent,
                    t,
                    #[trigger] result.1[k],
                ) by {
                    assert(comes(adjacent, t + 1, result.1[k]));
                    let s = choose|s: int|
                        t + 1 <= s < adjacent.len() && #[trigger] adjacent[s] == result.1[k];
                    assert(t <= s < adjacent.len() && adjacent[s] == result.1[k]);
                }
            }
        }
    }

    /// Discovering among the sorted vertices `adjacent` from index `t` on,
    /// where the vertices below `m` are marked and those from `m` on that
    /// come are exactly `m..hi`, marks the vertices below `hi` and finds
    /// `m..hi` in order.
    pub proof fn lemma_discover_range(n: nat, adjacent: Seq<int>, t: int, m: int, hi: int)
        requires
            0 <= t,
            0 <= m <= hi <= n,
            forall|s: int| 0 <= s < adjacent.len() ==> 0 <= #[trigger] adjacent[s] < n,
            forall|a: int, b: int| 0 <= a < b < adjacent.len() ==> adjacent[a] < adjacent[b],
            forall|b: int| (m <= b && #[trigger] comes(adjacent, t, b)) <==> m <= b < hi,
        ensures
            Self::discover(first_marks(n, m), first_vertices(m as nat), adjacent, t) == (
                first_marks(n, hi),
                first_vertices(hi as nat),
            ),
        decreases adjacent.len() - t,
    {
        if t >= adjacent.len() {
            if m < hi {
                assert(comes(adjacent, t, m));
                let s = choose|s: int| t <= s < adjacent.len() && #[trigger] adjacent[s] == m;
            }
        } else {
            let u = adjacent[t];
            if u < m {
                assert forall|b: int| (m <= b && #[trigger] comes(adjacent, t + 1, b)) <==> m <= b
                    < hi by {
                    if m <= b < hi {
                        assert(comes(adjacent, t, b));
                        let s = choose|s: int| t <= s < adjacent.len() && #[trigger] adjacent[s] == b;
                        assert(s != t);
                        assert(t + 1 <= s < adjacent.len() && adjacent[s] == b);
                    }
                    if m <= b && comes(adjacent, t + 1, b) {
                        let s = choose|s: int|
                            t + 1 <= s < adjacent.len() && #[trigger] adjacent[s] == b;
                        assert(t <= s < adjacent.len() && adjacent[s] == b);
                        assert(comes(adjacent, t, b));
                    }
                }
                Self::lemma_discover_range(n, adjacent, t + 1, m, hi);
            } else {
                assert(t <= t < adjacent.len() && adjacent[t] == u);
                assert(comes(adjacent, t, u));
                assert(m <= u < hi);
                assert(comes(adjacent, t, m));
                let s = choose|s: int| t <= s < adjacent.len() && #[trigger] adjacent[s] == m;
                if s > t {
                    assert(adjacent[t] < adjacent[s]);
                }
                assert(u == m);
                assert(first_marks(n, m).update(m, true) =~= first_marks(n, m + 1));
                assert(first_vertices(m as nat).push(m) =~= first_vertices((m + 1) as nat));
                assert forall|b: int| (m + 1 <= b && #[trigger] comes(adjacent, t + 1, b)) <==> m
                    + 1 <= b < hi by {
                    if m + 1 <= b < hi {
                        assert(comes(adjacent, t, b));
                        let s = choose|s: int| t <= s < adjacent.len() && #[trigger] adjacent[s] == b;
                        assert(s != t);
                        assert(t + 1 <= s < adjacent.len() && adjacent[s] == b);
                    }
                    if m + 1 <= b && comes(adjacent, t + 1, b) {
                        let s = choose|s: int|
                            t + 1 <= s < adjacent.len() && #[trigger] adjacent[s] == b;
                        assert(t <= s < adjacent.len() && adjacent[s] == b);
                        assert(comes(adjacent, t, b));
                    }
                }
                Self::lemma_discover_range(n, adjacent, t + 1, m + 1, hi);
            }
        }
    }
}

/// The search on `n` vertices that has found the first `j` of them, in order.
pub proof fn lemma_first_state(n: nat, j: nat)
    requires
        j <= n,
    ensures
        searching(Seq::new(n, |i: int| false), first_marks(n, j as int), first_vertices(j)),
    decreases j,
{
    let before = Seq::new(n, |i: int| false);
    let found = first_vertices(j);
    let visited = first_marks(n, j as int);
    if j == 0 {
        lemma_count_zero(n);
        assert(visited =~= before);
    } else {
        lemma_first_state(n, (j - 1) as nat);
        let fewer = first_marks(n, j - 1);
        lemma_count_true_update(fewer, j - 1);
        assert(fewer.update(j - 1, true) =~= visited);
    }
    assert forall|u: int| 0 <= u < visited.len() implies #[trigger] visited[u] == (before[u]
        || found.contains(u)) by {
        if u < j {
            assert(found[u] == u);
        }
        if found.contains(u) {
            let k = choose|k: int| 0 <= k < found.len() && found[k] == u;
        }
    }
}

impl Snort {
    /// The state of the search from `start` after `i` vertices were visited.
    pub open spec fn search_state(self, visited: Seq<bool>, start: int, i: nat) -> (
        Seq<bool>,
        Seq<int>,
    )
        decreases i,
    {
        if i == 0 {
            (visited.update(start, true), seq![start])
        } else {
            let s = self.search_state(visited, start, (i - 1) as nat);
            if i - 1 < s.1.len() {
                Self::discover(s.0, s.1, self.graph.adjacent_to(s.1[i - 1]), 0)
            } else {
                s
            }
        }
    }

    /// Every state of the search leads to the component, of which it has found the first vertices.
    pub proof fn lemma_search_state(self, visited: Seq<bool>, start: int, i: nat)
        requires
            self.wf(),
            visited.len() == self.colors.len(),
            0 <= start < visited.len(),
            !visited[start],
        ensures
            searching(
                visited,
                self.search_state(visited, start, i).0,
                self.search_state(visited, start, i).1,
            ),
            searching(visited, self.component(visited, start).0, self.component(visited, start).1),
            self.component(visited, start) == self.search(
                self.search_state(visited, start, i).0,
                self.search_state(visited, start, i).1,
                i as int,
            ),
            self.search_state(visited, start, i).1.len() <= self.component(visited, start).1.len(),
            forall|k: int|
                0 <= k < self.search_state(visited, start, i).1.len() ==> self.component(
                    visited,
                    start,
                ).1[k] == self.search_state(visited, start, i).1[k],
            i >= self.search_state(visited, start, i).1.len() ==> self.component(visited, start)
                == self.search_state(visited, start, i),
            self.search_state(visited, start, i).1.len() >= 1,
            self.search_state(visited, start, i).1[0] == start,
        decreases i,
    {
        Self::lemma_search_start(visited, start);
        let s0 = (visited.update(start, true), seq![start]);
        self.lemma_search(visited, s0.0, s0.1, 0);
        if i > 0 {
            let j = (i - 1) as nat;
            self.lemma_search_state(visited, start, j);
            let s = self.search_state(visited, start, j);
            self.lemma_search_unfold(visited, s.0, s.1, j as int);
            if j < s.1.len() {
                Self::lemma_discover(visited, s.0, s.1, self.graph.adjacent_to(s.1[j as int]), 0);
            }
        }
        let now = self.search_state(visited, start, i);
        self.lemma_search(visited, now.0, now.1, i as int);
        self.lemma_search_unfold(visited, now.0, now.1, i as int);
    }

    /// The search in a component, which lists its vertices in the order in
    /// which the search in the position found them, finds them in that order again.
    pub proof fn lemma_search_again(self, visited: Seq<bool>, start: int, i: nat)
        requires
            self.wf(),
            visited.len() == self.colors.len(),
            0 <= start < visited.len(),
            !visited[start],
            i <= self.search_state(visited, start, i).1.len(),
        ensures
            ({
                let order = self.component(visited, start).1;
                let part = self.induced(order);
                let j = self.search_state(visited, start, i).1.len();
                part.search(first_marks(order.len(), j as int), first_vertices(j), i as int) == (
                    first_marks(order.len(), order.len() as int),
                    first_vertices(order.len()),
                )
            }),
        decreases self.component(visited, start).1.len() - i,
    {
        let order = self.component(visited, start).1;
        let k = order.len();
        let part = self.induced(order);
        let state = self.search_state(visited, start, i);
        let j = state.1.len();
        self.lemma_search_state(visited, start, i);
        lemma_first_state(k, j);
        let all_clear = Seq::new(k, |x: int| false);
        part.lemma_search_unfold(all_clear, first_marks(k, j as int), first_vertices(j), i as int);
        if i < j {
            // one more vertex is visited, in the position and in the component
            self.lemma_search_state(visited, start, i + 1);
            let next = self.search_state(visited, start, i + 1);
            let hi = next.1.len();
            let x = state.1[i as int];
            assert(x == order[i as int]);
            let near = self.graph.adjacent_to(x);
            assert(next == Self::discover(state.0, state.1, near, 0));
            self.graph.lemma_adjacent_from(x, 0);
            assert forall|s: int| 0 <= s < near.len() implies 0 <= #[trigger] near[s] < state.0.len() by {
                assert(near.contains(near[s]));
            }
            Self::lemma_discovered(visited, state.0, state.1, near, 0);
            Self::lemma_discover(visited, state.0, state.1, near, 0);
            self.lemma_induced(order);
            let near_again = part.graph.adjacent_to(i as int);
            part.graph.lemma_adjacent_from(i as int, 0);
            assert(first_vertices(j)[i as int] == i);
            assert forall|s: int| 0 <= s < near_again.len() implies 0 <= #[trigger] near_again[s] < k by {
                assert(near_again.contains(near_again[s]));
            }
            assert forall|b: int| (j <= b && #[trigger] comes(near_again, 0, b)) <==> j <= b < hi by {
                if j <= b && comes(near_again, 0, b) {
                    let s = choose|s: int| 0 <= s < near_again.len() && #[trigger] near_again[s] == b;
                    assert(near_again.contains(b));
                    assert(part.graph.has_edge(i as int, b));
                    assert(self.graph.has_edge(order[i as int], order[b]));
                    let u = order[b];
                    assert(near.contains(u));
                    let at = choose|at: int| 0 <= at < near.len() && near[at] == u;
                    assert(next.0[near[at]]);
                    assert(next.0[u] == (visited[u] || next.1.contains(u)));
                    assert(!visited[order[b]]);
                    let again = choose|again: int| 0 <= again < next.1.len() && next.1[again] == u;
                    assert(order[again] == next.1[again]);
                    if again < b {
                        assert(order[again] != order[b]);
                    }
                }
                if j <= b < hi {
                    assert(comes(near, 0, next.1[b]));
                    let s = choose|s: int| 0 <= s < near.len() && #[trigger] near[s] == next.1[b];
                    assert(near.contains(next.1[b]));
                    assert(order[b] == next.1[b]);
                    assert(self.graph.has_edge(order[i as int], order[b]));
                    assert(part.graph.has_edge(i as int, b));
                    assert(near_again.contains(b));
                    let again = choose|again: int|
                        0 <= again < near_again.len() && near_again[again] == b;
                    assert(0 <= again < near_again.len() && near_again[again] == b);
                }
            }
            Self::lemma_discover_range(k, near_again, 0, j as int, hi as int);
            self.lemma_search_again(visited, start, i + 1);
        } else {
            assert(self.component(visited, start) == state);
        }
    }

    /// No component is left where all vertices are marked.
    pub proof fn lemma_all_marked(self, visited: Seq<bool>, v: int)
        requires
            forall|u: int| 0 <= u < visited.len() ==> visited[u],
        ensures
            self.components_from(visited, v) == Seq::<Snort>::empty(),
        decreases self.colors.len() - v,
    {
        if 0 <= v < self.colors.len() && visited.len() == self.colors.len() {
            self.lemma_all_marked(visited, v + 1);
        }
    }

    /// A component of a position is a position with no more vertices that
    /// are not taken, and it falls into no further components.
    pub proof fn lemma_component(self, visited: Seq<bool>, start: int)
        requires
            self.wf(),
            visited.len() == self.colors.len(),
            0 <= start < visited.len(),
            !visited[start],
            self.colors[start] != VertexColor::Taken,
        ensures
            self.induced(self.component(visited, start).1).wf(),
            self.induced(self.component(visited, start).1).rank() <= self.rank(),
            self.induced(self.component(visited, start).1).components() == seq![
                self.induced(self.component(visited, start).1),
            ],
    {
        let order = self.component(visited, start).1;
        let k = order.len();
        let part = self.induced(order);
        self.lemma_search_state(visited, start, 0);
        self.lemma_induced(order);
        // no more vertices that are not taken
        lemma_count_true_picked(self.live(), order);
        assert(part.live() =~= Seq::new(order.len(), |a: int| self.live()[order[a]]));
        // the search in the component
        self.lemma_search_again(visited, start, 0);
        let all_clear = Seq::new(k, |x: int| false);
        assert(all_clear.update(0, true) =~= first_marks(k, 1));
        assert(seq![0int] =~= first_vertices(1));
        assert(part.component(all_clear, 0) == (first_marks(k, k as int), first_vertices(k)));
        assert(part.induced(first_vertices(k)) == part) by {
            let again = part.induced(first_vertices(k));
            assert(again.colors =~= part.colors);
            assert forall|idx: int| 0 <= idx < part.graph.entries.len() implies again.graph.entries[idx]
                == part.graph.entries[idx] by {
                part.graph.lemma_index_split(idx);
            }
            assert(again.graph.entries =~= part.graph.entries);
        }
        part.lemma_all_marked(first_marks(k, k as int), 1);
        assert(part.colors[0] == self.colors[order[0]]);
        assert(part.components() =~= seq![part]);
    }

    /// Every component of a position is the component of one of its vertices.
    pub proof fn lemma_components_from(self, visited: Seq<bool>, v: int, i: int)
        requires
            self.wf(),
            visited.len() == self.colors.len(),
            0 <= v,
            0 <= i < self.components_from(visited, v).len(),
        ensures
            self.components_from(visited, v)[i].wf(),
            self.components_from(visited, v)[i].rank() <= self.rank(),
            self.components_from(visited, v)[i].components() == seq![
                self.components_from(visited, v)[i],
            ],
        decreases self.colors.len() - v,
    {
        if v < self.colors.len() {
            if self.colors[v] != VertexColor::Taken && !visited[v] {
                if i == 0 {
                    self.lemma_component(visited, v);
                } else {
                    self.lemma_search_state(visited, v, 0);
                    let found = self.component(visited, v);
                    assert(self.components_from(visited, v)[i] == self.components_from(
                        found.0,
                        v + 1,
                    )[i - 1]);
                    self.lemma_components_from(found.0, v + 1, i - 1);
                }
            } else {
                self.lemma_components_from(visited, v + 1, i);
            }
        }
    }
}

} // verus!
