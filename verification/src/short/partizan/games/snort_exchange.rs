//! Snort with the colors of the players exchanged: the moves of one player
//! become the moves of the other one, the components stay, and the
//! canonical form becomes its negative.

use crate::short::partizan::existence::lemma_canonical_of_options;
use crate::short::partizan::existence::lemma_neg_value;
use crate::short::partizan::game_form::equal_value;
use crate::short::partizan::game_form::Form;
use crate::short::partizan::game_sum::lemma_congruent;
use crate::short::partizan::game_sum::lemma_equal_value_transitive;
use crate::short::partizan::games::snort::searching;
use crate::short::partizan::games::snort::Position;
use crate::short::partizan::laws::lemma_neg_equal;
use crate::short::partizan::laws::lemma_neg_sum_of;
use crate::short::partizan::partizan_game::component_value;
use crate::short::partizan::partizan_game::component_values;
use crate::short::partizan::partizan_game::lemma_component_value;
use crate::short::partizan::partizan_game::lemma_position_value;
use crate::short::partizan::partizan_game::lemma_values;
use crate::short::partizan::partizan_game::move_values;
use crate::short::partizan::partizan_game::position_value;
use crate::short::partizan::partizan_game::PartizanGame;
use crate::short::partizan::simplest_form::canonical_of;
use crate::short::partizan::simplest_form::lemma_canonical_of;
use crate::short::partizan::simplest_form::neg_value;
use crate::short::partizan::games::snort::Snort;
use crate::short::partizan::games::snort::VertexColor;
use vstd::prelude::*;

verus! {

/// The color with the tints of the players exchanged.
pub open spec fn exchange(color: VertexColor) -> VertexColor {
    match color {
        VertexColor::TintLeft => VertexColor::TintRight,
        VertexColor::TintRight => VertexColor::TintLeft,
        VertexColor::Empty => VertexColor::Empty,
        VertexColor::Taken => VertexColor::Taken,
    }
}

/// Each of the positions with the tints of the players exchanged.
pub open spec fn all_exchanged(positions: Seq<Snort>) -> Seq<Snort> {
    Seq::new(positions.len(), |i: int| positions[i].exchanged())
}

impl Snort {
    /// The position with the tints of the players exchanged.
    pub open spec fn exchanged(self) -> Snort {
        Snort {
            colors: Seq::new(self.colors.len(), |u: int| exchange(self.colors[u])),
            graph: self.graph,
        }
    }

    /// A player may take a vertex where the other one may after the
    /// exchange, and the positions after the two moves differ by the
    /// exchange alone.
    pub proof fn lemma_exchanged_move(self, m: int, tint: VertexColor)
        requires
            self.wf(),
        ensures
            self.exchanged().wf(),
            self.exchanged().legal(m, exchange(tint)) == self.legal(m, tint),
            self.exchanged().after_move(m, exchange(tint)) == self.after_move(m, tint).exchanged(),
    {
        let other = self.exchanged();
        let n = self.graph.size as int;
        let a = other.after_move(m, exchange(tint));
        let b = self.after_move(m, tint).exchanged();
        assert forall|u: int| 0 <= u < self.colors.len() implies a.colors[u] == b.colors[u] by {
            assert(other.colors[u] == exchange(self.colors[u]));
        }
        assert(a.colors =~= b.colors);
        assert forall|k: int| 0 <= k < self.graph.entries.len() implies a.graph.entries[k]
            == b.graph.entries[k] by {
            self.graph.lemma_index_split(k);
            let u = k % n;
            let v = k / n;
            assert(other.colors[u] == exchange(self.colors[u]));
            assert(other.colors[v] == exchange(self.colors[v]));
        }
        assert(a.graph.entries =~= b.graph.entries);
    }

    /// The moves of a player after the exchange are the moves of the other
    /// player before it, exchanged.
    pub proof fn lemma_exchanged_moves_from(self, tint: VertexColor, v: int)
        requires
            self.wf(),
        ensures
            self.exchanged().moves_from(exchange(tint), v) == all_exchanged(self.moves_from(tint, v)),
        decreases self.colors.len() - v,
    {
        let other = self.exchanged();
        if 0 <= v < self.colors.len() {
            self.lemma_exchanged_move(v, tint);
            self.lemma_exchanged_moves_from(tint, v + 1);
        }
        assert(other.moves_from(exchange(tint), v) =~= all_exchanged(self.moves_from(tint, v)));
    }

    /// The moves of Left after the exchange are the moves of Right before
    /// it, exchanged, and the other way round.
    pub proof fn lemma_exchanged_moves(self, left: bool)
        requires
            self.wf(),
        ensures
            self.exchanged().moves(left) == all_exchanged(self.moves(!left)),
    {
        self.lemma_exchanged_moves_from(Self::tint(!left), 0);
    }

    /// The search does not look at the colors.
    pub proof fn lemma_exchanged_search(
        self,
        before: Seq<bool>,
        visited: Seq<bool>,
        found: Seq<int>,
        i: int,
    )
        requires
            searching(before, visited, found),
            0 <= i,
        ensures
            self.exchanged().search(visited, found, i) == self.search(visited, found, i),
        decreases visited.len() - crate::graph::count_true(visited) + found.len() - i,
    {
        let other = self.exchanged();
        self.lemma_search_unfold(before, visited, found, i);
        other.lemma_search_unfold(before, visited, found, i);
        if i < found.len() {
            let adjacent = self.graph.adjacent_to(found[i]);
            Self::lemma_discover(before, visited, found, adjacent, 0);
            let next = Self::discover(visited, found, adjacent, 0);
            crate::graph::lemma_count_true_bound(next.0);
            self.lemma_exchanged_search(before, next.0, next.1, i + 1);
        }
    }

    /// The components after the exchange are the components before it, exchanged.
    pub proof fn lemma_exchanged_components_from(self, visited: Seq<bool>, v: int)
        requires
            self.wf(),
            visited.len() == self.colors.len(),
        ensures
            self.exchanged().components_from(visited, v) == all_exchanged(
                self.components_from(visited, v),
            ),
        decreases self.colors.len() - v,
    {
        let other = self.exchanged();
        if 0 <= v < self.colors.len() {
            assert(other.colors[v] == exchange(self.colors[v]));
            if self.colors[v] != VertexColor::Taken && !visited[v] {
                Self::lemma_search_start(visited, v);
                let marks = visited.update(v, true);
                self.lemma_exchanged_search(visited, marks, seq![v], 0);
                self.lemma_search(visited, marks, seq![v], 0);
                let found = self.component(visited, v);
                assert(other.component(visited, v) == found);
                let order = found.1;
                let a = other.induced(order);
                let b = self.induced(order).exchanged();
                assert forall|k: int| 0 <= k < order.len() implies a.colors[k] == b.colors[k] by {
                    assert(0 <= order[k] < self.colors.len());
                    assert(other.colors[order[k]] == exchange(self.colors[order[k]]));
                }
                assert(a.colors =~= b.colors);
                assert(a == b);
                self.lemma_exchanged_components_from(found.0, v + 1);
            } else {
                self.lemma_exchanged_components_from(visited, v + 1);
            }
        }
        assert(other.components_from(visited, v) =~= all_exchanged(
            self.components_from(visited, v),
        ));
    }

    /// A position falls into the same components after the exchange,
    /// each of them exchanged.
    pub proof fn lemma_exchanged_components(self)
        requires
            self.wf(),
        ensures
            self.exchanged().components() == all_exchanged(self.components()),
    {
        self.lemma_exchanged_components_from(Seq::new(self.colors.len(), |i: int| false), 0);
    }

    /// The canonical forms of the moves of a player after the exchange are
    /// the negatives of those of the moves of the other player before it.
    proof fn lemma_exchanged_move_values(self, left: bool, right: bool)
        requires
            self.wf(),
            right != left,
        ensures
            move_values::<Position>(self.exchanged(), left, self.exchanged().moves(left).len()).len()
                == move_values::<Position>(self, right, self.moves(right).len()).len(),
            forall|i: int|
                0 <= i < move_values::<Position>(self, right, self.moves(right).len()).len() ==> (
                #[trigger] move_values::<Position>(
                    self,
                    right,
                    self.moves(right).len(),
                )[i]).canonical(),
            forall|i: int|
                0 <= i < move_values::<Position>(self, right, self.moves(right).len()).len()
                    ==> #[trigger] move_values::<Position>(
                    self.exchanged(),
                    left,
                    self.exchanged().moves(left).len(),
                )[i] == neg_value(
                    move_values::<Position>(self, right, self.moves(right).len())[i],
                ),
        decreases self.rank(), 0nat,
    {
        let other = self.exchanged();
        self.lemma_exchanged_move(0, VertexColor::Empty);
        self.lemma_exchanged_moves(left);
        assert(right == !left);
        let n = self.moves(right).len();
        lemma_values::<Position>(other, left, n);
        lemma_values::<Position>(self, right, n);
        let a = move_values::<Position>(other, left, n);
        let b = move_values::<Position>(self, right, n);
        assert forall|i: int| 0 <= i < b.len() implies (#[trigger] b[i]).canonical() && a[i]
            == neg_value(b[i]) by {
            let next = self.moves(right)[i];
            Position::lemma_moves(self, right, i);
            assert(other.moves(left)[i] == next.exchanged());
            next.lemma_exchanged_position_value();
            lemma_position_value::<Position>(next);
        }
    }

    /// The canonical form of a component after the exchange is the
    /// negative of its canonical form before it.
    pub proof fn lemma_exchanged_component_value(self)
        requires
            self.wf(),
        ensures
            component_value::<Position>(self.exchanged()) == neg_value(
                component_value::<Position>(self),
            ),
        decreases self.rank(), 1nat,
    {
        let other = self.exchanged();
        self.lemma_exchanged_move(0, VertexColor::Empty);
        self.lemma_exchanged_move_values(true, false);
        self.lemma_exchanged_move_values(false, true);
        let l = move_values::<Position>(self, true, self.moves(true).len());
        let r = move_values::<Position>(self, false, self.moves(false).len());
        let el = move_values::<Position>(other, true, other.moves(true).len());
        let er = move_values::<Position>(other, false, other.moves(false).len());
        let game = Form::Moves(l, r);
        let mirror = Form::Moves(el, er);
        assert forall|i: int| 0 <= i < l.len() implies (#[trigger] l[i]).wf() by {
            l[i].lemma_canonical();
        }
        assert forall|i: int| 0 <= i < r.len() implies (#[trigger] r[i]).wf() by {
            r[i].lemma_canonical();
        }
        assert(game.wf());
        game.lemma_neg_options();
        assert forall|i: int| 0 <= i < el.len() implies (#[trigger] el[i]).wf() && equal_value(
            el[i],
            game.neg().left()[i],
        ) by {
            r[i].lemma_canonical();
            lemma_neg_value(r[i]);
            el[i].lemma_canonical();
        }
        assert forall|i: int| 0 <= i < er.len() implies (#[trigger] er[i]).wf() && equal_value(
            er[i],
            game.neg().right()[i],
        ) by {
            l[i].lemma_canonical();
            lemma_neg_value(l[i]);
            er[i].lemma_canonical();
        }
        assert(mirror.wf());
        lemma_congruent(mirror, game.neg());
        // the canonical form of the game, and its negative
        lemma_canonical_of_options(game);
        let value = canonical_of(game);
        value.lemma_canonical();
        lemma_neg_value(value);
        lemma_neg_equal(value, game);
        let negative = neg_value(value);
        negative.lemma_canonical();
        lemma_equal_value_transitive(negative, value.neg(), game.neg());
        lemma_equal_value_transitive(negative, game.neg(), mirror);
        lemma_canonical_of(mirror, negative);
    }

    /// The canonical form of a position after the exchange of the tints
    /// of the players is the negative of its canonical form before it.
    pub proof fn lemma_exchanged_position_value(self)
        requires
            self.wf(),
        ensures
            position_value::<Position>(self.exchanged()) == neg_value(
                position_value::<Position>(self),
            ),
        decreases self.rank(), 2nat,
    {
        let other = self.exchanged();
        self.lemma_exchanged_move(0, VertexColor::Empty);
        self.lemma_exchanged_components();
        let n = self.components().len();
        lemma_values::<Position>(self, true, n);
        lemma_values::<Position>(other, true, n);
        let values = component_values::<Position>(self, n);
        let negatives = component_values::<Position>(other, n);
        assert forall|i: int| 0 <= i < values.len() implies (#[trigger] values[i]).canonical()
            && negatives[i] == neg_value(values[i]) by {
            let part = self.components()[i];
            Position::lemma_components(self, i);
            assert(other.components()[i] == part.exchanged());
            part.lemma_exchanged_component_value();
            lemma_component_value::<Position>(part);
        }
        lemma_neg_sum_of(values, negatives);
    }
}

} // verus!
