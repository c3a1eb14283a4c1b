//! Games that the canonical form can be computed of: positions with moves
//! for Left and for Right, which may fall into independent components.

use crate::short::partizan::canonical_form::forms;
use crate::short::partizan::canonical_form::CanonicalForm;
use crate::short::partizan::canonical_form::Moves;
use crate::short::partizan::game_form::all_canonical;
use crate::short::partizan::game_form::Form;
use crate::short::partizan::simplest_form::canonical_of;
use crate::short::partizan::simplest_form::sum_of;
use crate::short::partizan::simplest_form::sum_value;
use crate::short::partizan::transposition_table::TranspositionTable;
use crate::short::partizan::existence::lemma_canonical_of_options;
use crate::short::partizan::existence::lemma_sum_of;
use crate::short::partizan::game_sum::lemma_sum_zero_left;
use crate::short::partizan::simplest_form::lemma_canonical_of;
use vstd::prelude::*;

verus! {

/// A short partizan game: what the search for canonical forms needs to
/// know of the rules. Positions are compared by their views.
pub trait PartizanGame: Sized + View {
    /// The position is one of the game.
    spec fn valid(position: Self::V) -> bool;

    /// A bound on the number of moves that can still be made.
    spec fn rank(position: Self::V) -> nat;

    /// The positions that the player can move to.
    spec fn moves(position: Self::V, left: bool) -> Seq<Self::V>;

    /// The independent positions that the position falls into.
    spec fn components(position: Self::V) -> Seq<Self::V>;

    /// The fingerprint of a position: a number by which the position is
    /// looked for in a table.
    spec fn fingerprint_of(position: Self::V) -> u64;

    /// Every move leads to a position of the game with a smaller rank.
    proof fn lemma_moves(position: Self::V, left: bool, i: int)
        requires
            Self::valid(position),
            0 <= i < Self::moves(position, left).len(),
        ensures
            Self::valid(Self::moves(position, left)[i]),
            Self::rank(Self::moves(position, left)[i]) < Self::rank(position),
    ;

    /// Every component is a position of the game, of no larger rank, and
    /// falls into no further components.
    proof fn lemma_components(position: Self::V, i: int)
        requires
            Self::valid(position),
            0 <= i < Self::components(position).len(),
        ensures
            Self::valid(Self::components(position)[i]),
            Self::rank(Self::components(position)[i]) <= Self::rank(position),
            Self::components(Self::components(position)[i]) == seq![Self::components(position)[i]],
    ;

    /// The positions that Left can move to.
    fn left_moves(&self) -> (moves: Vec<Self>)
        requires
            Self::valid(self@),
        ensures
            moves@.map_values(|p: Self| p@) == Self::moves(self@, true),
    ;

    /// The positions that Right can move to.
    fn right_moves(&self) -> (moves: Vec<Self>)
        requires
            Self::valid(self@),
        ensures
            moves@.map_values(|p: Self| p@) == Self::moves(self@, false),
    ;

    /// The independent positions that the position falls into.
    fn decompositions(&self) -> (components: Vec<Self>)
        requires
            Self::valid(self@),
        ensures
            components@.map_values(|p: Self| p@) == Self::components(self@),
    ;

    /// Whether both are the same position.
    fn same(&self, other: &Self) -> (b: bool)
        ensures
            b == (self@ == other@),
    ;

    /// The fingerprint of the position.
    fn fingerprint(&self) -> (h: u64)
        requires
            Self::valid(self@),
        ensures
            h == Self::fingerprint_of(self@),
    ;

    /// A copy of the position.
    fn duplicate(&self) -> (copy: Self)
        ensures
            copy@ == self@,
    ;
}

/// The canonical forms of the first `n` positions that the player can move to.
pub open spec fn move_values<G: PartizanGame>(position: G::V, left: bool, n: nat) -> Seq<Form>
    decreases G::rank(position), 0nat, n,
    when G::valid(position) && n <= G::moves(position, left).len()
    via move_values_decreases::<G>
{
    if n == 0 {
        Seq::empty()
    } else {
        move_values::<G>(position, left, (n - 1) as nat).push(
            position_value::<G>(G::moves(position, left)[n - 1]),
        )
    }
}

/// The canonical form of a position that is one component: the canonical
/// form of the game whose options are the canonical forms of the positions
/// that the players can move to.
pub open spec fn component_value<G: PartizanGame>(component: G::V) -> Form
    decreases G::rank(component), 1nat, 0nat,
    when G::valid(component)
{
    canonical_of(
        Form::Moves(
            move_values::<G>(component, true, G::moves(component, true).len()),
            move_values::<G>(component, false, G::moves(component, false).len()),
        ),
    )
}

/// The canonical forms of the first `n` components of a position.
pub open spec fn component_values<G: PartizanGame>(position: G::V, n: nat) -> Seq<Form>
    decreases G::rank(position), 2nat, n,
    when G::valid(position) && n <= G::components(position).len()
    via component_values_decreases::<G>
{
    if n == 0 {
        Seq::empty()
    } else {
        component_values::<G>(position, (n - 1) as nat).push(
            component_value::<G>(G::components(position)[n - 1]),
        )
    }
}

/// The canonical form of a position: the sum of the canonical forms of its components.
pub open spec fn position_value<G: PartizanGame>(position: G::V) -> Form
    decreases G::rank(position), 3nat, 0nat,
    when G::valid(position)
{
    sum_of(component_values::<G>(position, G::components(position).len()))
}

#[via_fn]
proof fn move_values_decreases<G: PartizanGame>(position: G::V, left: bool, n: nat) {
    if n > 0 {
        G::lemma_moves(position, left, n - 1);
    }
}

#[via_fn]
proof fn component_values_decreases<G: PartizanGame>(position: G::V, n: nat) {
    if n > 0 {
        G::lemma_components(position, n - 1);
    }
}

/// What the canonical forms of the moves and of the components are, one by one.
pub proof fn lemma_values<G: PartizanGame>(position: G::V, left: bool, n: nat)
    requires
        G::valid(position),
    ensures
        n <= G::moves(position, left).len() ==> move_values::<G>(position, left, n).len() == n
            && forall|i: int|
            0 <= i < n ==> #[trigger] move_values::<G>(position, left, n)[i] == position_value::<G>(
                G::moves(position, left)[i],
            ),
        n <= G::components(position).len() ==> component_values::<G>(position, n).len() == n
            && forall|i: int|
            0 <= i < n ==> #[trigger] component_values::<G>(position, n)[i] == component_value::<G>(
                G::components(position)[i],
            ),
    decreases n,
{
    if n > 0 {
        lemma_values::<G>(position, left, (n - 1) as nat);
        if n <= G::moves(position, left).len() {
            G::lemma_moves(position, left, n - 1);
        }
        if n <= G::components(position).len() {
            G::lemma_components(position, n - 1);
        }
    }
}

/// The canonical form of a component, taken as a position of its own, is
/// its canonical form as a component.
pub proof fn lemma_component_alone<G: PartizanGame>(position: G::V, i: int)
    requires
        G::valid(position),
        0 <= i < G::components(position).len(),
        component_value::<G>(G::components(position)[i]).canonical(),
    ensures
        position_value::<G>(G::components(position)[i]) == component_value::<G>(
            G::components(position)[i],
        ),
{
    let c = G::components(position)[i];
    let v = component_value::<G>(c);
    G::lemma_components(position, i);
    G::lemma_components(c, 0);
    lemma_values::<G>(c, true, 1);
    let values = component_values::<G>(c, 1);
    assert(values =~= seq![v]);
    assert(values.drop_last() =~= Seq::<Form>::empty());
    assert(sum_of(values) == sum_value(sum_of(values.drop_last()), values.last()));
    assert(sum_of(values.drop_last()) == Form::zero());
    v.lemma_canonical();
    lemma_sum_zero_left(v);
    lemma_canonical_of(crate::short::partizan::game_sum::form_sum(Form::zero(), v), v);
}

/// The canonical form of a component is a canonical form.
pub proof fn lemma_component_value<G: PartizanGame>(component: G::V)
    requires
        G::valid(component),
    ensures
        component_value::<G>(component).canonical(),
    decreases G::rank(component), 0nat,
{
    let l = move_values::<G>(component, true, G::moves(component, true).len());
    let r = move_values::<G>(component, false, G::moves(component, false).len());
    lemma_values::<G>(component, true, G::moves(component, true).len());
    lemma_values::<G>(component, false, G::moves(component, false).len());
    assert forall|i: int| 0 <= i < l.len() implies (#[trigger] l[i]).canonical() by {
        G::lemma_moves(component, true, i);
        lemma_position_value::<G>(G::moves(component, true)[i]);
    }
    assert forall|i: int| 0 <= i < r.len() implies (#[trigger] r[i]).canonical() by {
        G::lemma_moves(component, false, i);
        lemma_position_value::<G>(G::moves(component, false)[i]);
    }
    let m = Form::Moves(l, r);
    assert(m.wf()) by {
        assert forall|i: int| 0 <= i < l.len() implies (#[trigger] l[i]).wf() by {
            l[i].lemma_canonical();
        }
        assert forall|i: int| 0 <= i < r.len() implies (#[trigger] r[i]).wf() by {
            r[i].lemma_canonical();
        }
    }
    lemma_canonical_of_options(m);
}

/// The canonical form of a position is a canonical form.
pub proof fn lemma_position_value<G: PartizanGame>(position: G::V)
    requires
        G::valid(position),
    ensures
        position_value::<G>(position).canonical(),
    decreases G::rank(position), 1nat,
{
    let n = G::components(position).len();
    let values = component_values::<G>(position, n);
    lemma_values::<G>(position, true, n);
    assert forall|i: int| 0 <= i < values.len() implies (#[trigger] values[i]).canonical() by {
        G::lemma_components(position, i);
        lemma_component_value::<G>(G::components(position)[i]);
    }
    lemma_sum_of(values);
}

/// Decomposition: the canonical form of a position is the sum of the
/// canonical forms of its components, each taken as a position of its own.
pub proof fn lemma_decomposition<G: PartizanGame>(position: G::V)
    requires
        G::valid(position),
    ensures
        position_value::<G>(position) == sum_of(
            Seq::new(
                G::components(position).len(),
                |i: int| position_value::<G>(G::components(position)[i]),
            ),
        ),
{
    let n = G::components(position).len();
    lemma_values::<G>(position, true, n);
    let parts = Seq::new(n, |i: int| position_value::<G>(G::components(position)[i]));
    assert forall|i: int| 0 <= i < n implies component_values::<G>(position, n)[i] == parts[i] by {
        G::lemma_components(position, i);
        lemma_component_value::<G>(G::components(position)[i]);
        lemma_component_alone::<G>(position, i);
    }
    assert(component_values::<G>(position, n) =~= parts);
}

/// Every canonical form in the table is the canonical form of its
/// position; and where the position is a component, its canonical form as
/// a component.
pub open spec fn sound<G: PartizanGame>(table: Map<G::V, Form>) -> bool {
    forall|k: G::V| #[trigger]
        table.contains_key(k) ==> {
            &&& G::valid(k)
            &&& table[k].canonical()
            &&& table[k] == position_value::<G>(k)
            &&& G::components(k) == seq![k] ==> table[k] == component_value::<G>(k)
        }
}

/// The canonical form of each of the positions.
fn values_of<G: PartizanGame>(
    positions: &Vec<G>,
    table: &mut TranspositionTable<G>,
    Ghost(bound): Ghost<nat>,
) -> (values: Vec<CanonicalForm>)
    requires
        forall|i: int|
            0 <= i < positions@.len() ==> G::valid((#[trigger] positions@[i])@) && G::rank(
                positions@[i]@,
            ) < bound,
        old(table).wf(),
        sound::<G>(old(table)@),
    ensures
        final(table).wf(),
        sound::<G>(final(table)@),
        forall|k: G::V| old(table)@.contains_key(k) ==> #[trigger] final(table)@.contains_key(k),
        values@.len() == positions@.len(),
        forall|i: int|
            0 <= i < values@.len() ==> (#[trigger] values@[i])@.canonical() && values@[i]@
                == position_value::<G>(positions@[i]@),
    decreases bound, 0nat,
{
    let mut values: Vec<CanonicalForm> = Vec::new();
    let mut i: usize = 0;
    while i < positions.len()
        invariant
            i <= positions@.len(),
            forall|i: int|
                0 <= i < positions@.len() ==> G::valid((#[trigger] positions@[i])@) && G::rank(
                    positions@[i]@,
                ) < bound,
            table.wf(),
            sound::<G>(table@),
            forall|k: G::V| old(table)@.contains_key(k) ==> #[trigger] table@.contains_key(k),
            values@.len() == i,
            forall|k: int|
                0 <= k < i ==> (#[trigger] values@[k])@.canonical() && values@[k]@
                    == position_value::<G>(positions@[k]@),
        decreases positions@.len() - i,
    {
        let value = canonical_form_of(&positions[i], table);
        values.push(value);
        i += 1;
    }
    values
}

/// The canonical form of a position: it is looked up in the table, or it
/// is the sum of the canonical forms of the components of the position,
/// each of which is looked up, or made from the canonical forms of the
/// positions that the players can move to. What was computed is kept in the table.
pub fn canonical_form_of<G: PartizanGame>(position: &G, table: &mut TranspositionTable<G>) -> (cf:
    CanonicalForm)
    requires
        G::valid(position@),
        old(table).wf(),
        sound::<G>(old(table)@),
    ensures
        final(table).wf(),
        sound::<G>(final(table)@),
        cf@.canonical(),
        cf@ == position_value::<G>(position@),
        final(table)@.contains_key(position@),
        forall|k: G::V| old(table)@.contains_key(k) ==> #[trigger] final(table)@.contains_key(k),
    decreases G::rank(position@), 1nat,
{
    match table.get(position) {
        Some(cf) => {
            return cf;
        },
        None => {},
    }
    let ghost p = position@;
    let mut result = CanonicalForm::zero();
    let components = position.decompositions();
    let ghost wanted = component_values::<G>(p, components@.len() as nat);
    proof {
        assert(components@.map_values(|c: G| c@).len() == components@.len());
        lemma_values::<G>(p, true, components@.len() as nat);
        assert(wanted.take(0) =~= Seq::<Form>::empty());
    }
    let mut j: usize = 0;
    while j < components.len()
        invariant
            j <= components@.len(),
            p == position@,
            G::valid(p),
            components@.map_values(|c: G| c@) == G::components(p),
            wanted == component_values::<G>(p, components@.len() as nat),
            wanted.len() == components@.len(),
            forall|i: int|
                0 <= i < wanted.len() ==> #[trigger] wanted[i] == component_value::<G>(
                    G::components(p)[i],
                ),
            table.wf(),
            sound::<G>(table@),
            forall|k: G::V| old(table)@.contains_key(k) ==> #[trigger] table@.contains_key(k),
            result@.canonical(),
            result@ == sum_of(wanted.take(j as int)),
            j == 0 ==> result@ == Form::zero(),
            j == 1 ==> result@ == wanted[0],
        decreases components@.len() - j,
    {
        let component = &components[j];
        let ghost c = component@;
        proof {
            assert(components@.map_values(|c: G| c@)[j as int] == c);
            assert(G::components(p)[j as int] == c);
            G::lemma_components(p, j as int);
            lemma_values::<G>(c, true, G::moves(c, true).len());
            lemma_values::<G>(c, false, G::moves(c, false).len());
        }
        let sub_result = match table.get(component) {
            Some(canonical_form) => {
canonical_form
            },
            None => {
                let left_moves = component.left_moves();
                let right_moves = component.right_moves();
                proof {
                    assert forall|i: int| 0 <= i < left_moves@.len() implies G::valid(
                        (#[trigger] left_moves@[i])@,
                    ) && G::rank(left_moves@[i]@) < G::rank(c) by {
                        assert(left_moves@.map_values(|p: G| p@)[i] == left_moves@[i]@);
                        G::lemma_moves(c, true, i);
                    }
                    assert forall|i: int| 0 <= i < right_moves@.len() implies G::valid(
                        (#[trigger] right_moves@[i])@,
                    ) && G::rank(right_moves@[i]@) < G::rank(c) by {
                        assert(right_moves@.map_values(|p: G| p@)[i] == right_moves@[i]@);
                        G::lemma_moves(c, false, i);
                    }
                }
                let left = values_of(&left_moves, table, Ghost(G::rank(c)));
                let right = values_of(&right_moves, table, Ghost(G::rank(c)));
                let moves = Moves { left, right };
                proof {
                    let wanted_left = move_values::<G>(c, true, G::moves(c, true).len());
                    let wanted_right = move_values::<G>(c, false, G::moves(c, false).len());
                    assert(left_moves@.map_values(|p: G| p@).len() == left_moves@.len());
                    assert(right_moves@.map_values(|p: G| p@).len() == right_moves@.len());
                    assert forall|i: int| 0 <= i < left_moves@.len() implies forms(moves.left@)[i]
                        == wanted_left[i] by {
                        assert(left_moves@.map_values(|p: G| p@)[i] == left_moves@[i]@);
                    }
                    assert forall|i: int| 0 <= i < right_moves@.len() implies forms(moves.right@)[i]
                        == wanted_right[i] by {
                        assert(right_moves@.map_values(|p: G| p@)[i] == right_moves@[i]@);
                    }
                    assert(forms(moves.left@) =~= wanted_left);
                    assert(forms(moves.right@) =~= wanted_right);
                    assert forall|i: int| 0 <= i < moves.left@.len() implies (#[trigger] forms(
                        moves.left@,
                    )[i]).canonical() by {
                        assert(moves.left@[i]@.canonical());
                    }
                    assert forall|i: int| 0 <= i < moves.right@.len() implies (#[trigger] forms(
                        moves.right@,
                    )[i]).canonical() by {
                        assert(moves.right@[i]@.canonical());
                    }
                }
                let canonical_form = CanonicalForm::from_moves(moves);
                proof {
                    lemma_component_alone::<G>(p, j as int);
                }
                table.insert(component.duplicate(), canonical_form.duplicate());
                canonical_form
            },
        };
        proof {
            let next = wanted.take(j + 1);
            assert(next.drop_last() =~= wanted.take(j as int));
            assert(next.last() == component_value::<G>(c));
        }
        result = CanonicalForm::sum(&result, &sub_result);
        j += 1;
    }
    proof {
        assert(wanted.take(j as int) =~= wanted);
        if G::components(p) == seq![p] {
            assert(wanted[0] == component_value::<G>(G::components(p)[0]));
        }
    }
    table.insert(position.duplicate(), result.duplicate());
    result
}

} // verus!
