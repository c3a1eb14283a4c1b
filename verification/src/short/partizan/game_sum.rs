//! Negation and disjunctive sum on the model of game values.

use crate::numeric::dyadic_rational_number::Dyadic;
use crate::short::partizan::game_form::all_wf;
use crate::short::partizan::game_form::equal_value;
use crate::short::partizan::game_form::lemma_seq_rank;
use crate::short::partizan::game_form::seq_rank;
use crate::short::partizan::game_form::ge;
use crate::short::partizan::game_form::lemma_ge_reflexive;
use crate::short::partizan::game_form::lemma_ge_transitive;
use crate::short::partizan::game_form::nus_forms;
use crate::short::partizan::game_form::Form;
use crate::short::partizan::game_form::NumberUpStar;
use vstd::arithmetic::power2::pow2;
use vstd::prelude::*;

verus! {

/// The negative of each form.
pub open spec fn neg_all(s: Seq<Form>) -> Seq<Form>
    decreases s,
{
    Seq::new(
        s.len(),
        |i: int|
            if 0 <= i < s.len() {
                s[i].neg()
            } else {
                Form::zero()
            },
    )
}

impl Form {
    /// The negative of the game: the players change roles.
    pub open spec fn neg(self) -> Form
        decreases self,
    {
        match self {
            Form::Nus(n) => Form::Nus(n.neg()),
            Form::Moves(l, r) => Form::Moves(neg_all(r), neg_all(l)),
        }
    }

    /// The options of the negative are the negatives of the other player's options.
    pub proof fn lemma_neg_options(self)
        requires
            self.wf(),
        ensures
            self.neg().wf(),
            self.neg().rank() == self.rank(),
            self.neg().left() == neg_all(self.right()),
            self.neg().right() == neg_all(self.left()),
        decreases self.rank(),
    {
        self.lemma_options();
        match self {
            Form::Nus(n) => {
                n.lemma_neg_options();
                assert(self.neg().left() =~= neg_all(self.right()));
                assert(self.neg().right() =~= neg_all(self.left()));
            },
            Form::Moves(l, r) => {
                assert forall|i: int| 0 <= i < l.len() implies (#[trigger] neg_all(l)[i]).wf()
                    && neg_all(l)[i].rank() == l[i].rank() by {
                    assert(l[i] == self.left()[i]);
                    l[i].lemma_neg_options();
                }
                assert forall|i: int| 0 <= i < r.len() implies (#[trigger] neg_all(r)[i]).wf()
                    && neg_all(r)[i].rank() == r[i].rank() by {
                    assert(r[i] == self.right()[i]);
                    r[i].lemma_neg_options();
                }
                lemma_neg_all_rank(l);
                lemma_neg_all_rank(r);
            },
        }
    }
}

/// Negation keeps the rank of a sequence.
pub proof fn lemma_neg_all_rank(s: Seq<Form>)
    requires
        forall|i: int| 0 <= i < s.len() ==> (#[trigger] neg_all(s)[i]).rank() == s[i].rank(),
    ensures
        crate::short::partizan::game_form::seq_rank(neg_all(s))
            == crate::short::partizan::game_form::seq_rank(s),
    decreases s.len(),
{
    if s.len() > 0 {
        assert(neg_all(s).drop_last() =~= neg_all(s.drop_last()));
        assert forall|i: int| 0 <= i < s.drop_last().len() implies (#[trigger] neg_all(
            s.drop_last(),
        )[i]).rank() == s.drop_last()[i].rank() by {
            assert(neg_all(s)[i].rank() == s[i].rank());
        }
        lemma_neg_all_rank(s.drop_last());
        assert(neg_all(s).last() == neg_all(s)[s.len() - 1]);
    }
}

impl NumberUpStar {
    /// The options of the negative are the negatives of the other player's
    /// options, in the same order.
    pub proof fn lemma_neg_options(self)
        requires
            self.wf(),
        ensures
            self.neg().wf(),
            self.neg().rank() == self.rank(),
            self.neg().left().len() == self.right().len(),
            self.neg().right().len() == self.left().len(),
            forall|i: int|
                0 <= i < self.right().len() ==> #[trigger] self.neg().left()[i]
                    == self.right()[i].neg(),
            forall|i: int|
                0 <= i < self.left().len() ==> #[trigger] self.neg().right()[i]
                    == self.left()[i].neg(),
    {
        let x = self.number;
        if self.is_number() && x.exp > 0 {
            let up = Dyadic { num: x.num + 1, exp: x.exp };
            let down = Dyadic { num: x.num - 1, exp: x.exp };
            up.lemma_reduce_neg();
            down.lemma_reduce_neg();
            assert(up.neg() == (Dyadic { num: -x.num - 1, exp: x.exp }));
            assert(down.neg() == (Dyadic { num: -x.num + 1, exp: x.exp }));
            assert((-x.num) % 2 != 0);
        }
    }
}

/// Negation turns the order round.
pub proof fn lemma_neg_ge(a: Form, b: Form)
    requires
        a.wf(),
        b.wf(),
    ensures
        ge(a.neg(), b.neg()) == ge(b, a),
    decreases a.rank() + b.rank(),
{
    a.lemma_options();
    b.lemma_options();
    a.lemma_neg_options();
    b.lemma_neg_options();
    a.neg().lemma_options();
    b.neg().lemma_options();
    let na = a.neg();
    let nb = b.neg();
    assert forall|i: int| 0 <= i < a.left().len() implies ge(nb, #[trigger] na.right()[i]) == ge(
        a.left()[i],
        b,
    ) by {
        lemma_neg_ge(b, a.left()[i]);
    }
    assert forall|j: int| 0 <= j < b.right().len() implies ge(#[trigger] nb.left()[j], na) == ge(
        a,
        b.right()[j],
    ) by {
        lemma_neg_ge(b.right()[j], a);
    }
    if ge(b, a) {
        assert forall|i: int| 0 <= i < na.right().len() implies !ge(nb, #[trigger] na.right()[i]) by {
            assert(!ge(a.left()[i], b));
        }
        assert forall|j: int| 0 <= j < nb.left().len() implies !ge(#[trigger] nb.left()[j], na) by {
            assert(!ge(a, b.right()[j]));
        }
    }
    if ge(na, nb) {
        assert forall|i: int| 0 <= i < b.right().len() implies !ge(a, #[trigger] b.right()[i]) by {
            assert(!ge(nb.left()[i], na));
        }
        assert forall|j: int| 0 <= j < a.left().len() implies !ge(#[trigger] a.left()[j], b) by {
            assert(!ge(nb, na.right()[j]));
        }
    }
}

/// Games whose options have the same values, place by place, have the same value.
pub proof fn lemma_congruent(a: Form, b: Form)
    requires
        a.wf(),
        b.wf(),
        a.left().len() == b.left().len(),
        a.right().len() == b.right().len(),
        forall|i: int| 0 <= i < a.left().len() ==> equal_value(#[trigger] a.left()[i], b.left()[i]),
        forall|i: int| 0 <= i < a.right().len() ==> equal_value(#[trigger] a.right()[i], b.right()[i]),
    ensures
        equal_value(a, b),
{
    a.lemma_options();
    b.lemma_options();
    lemma_ge_reflexive(a);
    lemma_ge_reflexive(b);
    assert forall|i: int| 0 <= i < a.right().len() implies !ge(b, #[trigger] a.right()[i]) by {
        if ge(b, a.right()[i]) {
            lemma_ge_transitive(b, a.right()[i], b.right()[i]);
            assert(!ge(b, b.right()[i]));
        }
    }
    assert forall|j: int| 0 <= j < b.left().len() implies !ge(#[trigger] b.left()[j], a) by {
        if ge(b.left()[j], a) {
            assert(equal_value(a.left()[j], b.left()[j]));
            lemma_ge_transitive(a.left()[j], b.left()[j], a);
            assert(!ge(a.left()[j], a));
        }
    }
    assert forall|i: int| 0 <= i < b.right().len() implies !ge(a, #[trigger] b.right()[i]) by {
        if ge(a, b.right()[i]) {
            assert(equal_value(a.right()[i], b.right()[i]));
            lemma_ge_transitive(a, b.right()[i], a.right()[i]);
            assert(!ge(a, a.right()[i]));
        }
    }
    assert forall|j: int| 0 <= j < a.left().len() implies !ge(#[trigger] a.left()[j], b) by {
        if ge(a.left()[j], b) {
            lemma_ge_transitive(b.left()[j], a.left()[j], b);
            assert(!ge(b.left()[j], b));
        }
    }
}

/// Having the same value is transitive.
pub proof fn lemma_equal_value_transitive(a: Form, b: Form, c: Form)
    requires
        a.wf(),
        b.wf(),
        c.wf(),
        equal_value(a, b),
        equal_value(b, c),
    ensures
        equal_value(a, c),
{
    lemma_ge_transitive(a, b, c);
    lemma_ge_transitive(c, b, a);
}

/// Whether the sum of two forms is taken part by part: both are
/// number-up-stars and the sum of their parts is well-formed.
pub open spec fn adds_by_parts(g: Form, h: Form) -> bool {
    match (g, h) {
        (Form::Nus(a), Form::Nus(b)) => a.add(b).storable(),
        _ => false,
    }
}

/// The disjunctive sum of two games: a move in the sum is a move in one of
/// them, so the options are the sums `g' + h` for each option `g'` of `g`,
/// followed by the sums `g + h'` for each option `h'` of `h`. Where both
/// are number-up-stars whose parts add up to a well-formed one, the sum is
/// that number-up-star.
pub open spec fn form_sum(g: Form, h: Form) -> Form
    decreases g.rank() + h.rank(),
    when g.wf() && h.wf()
    via form_sum_decreases
{
    if adds_by_parts(g, h) {
        Form::Nus(parts_sum(g, h))
    } else {
        Form::Moves(
            Seq::new(
                g.left().len() + h.left().len(),
                |i: int|
                    if 0 <= i < g.left().len() {
                        form_sum(g.left()[i], h)
                    } else if g.left().len() <= i < g.left().len() + h.left().len() {
                        form_sum(g, h.left()[i - g.left().len()])
                    } else {
                        Form::zero()
                    },
            ),
            Seq::new(
                g.right().len() + h.right().len(),
                |i: int|
                    if 0 <= i < g.right().len() {
                        form_sum(g.right()[i], h)
                    } else if g.right().len() <= i < g.right().len() + h.right().len() {
                        form_sum(g, h.right()[i - g.right().len()])
                    } else {
                        Form::zero()
                    },
            ),
        )
    }
}

/// The sum of the parts of two number-up-stars.
pub open spec fn parts_sum(g: Form, h: Form) -> NumberUpStar {
    match (g, h) {
        (Form::Nus(a), Form::Nus(b)) => a.add(b),
        _ => NumberUpStar::zero(),
    }
}

#[via_fn]
proof fn form_sum_decreases(g: Form, h: Form) {
    g.lemma_options();
    h.lemma_options();
}

/// The options of a sum that is not taken part by part.
pub proof fn lemma_sum_options(g: Form, h: Form)
    requires
        g.wf(),
        h.wf(),
    ensures
        form_sum(g, h).wf(),
        !adds_by_parts(g, h) ==> {
            let s = form_sum(g, h);
            &&& s is Moves
            &&& s.left().len() == g.left().len() + h.left().len()
            &&& s.right().len() == g.right().len() + h.right().len()
            &&& (forall|i: int|
                0 <= i < g.left().len() ==> #[trigger] s.left()[i] == form_sum(g.left()[i], h))
            &&& (forall|i: int|
                0 <= i < h.left().len() ==> #[trigger] s.left()[g.left().len() + i] == form_sum(
                    g,
                    h.left()[i],
                ))
            &&& (forall|i: int|
                0 <= i < g.right().len() ==> #[trigger] s.right()[i] == form_sum(g.right()[i], h))
            &&& (forall|i: int|
                0 <= i < h.right().len() ==> #[trigger] s.right()[g.right().len() + i]
                    == form_sum(g, h.right()[i]))
        },
    decreases g.rank() + h.rank(),
{
    g.lemma_options();
    h.lemma_options();
    let s = form_sum(g, h);
    if !adds_by_parts(g, h) {
        assert forall|i: int| 0 <= i < s.left().len() implies (#[trigger] s.left()[i]).wf() by {
            if i < g.left().len() {
                lemma_sum_options(g.left()[i], h);
            } else {
                lemma_sum_options(g, h.left()[i - g.left().len()]);
            }
        }
        assert forall|i: int| 0 <= i < s.right().len() implies (#[trigger] s.right()[i]).wf() by {
            if i < g.right().len() {
                lemma_sum_options(g.right()[i], h);
            } else {
                lemma_sum_options(g, h.right()[i - g.right().len()]);
            }
        }
    }
}

/// Zero plus a game has the value of the game.
pub proof fn lemma_sum_zero_left(x: Form)
    requires
        x.wf(),
    ensures
        form_sum(Form::zero(), x).wf(),
        equal_value(form_sum(Form::zero(), x), x),
    decreases x.rank(),
{
    let zero = Form::zero();
    let s = form_sum(zero, x);
    x.lemma_options();
    zero.lemma_options();
    lemma_sum_options(zero, x);
    lemma_ge_reflexive(x);
    if adds_by_parts(zero, x) {
        if let Form::Nus(a) = x {
            a.lemma_add_zero();
        }
    } else {
        if let Form::Nus(a) = x {
            a.lemma_add_zero();
        }
        assert(zero.left().len() == 0 && zero.right().len() == 0);
        assert forall|i: int| 0 <= i < s.left().len() implies equal_value(
            #[trigger] s.left()[i],
            x.left()[i],
        ) by {
            assert(s.left()[0 + i] == form_sum(zero, x.left()[i]));
            lemma_sum_zero_left(x.left()[i]);
        }
        assert forall|i: int| 0 <= i < s.right().len() implies equal_value(
            #[trigger] s.right()[i],
            x.right()[i],
        ) by {
            assert(s.right()[0 + i] == form_sum(zero, x.right()[i]));
            lemma_sum_zero_left(x.right()[i]);
        }
        lemma_congruent(s, x);
    }
}

/// A game plus zero has the value of the game.
pub proof fn lemma_sum_zero_right(x: Form)
    requires
        x.wf(),
    ensures
        form_sum(x, Form::zero()).wf(),
        equal_value(form_sum(x, Form::zero()), x),
    decreases x.rank(),
{
    let zero = Form::zero();
    let s = form_sum(x, zero);
    x.lemma_options();
    zero.lemma_options();
    lemma_sum_options(x, zero);
    lemma_ge_reflexive(x);
    if adds_by_parts(x, zero) {
        if let Form::Nus(a) = x {
            a.lemma_add_zero();
        }
    } else {
        if let Form::Nus(a) = x {
            a.lemma_add_zero();
        }
        assert(zero.left().len() == 0 && zero.right().len() == 0);
        assert forall|i: int| 0 <= i < s.left().len() implies equal_value(
            #[trigger] s.left()[i],
            x.left()[i],
        ) by {
            assert(s.left()[i] == form_sum(x.left()[i], zero));
            lemma_sum_zero_right(x.left()[i]);
        }
        assert forall|i: int| 0 <= i < s.right().len() implies equal_value(
            #[trigger] s.right()[i],
            x.right()[i],
        ) by {
            assert(s.right()[i] == form_sum(x.right()[i], zero));
            lemma_sum_zero_right(x.right()[i]);
        }
        lemma_congruent(s, x);
    }
}

impl NumberUpStar {
    /// Adding zero changes nothing.
    pub proof fn lemma_add_zero(self)
        requires
            self.wf(),
        ensures
            self.add(NumberUpStar::zero()) == self,
            NumberUpStar::zero().add(self) == self,
    {
        let k = self.star;
        assert(k ^ 0 == k && 0 ^ k == k) by (bit_vector);
        assert(pow2(0) == 1) by {
            vstd::arithmetic::power2::lemma2_to64();
        }
        self.number.lemma_reduce();
        let e = self.number.exp;
        assert(self.number.scaled(e) == self.number.num);
        assert(Dyadic::from_int(0).scaled(e) == 0) by {
            assert(0 * pow2(e) == 0);
        }
    }
}

} // verus!
