//! Laws of the algebra of canonical forms.

use crate::short::partizan::game_form::all_canonical;
use crate::short::partizan::game_form::better;
use crate::short::partizan::game_form::equal_value;
use crate::short::partizan::game_form::ge;
use crate::short::partizan::game_form::lemma_better_transitive;
use crate::short::partizan::game_form::lemma_better_unfold;
use crate::short::partizan::game_form::lemma_ge_reflexive;
use crate::short::partizan::game_form::lemma_ge_transitive;
use crate::short::partizan::game_form::lemma_side_options;
use crate::short::partizan::game_form::no_dominated;
use crate::short::partizan::game_form::no_reversible;
use crate::short::partizan::game_form::not_reversible;
use crate::short::partizan::game_form::opp;
use crate::short::partizan::game_form::own;
use crate::short::partizan::game_form::Form;
use crate::short::partizan::game_form::NumberUpStar;
use crate::short::partizan::game_sum::adds_by_parts;
use crate::short::partizan::game_sum::form_sum;
use crate::short::partizan::game_sum::lemma_equal_value_transitive;
use crate::short::partizan::game_sum::lemma_neg_ge;
use crate::short::partizan::game_sum::lemma_sum_options;
use crate::short::partizan::game_sum::lemma_sum_zero_left;
use crate::short::partizan::game_sum::lemma_sum_zero_right;
use crate::short::partizan::game_sum::neg_all;
use crate::short::partizan::game_form::expands;
use crate::short::partizan::existence::lemma_neg_value;
use crate::short::partizan::existence::lemma_sum_value;
use crate::short::partizan::sum_theorem::lemma_sum_is_plain;
use crate::short::partizan::plain_sum::lemma_plain_associates;
use crate::short::partizan::plain_sum::lemma_plain_congruent;
use crate::short::partizan::plain_sum::lemma_plain_options;
use crate::short::partizan::plain_sum::plain_sum;
use crate::short::partizan::game_sum::lemma_congruent;
use crate::short::partizan::simplest_form::canonical_of;
use crate::short::partizan::simplest_form::neg_value;
use crate::short::partizan::simplest_form::sum_of;
use crate::short::partizan::simplest_form::sum_value;
use crate::short::partizan::existence::lemma_sum_of;
use crate::short::partizan::simplest_form::lemma_canonical_of;
use crate::short::partizan::simplest_form::lemma_canonical_simplest;
use crate::short::partizan::simplest_form::lemma_canonical_unique;
use vstd::prelude::*;

verus! {

/// `s` is the sum `g + h`: the canonical form with the value of the sum.
pub open spec fn is_sum(s: Form, g: Form, h: Form) -> bool {
    s.canonical() && equal_value(s, form_sum(g, h))
}

/// `n` is the negative `-g`: the canonical form with the value of the negative.
pub open spec fn is_negative(n: Form, g: Form) -> bool {
    n.canonical() && equal_value(n, g.neg())
}

/// Order and identity: canonical forms are the same form if and only if
/// each is at least the other one.
pub proof fn lemma_order_identity(g: Form, h: Form)
    requires
        g.canonical(),
        h.canonical(),
    ensures
        (ge(g, h) && ge(h, g)) <==> g == h,
{
    g.lemma_canonical();
    lemma_ge_reflexive(g);
    if ge(g, h) && ge(h, g) {
        lemma_canonical_unique(g, h);
    }
}

/// Zero is neutral: `G + 0 = G` and `0 + G = G`.
pub proof fn lemma_sum_zero(g: Form, s: Form, t: Form)
    requires
        g.canonical(),
        is_sum(s, g, Form::zero()),
        is_sum(t, Form::zero(), g),
    ensures
        s == g,
        t == g,
{
    g.lemma_canonical();
    s.lemma_canonical();
    t.lemma_canonical();
    lemma_sum_zero_right(g);
    lemma_sum_zero_left(g);
    lemma_equal_value_transitive(s, form_sum(g, Form::zero()), g);
    lemma_equal_value_transitive(t, form_sum(Form::zero(), g), g);
    lemma_canonical_unique(s, g);
    lemma_canonical_unique(t, g);
}

/// The negative of the negative of a form is the form.
pub proof fn lemma_neg_neg(f: Form)
    requires
        f.wf(),
    ensures
        f.neg().neg() == f,
    decreases f.rank(),
{
    f.lemma_options();
    f.lemma_neg_options();
    match f {
        Form::Nus(n) => {},
        Form::Moves(l, r) => {
            assert forall|i: int| 0 <= i < l.len() implies neg_all(neg_all(l))[i] == l[i] by {
                assert(l[i] == f.left()[i]);
                lemma_neg_neg(l[i]);
            }
            assert forall|i: int| 0 <= i < r.len() implies neg_all(neg_all(r))[i] == r[i] by {
                assert(r[i] == f.right()[i]);
                lemma_neg_neg(r[i]);
            }
            assert(neg_all(neg_all(l)) =~= l);
            assert(neg_all(neg_all(r)) =~= r);
        },
    }
}

/// Forms of the same value have negatives of the same value.
pub proof fn lemma_neg_equal(a: Form, b: Form)
    requires
        a.wf(),
        b.wf(),
        equal_value(a, b),
    ensures
        a.neg().wf(),
        b.neg().wf(),
        equal_value(a.neg(), b.neg()),
{
    a.lemma_neg_options();
    b.lemma_neg_options();
    lemma_neg_ge(a, b);
    lemma_neg_ge(b, a);
}

/// Negation is an involution: `-(-G) = G`.
pub proof fn lemma_neg_involution(g: Form, n: Form, m: Form)
    requires
        g.canonical(),
        is_negative(n, g),
        is_negative(m, n),
    ensures
        m == g,
{
    g.lemma_canonical();
    n.lemma_canonical();
    m.lemma_canonical();
    g.lemma_neg_options();
    lemma_neg_equal(n, g.neg());
    lemma_neg_neg(g);
    lemma_equal_value_transitive(m, n.neg(), g);
    lemma_canonical_unique(m, g);
}

/// Of two forms of the same value without reversible options, every
/// option of the player in the one, none of which is dominated, has the
/// value of an option of the player in the other one.
pub proof fn lemma_options_match(g: Form, h: Form, left: bool, i: int)
    requires
        g.wf(),
        h.wf(),
        equal_value(g, h),
        no_reversible(g, left),
        no_reversible(h, left),
        no_dominated(own(g, left), left),
        0 <= i < own(g, left).len(),
    ensures
        exists|j: int| 0 <= j < own(h, left).len() && equal_value(own(g, left)[i], #[trigger] own(h, left)[j]),
{
    lemma_side_options(g, left);
    lemma_side_options(h, left);
    let o = own(g, left)[i];
    assert(better(h, g, left) && better(g, h, left));
    lemma_better_unfold(h, g, left);
    assert(!better(o, h, left));
    lemma_better_unfold(o, h, left);
    lemma_side_options(o, left);
    if exists|k: int| 0 <= k < opp(o, left).len() && better(h, #[trigger] opp(o, left)[k], left) {
        let k = choose|k: int|
            0 <= k < opp(o, left).len() && better(h, #[trigger] opp(o, left)[k], left);
        lemma_better_transitive(g, h, opp(o, left)[k], left);
        assert(not_reversible(own(g, left)[i], g, left));
        assert(false);
    }
    let j = choose|j: int| 0 <= j < own(h, left).len() && better(#[trigger] own(h, left)[j], o, left);
    let p = own(h, left)[j];
    lemma_better_unfold(g, h, left);
    assert(!better(p, g, left));
    lemma_better_unfold(p, g, left);
    lemma_side_options(p, left);
    if exists|k: int| 0 <= k < opp(p, left).len() && better(g, #[trigger] opp(p, left)[k], left) {
        let k = choose|k: int|
            0 <= k < opp(p, left).len() && better(g, #[trigger] opp(p, left)[k], left);
        lemma_better_transitive(h, g, opp(p, left)[k], left);
        assert(not_reversible(own(h, left)[j], h, left));
        assert(false);
    }
    let i2 = choose|i2: int|
        0 <= i2 < own(g, left).len() && better(#[trigger] own(g, left)[i2], p, left);
    lemma_better_transitive(own(g, left)[i2], p, o, left);
    if i2 != i {
        assert(!better(own(g, left)[i2], own(g, left)[i], left));
        assert(false);
    }
    assert(equal_value(o, p));
}

/// The negative of a canonical form has no dominated and no reversible options.
pub proof fn lemma_neg_simplest(g: Form)
    requires
        g.canonical(),
    ensures
        g.neg().wf(),
        no_dominated(g.neg().left(), true),
        no_dominated(g.neg().right(), false),
        no_reversible(g.neg(), true),
        no_reversible(g.neg(), false),
{
    lemma_canonical_simplest(g);
    g.lemma_options();
    g.lemma_neg_options();
    let n = g.neg();
    n.lemma_options();
    assert forall|a: int, b: int|
        0 <= a < n.left().len() && 0 <= b < n.left().len() && a != b implies !better(
        #[trigger] n.left()[a],
        #[trigger] n.left()[b],
        true,
    ) by {
        lemma_neg_ge(g.right()[a], g.right()[b]);
        assert(!better(g.right()[a], g.right()[b], false));
    }
    assert forall|a: int, b: int|
        0 <= a < n.right().len() && 0 <= b < n.right().len() && a != b implies !better(
        #[trigger] n.right()[a],
        #[trigger] n.right()[b],
        false,
    ) by {
        lemma_neg_ge(g.left()[b], g.left()[a]);
        assert(!better(g.left()[a], g.left()[b], true));
    }
    assert forall|j: int| 0 <= j < own(n, true).len() implies not_reversible(
        #[trigger] own(n, true)[j],
        n,
        true,
    ) by {
        let o = g.right()[j];
        assert(own(g, false)[j] == o);
        assert(not_reversible(own(g, false)[j], g, false));
        o.lemma_options();
        o.lemma_neg_options();
        assert forall|i: int| 0 <= i < opp(o.neg(), true).len() implies !better(
            n,
            #[trigger] opp(o.neg(), true)[i],
            true,
        ) by {
            let x = o.left()[i];
            assert(opp(o, false)[i] == x);
            assert(!better(g, opp(o, false)[i], false));
            lemma_neg_ge(g, x);
        }
    }
    assert forall|j: int| 0 <= j < own(n, false).len() implies not_reversible(
        #[trigger] own(n, false)[j],
        n,
        false,
    ) by {
        let o = g.left()[j];
        assert(own(g, true)[j] == o);
        assert(not_reversible(own(g, true)[j], g, true));
        o.lemma_options();
        o.lemma_neg_options();
        assert forall|i: int| 0 <= i < opp(o.neg(), false).len() implies !better(
            n,
            #[trigger] opp(o.neg(), false)[i],
            false,
        ) by {
            let x = o.right()[i];
            assert(opp(o, true)[i] == x);
            assert(!better(g, opp(o, true)[i], true));
            lemma_neg_ge(x, g);
        }
    }
}

/// The negative of a game given by its options is given by its options.
pub proof fn lemma_negative_shape(g: Form, n: Form)
    requires
        g.canonical(),
        is_negative(n, g),
    ensures
        g is Nus ==> n == g.neg(),
        g is Moves ==> n is Moves,
{
    g.lemma_canonical();
    n.lemma_canonical();
    g.lemma_neg_options();
    match g {
        Form::Nus(a) => {
            lemma_canonical_unique(n, g.neg());
        },
        Form::Moves(_, _) => {
            if let Form::Nus(b) = n {
                b.lemma_neg_options();
                lemma_neg_equal(n, g.neg());
                lemma_neg_neg(g);
                lemma_canonical_unique(n.neg(), g);
            }
        },
    }
}

impl NumberUpStar {
    /// A number-up-star and its negative add up to zero.
    pub proof fn lemma_add_neg(self)
        requires
            self.wf(),
        ensures
            self.add(self.neg()) == NumberUpStar::zero(),
    {
        let k = self.star;
        assert(k ^ k == 0) by (bit_vector);
        let x = self.number;
        let e = x.common_exp(x.neg());
        let p = vstd::arithmetic::power2::pow2((e - x.exp) as nat);
        assert(x.num * p + (-x.num) * p == 0) by (nonlinear_arith);
        crate::numeric::dyadic_rational_number::Dyadic::lemma_reduce_zero(e);
    }
}

/// A form and its negative add up to the value of zero.
pub proof fn lemma_sum_negative_value(g: Form, n: Form)
    requires
        g.canonical(),
        is_negative(n, g),
    ensures
        form_sum(g, n).wf(),
        equal_value(form_sum(g, n), Form::zero()),
    decreases g.rank(),
{
    let zero = Form::zero();
    let s = form_sum(g, n);
    g.lemma_canonical();
    n.lemma_canonical();
    g.lemma_options();
    n.lemma_options();
    zero.lemma_options();
    lemma_sum_options(g, n);
    lemma_negative_shape(g, n);
    lemma_ge_reflexive(zero);
    match g {
        Form::Nus(a) => {
            a.lemma_neg_options();
            a.lemma_add_neg();
        },
        Form::Moves(_, _) => {
            let m = g.neg();
            g.lemma_neg_options();
            lemma_neg_simplest(g);
            lemma_canonical_simplest(n);
            lemma_canonical_simplest(g);
            assert(equal_value(m, n));
            assert(zero.left().len() == 0 && zero.right().len() == 0);
            // no Right option of the sum is at most zero
            assert forall|k: int| 0 <= k < s.right().len() implies !ge(zero, #[trigger] s.right()[k]) by {
                let sr = s.right()[k];
                if k < g.right().len() {
                    let gr = g.right()[k];
                    assert(sr == form_sum(gr, n));
                    assert(own(m, true)[k] == gr.neg());
                    lemma_options_match(m, n, true, k);
                    let j = choose|j: int|
                        0 <= j < own(n, true).len() && equal_value(
                            own(m, true)[k],
                            #[trigger] own(n, true)[j],
                        );
                    let nl = n.left()[j];
                    assert(own(n, true)[j] == nl);
                    lemma_sum_negative_value(gr, nl);
                    lemma_sum_options(gr, n);
                    assert(sr.left()[gr.left().len() + j] == form_sum(gr, nl));
                    assert(ge(sr.left()[gr.left().len() + j], zero));
                } else {
                    let j = k - g.right().len();
                    let nr = n.right()[j];
                    assert(s.right()[g.right().len() + j] == form_sum(g, nr));
                    assert(own(n, false)[j] == nr);
                    lemma_options_match(n, m, false, j);
                    let i = choose|i: int|
                        0 <= i < own(m, false).len() && equal_value(
                            own(n, false)[j],
                            #[trigger] own(m, false)[i],
                        );
                    let gl = g.left()[i];
                    assert(own(m, false)[i] == gl.neg());
                    lemma_sum_negative_value(gl, nr);
                    lemma_sum_options(g, nr);
                    assert(sr.left()[i] == form_sum(gl, nr));
                    assert(ge(sr.left()[i], zero));
                }
            }
            // no Left option of the sum is at least zero
            assert forall|k: int| 0 <= k < s.left().len() implies !ge(#[trigger] s.left()[k], zero) by {
                let sl = s.left()[k];
                if k < g.left().len() {
                    let gl = g.left()[k];
                    assert(sl == form_sum(gl, n));
                    assert(own(m, false)[k] == gl.neg());
                    lemma_options_match(m, n, false, k);
                    let j = choose|j: int|
                        0 <= j < own(n, false).len() && equal_value(
                            own(m, false)[k],
                            #[trigger] own(n, false)[j],
                        );
                    let nr = n.right()[j];
                    assert(own(n, false)[j] == nr);
                    lemma_sum_negative_value(gl, nr);
                    lemma_sum_options(gl, n);
                    assert(sl.right()[gl.right().len() + j] == form_sum(gl, nr));
                    assert(ge(zero, sl.right()[gl.right().len() + j]));
                } else {
                    let j = k - g.left().len();
                    let nl = n.left()[j];
                    assert(s.left()[g.left().len() + j] == form_sum(g, nl));
                    assert(own(n, true)[j] == nl);
                    lemma_options_match(n, m, true, j);
                    let i = choose|i: int|
                        0 <= i < own(m, true).len() && equal_value(
                            own(n, true)[j],
                            #[trigger] own(m, true)[i],
                        );
                    let gr = g.right()[i];
                    assert(own(m, true)[i] == gr.neg());
                    lemma_sum_negative_value(gr, nl);
                    lemma_sum_options(g, nl);
                    assert(sl.right()[i] == form_sum(gr, nl));
                    assert(ge(zero, sl.right()[i]));
                }
            }
        },
    }
}

/// Each form of `s` has the value of one of `t`.
pub open spec fn matched(s: Seq<Form>, t: Seq<Form>) -> bool {
    forall|i: int| 0 <= i < s.len() ==> has_equal(t, #[trigger] s[i])
}

/// One of `t` has the value of `x`.
pub open spec fn has_equal(t: Seq<Form>, x: Form) -> bool {
    exists|j: int| 0 <= j < t.len() && equal_value(x, #[trigger] t[j])
}

/// Games whose options have the same values, whatever their order, have the same value.
pub proof fn lemma_matching(a: Form, b: Form)
    requires
        a.wf(),
        b.wf(),
        matched(a.left(), b.left()),
        matched(b.left(), a.left()),
        matched(a.right(), b.right()),
        matched(b.right(), a.right()),
    ensures
        equal_value(a, b),
{
    a.lemma_options();
    b.lemma_options();
    lemma_ge_reflexive(a);
    lemma_ge_reflexive(b);
    assert forall|i: int| 0 <= i < a.right().len() implies !ge(b, #[trigger] a.right()[i]) by {
        assert(has_equal(b.right(), a.right()[i]));
        let j = choose|j: int|
            0 <= j < b.right().len() && equal_value(a.right()[i], #[trigger] b.right()[j]);
        if ge(b, a.right()[i]) {
            lemma_ge_transitive(b, a.right()[i], b.right()[j]);
            assert(!ge(b, b.right()[j]));
        }
    }
    assert forall|j: int| 0 <= j < b.left().len() implies !ge(#[trigger] b.left()[j], a) by {
        assert(has_equal(a.left(), b.left()[j]));
        let i = choose|i: int|
            0 <= i < a.left().len() && equal_value(b.left()[j], #[trigger] a.left()[i]);
        if ge(b.left()[j], a) {
            lemma_ge_transitive(a.left()[i], b.left()[j], a);
            assert(!ge(a.left()[i], a));
        }
    }
    assert forall|i: int| 0 <= i < b.right().len() implies !ge(a, #[trigger] b.right()[i]) by {
        assert(has_equal(a.right(), b.right()[i]));
        let j = choose|j: int|
            0 <= j < a.right().len() && equal_value(b.right()[i], #[trigger] a.right()[j]);
        if ge(a, b.right()[i]) {
            lemma_ge_transitive(a, b.right()[i], a.right()[j]);
            assert(!ge(a, a.right()[j]));
        }
    }
    assert forall|j: int| 0 <= j < a.left().len() implies !ge(#[trigger] a.left()[j], b) by {
        assert(has_equal(b.left(), a.left()[j]));
        let i = choose|i: int|
            0 <= i < b.left().len() && equal_value(a.left()[j], #[trigger] b.left()[i]);
        if ge(a.left()[j], b) {
            lemma_ge_transitive(b.left()[i], a.left()[j], b);
            assert(!ge(b.left()[i], b));
        }
    }
}

impl NumberUpStar {
    /// Addition of number-up-stars is commutative and associative, and the
    /// negative of a sum is the sum of the negatives.
    pub proof fn lemma_add_laws(self, b: NumberUpStar, c: NumberUpStar)
        ensures
            self.add(b) == b.add(self),
            self.add(b).add(c) == self.add(b.add(c)),
            self.neg().add(b.neg()) == self.add(b).neg(),
    {
        self.number.lemma_add_laws(b.number, c.number);
        self.number.lemma_add_neg(b.number);
        let x = self.star;
        let y = b.star;
        let z = c.star;
        assert(x ^ y == y ^ x && (x ^ y) ^ z == x ^ (y ^ z)) by (bit_vector);
    }
}

/// The sum does not depend on the order of the games, in value.
pub proof fn lemma_sum_commutes_value(g: Form, h: Form)
    requires
        g.wf(),
        h.wf(),
    ensures
        form_sum(g, h).wf(),
        form_sum(h, g).wf(),
        equal_value(form_sum(g, h), form_sum(h, g)),
    decreases g.rank() + h.rank(),
{
    let s = form_sum(g, h);
    let t = form_sum(h, g);
    g.lemma_options();
    h.lemma_options();
    lemma_sum_options(g, h);
    lemma_sum_options(h, g);
    lemma_ge_reflexive(s);
    if let Form::Nus(a) = g {
        if let Form::Nus(b) = h {
            a.lemma_add_laws(b, b);
        }
    }
    if !adds_by_parts(g, h) {
        assert forall|i: int| 0 <= i < s.left().len() implies has_equal(
            t.left(),
            #[trigger] s.left()[i],
        ) by {
            if i < g.left().len() {
                lemma_sum_commutes_value(g.left()[i], h);
                assert(s.left()[i] == form_sum(g.left()[i], h));
                assert(t.left()[h.left().len() + i] == form_sum(h, g.left()[i]));
            } else {
                let j = i - g.left().len();
                lemma_sum_commutes_value(g, h.left()[j]);
                assert(s.left()[g.left().len() + j] == form_sum(g, h.left()[j]));
                assert(t.left()[j] == form_sum(h.left()[j], g));
            }
        }
        assert forall|i: int| 0 <= i < t.left().len() implies has_equal(
            s.left(),
            #[trigger] t.left()[i],
        ) by {
            if i < h.left().len() {
                lemma_sum_commutes_value(g, h.left()[i]);
                assert(t.left()[i] == form_sum(h.left()[i], g));
                assert(s.left()[g.left().len() + i] == form_sum(g, h.left()[i]));
            } else {
                let j = i - h.left().len();
                lemma_sum_commutes_value(g.left()[j], h);
                assert(t.left()[h.left().len() + j] == form_sum(h, g.left()[j]));
                assert(s.left()[j] == form_sum(g.left()[j], h));
            }
        }
        assert forall|i: int| 0 <= i < s.right().len() implies has_equal(
            t.right(),
            #[trigger] s.right()[i],
        ) by {
            if i < g.right().len() {
                lemma_sum_commutes_value(g.right()[i], h);
                assert(s.right()[i] == form_sum(g.right()[i], h));
                assert(t.right()[h.right().len() + i] == form_sum(h, g.right()[i]));
            } else {
                let j = i - g.right().len();
                lemma_sum_commutes_value(g, h.right()[j]);
                assert(s.right()[g.right().len() + j] == form_sum(g, h.right()[j]));
                assert(t.right()[j] == form_sum(h.right()[j], g));
            }
        }
        assert forall|i: int| 0 <= i < t.right().len() implies has_equal(
            s.right(),
            #[trigger] t.right()[i],
        ) by {
            if i < h.right().len() {
                lemma_sum_commutes_value(g, h.right()[i]);
                assert(t.right()[i] == form_sum(h.right()[i], g));
                assert(s.right()[g.right().len() + i] == form_sum(g, h.right()[i]));
            } else {
                let j = i - h.right().len();
                lemma_sum_commutes_value(g.right()[j], h);
                assert(t.right()[h.right().len() + j] == form_sum(h, g.right()[j]));
                assert(s.right()[j] == form_sum(g.right()[j], h));
            }
        }
        lemma_matching(s, t);
    }
}

/// The sum is commutative: `G + H = H + G`.
pub proof fn lemma_sum_commutative(g: Form, h: Form, s: Form, t: Form)
    requires
        g.canonical(),
        h.canonical(),
        is_sum(s, g, h),
        is_sum(t, h, g),
    ensures
        s == t,
{
    g.lemma_canonical();
    h.lemma_canonical();
    s.lemma_canonical();
    t.lemma_canonical();
    lemma_sum_commutes_value(g, h);
    lemma_equal_value_transitive(s, form_sum(g, h), form_sum(h, g));
    lemma_equal_value_transitive(s, form_sum(h, g), t);
    lemma_canonical_unique(s, t);
}

/// The options of one player in a sum that is not taken part by part.
pub proof fn lemma_sum_side(g: Form, h: Form, left: bool)
    requires
        g.wf(),
        h.wf(),
        !adds_by_parts(g, h),
    ensures
        own(form_sum(g, h), left).len() == own(g, left).len() + own(h, left).len(),
        forall|i: int|
            0 <= i < own(g, left).len() ==> #[trigger] own(form_sum(g, h), left)[i] == form_sum(
                own(g, left)[i],
                h,
            ),
        forall|i: int|
            0 <= i < own(h, left).len() ==> #[trigger] own(form_sum(g, h), left)[own(g, left).len()
                + i] == form_sum(g, own(h, left)[i]),
{
    lemma_sum_options(g, h);
}

/// The options of one player in the negative of a form.
pub proof fn lemma_neg_side(g: Form, left: bool)
    requires
        g.wf(),
    ensures
        own(g.neg(), left).len() == opp(g, left).len(),
        forall|i: int|
            0 <= i < opp(g, left).len() ==> #[trigger] own(g.neg(), left)[i] == opp(g, left)[i].neg(),
{
    g.lemma_neg_options();
}

/// What the laws on the negative of a sum are proved from, for forms that
/// are not both number-up-stars whose parts add up.
pub open spec fn neg_sum_case(g: Form, h: Form, x: Form, y: Form) -> bool {
    &&& g.canonical()
    &&& h.canonical()
    &&& is_negative(x, g)
    &&& is_negative(y, h)
    &&& !adds_by_parts(g, h)
    &&& !adds_by_parts(x, y)
}

/// Every option of the player in the sum of the negatives has the value of
/// an option of the player in the negative of the sum.
proof fn lemma_neg_sum_forth(g: Form, h: Form, x: Form, y: Form, left: bool)
    requires
        neg_sum_case(g, h, x, y),
    ensures
        matched(own(form_sum(x, y), left), own(form_sum(g, h).neg(), left)),
    decreases g.rank() + h.rank(), 0nat,
{
    let s = form_sum(g, h);
    let t = form_sum(x, y);
    let n = s.neg();
    let mg = g.neg();
    let mh = h.neg();
    g.lemma_canonical();
    h.lemma_canonical();
    x.lemma_canonical();
    y.lemma_canonical();
    lemma_side_options(g, left);
    lemma_side_options(h, left);
    lemma_sum_options(g, h);
    lemma_sum_side(x, y, left);
    lemma_sum_side(g, h, !left);
    lemma_neg_side(s, left);
    lemma_neg_side(g, left);
    lemma_neg_side(h, left);
    lemma_neg_simplest(g);
    lemma_neg_simplest(h);
    lemma_canonical_simplest(x);
    lemma_canonical_simplest(y);
    assert forall|i: int| 0 <= i < own(t, left).len() implies has_equal(
        own(n, left),
        #[trigger] own(t, left)[i],
    ) by {
        if i < own(x, left).len() {
            let xl = own(x, left)[i];
            lemma_options_match(x, mg, left, i);
            let k = choose|k: int|
                0 <= k < own(mg, left).len() && equal_value(
                    own(x, left)[i],
                    #[trigger] own(mg, left)[k],
                );
            let gr = opp(g, left)[k];
            assert(own(mg, left)[k] == gr.neg());
            assert(xl.canonical()) by {
                if left {
                    assert(x.left()[i].canonical());
                } else {
                    assert(x.right()[i].canonical());
                }
            }
            assert(gr.canonical()) by {
                if left {
                    assert(g.right()[k].canonical());
                } else {
                    assert(g.left()[k].canonical());
                }
            }
            lemma_neg_sum_value(gr, h, xl, y);
            assert(own(n, left)[k] == opp(s, left)[k].neg());
            assert(opp(s, left)[k] == form_sum(gr, h));
            assert(equal_value(own(t, left)[i], own(n, left)[k]));
        } else {
            let j = i - own(x, left).len();
            let yl = own(y, left)[j];
            lemma_options_match(y, mh, left, j);
            let k = choose|k: int|
                0 <= k < own(mh, left).len() && equal_value(
                    own(y, left)[j],
                    #[trigger] own(mh, left)[k],
                );
            let hr = opp(h, left)[k];
            assert(own(mh, left)[k] == hr.neg());
            assert(yl.canonical()) by {
                if left {
                    assert(y.left()[j].canonical());
                } else {
                    assert(y.right()[j].canonical());
                }
            }
            assert(hr.canonical()) by {
                if left {
                    assert(h.right()[k].canonical());
                } else {
                    assert(h.left()[k].canonical());
                }
            }
            lemma_neg_sum_value(g, hr, x, yl);
            assert(own(t, left)[own(x, left).len() + j] == form_sum(x, yl));
            let at = opp(g, left).len() + k;
            assert(own(n, left)[at] == opp(s, left)[at].neg());
            assert(opp(s, left)[opp(g, left).len() + k] == form_sum(g, hr));
            assert(equal_value(own(t, left)[i], own(n, left)[at]));
        }
    }
}

/// Every option of the player in the negative of the sum has the value of
/// an option of the player in the sum of the negatives.
proof fn lemma_neg_sum_back(g: Form, h: Form, x: Form, y: Form, left: bool)
    requires
        neg_sum_case(g, h, x, y),
    ensures
        matched(own(form_sum(g, h).neg(), left), own(form_sum(x, y), left)),
    decreases g.rank() + h.rank(), 0nat,
{
    let s = form_sum(g, h);
    let t = form_sum(x, y);
    let n = s.neg();
    let mg = g.neg();
    let mh = h.neg();
    g.lemma_canonical();
    h.lemma_canonical();
    x.lemma_canonical();
    y.lemma_canonical();
    lemma_side_options(g, left);
    lemma_side_options(h, left);
    lemma_sum_options(g, h);
    lemma_sum_side(x, y, left);
    lemma_sum_side(g, h, !left);
    lemma_neg_side(s, left);
    lemma_neg_side(g, left);
    lemma_neg_side(h, left);
    lemma_neg_simplest(g);
    lemma_neg_simplest(h);
    lemma_canonical_simplest(x);
    lemma_canonical_simplest(y);
    assert forall|i: int| 0 <= i < own(n, left).len() implies has_equal(
        own(t, left),
        #[trigger] own(n, left)[i],
    ) by {
        assert(own(n, left)[i] == opp(s, left)[i].neg());
        if i < opp(g, left).len() {
            let gr = opp(g, left)[i];
            assert(own(mg, left)[i] == gr.neg());
            lemma_options_match(mg, x, left, i);
            let k = choose|k: int|
                0 <= k < own(x, left).len() && equal_value(
                    own(mg, left)[i],
                    #[trigger] own(x, left)[k],
                );
            let xl = own(x, left)[k];
            assert(xl.canonical()) by {
                if left {
                    assert(x.left()[k].canonical());
                } else {
                    assert(x.right()[k].canonical());
                }
            }
            assert(gr.canonical()) by {
                if left {
                    assert(g.right()[i].canonical());
                } else {
                    assert(g.left()[i].canonical());
                }
            }
            lemma_neg_sum_value(gr, h, xl, y);
            assert(opp(s, left)[i] == form_sum(gr, h));
            assert(own(t, left)[k] == form_sum(xl, y));
            assert(equal_value(own(n, left)[i], own(t, left)[k]));
        } else {
            let j = i - opp(g, left).len();
            let hr = opp(h, left)[j];
            assert(own(mh, left)[j] == hr.neg());
            lemma_options_match(mh, y, left, j);
            let k = choose|k: int|
                0 <= k < own(y, left).len() && equal_value(
                    own(mh, left)[j],
                    #[trigger] own(y, left)[k],
                );
            let yl = own(y, left)[k];
            assert(yl.canonical()) by {
                if left {
                    assert(y.left()[k].canonical());
                } else {
                    assert(y.right()[k].canonical());
                }
            }
            assert(hr.canonical()) by {
                if left {
                    assert(h.right()[j].canonical());
                } else {
                    assert(h.left()[j].canonical());
                }
            }
            lemma_neg_sum_value(g, hr, x, yl);
            assert(opp(s, left)[opp(g, left).len() + j] == form_sum(g, hr));
            let at = own(x, left).len() + k;
            assert(own(t, left)[at] == form_sum(x, yl));
            assert(equal_value(own(n, left)[i], own(t, left)[at]));
        }
    }
}

/// The sum of the negatives of two forms has the value of the negative of their sum.
pub proof fn lemma_neg_sum_value(g: Form, h: Form, x: Form, y: Form)
    requires
        g.canonical(),
        h.canonical(),
        is_negative(x, g),
        is_negative(y, h),
    ensures
        form_sum(x, y).wf(),
        form_sum(g, h).neg().wf(),
        equal_value(form_sum(x, y), form_sum(g, h).neg()),
    decreases g.rank() + h.rank(), 1nat,
{
    let s = form_sum(g, h);
    let t = form_sum(x, y);
    let n = s.neg();
    g.lemma_canonical();
    h.lemma_canonical();
    x.lemma_canonical();
    y.lemma_canonical();
    g.lemma_neg_options();
    h.lemma_neg_options();
    lemma_sum_options(g, h);
    lemma_sum_options(x, y);
    s.lemma_neg_options();
    lemma_negative_shape(g, x);
    lemma_negative_shape(h, y);
    lemma_ge_reflexive(t);
    if let Form::Nus(a) = g {
        if let Form::Nus(b) = h {
            a.lemma_add_laws(b, b);
            a.lemma_neg_options();
            b.lemma_neg_options();
            if a.add(b).wf() {
                a.add(b).lemma_neg_options();
            }
            if a.neg().add(b.neg()).wf() {
                a.neg().add(b.neg()).lemma_neg_options();
                a.neg().lemma_add_laws(b.neg(), b);
                assert(a.neg().neg() == a && b.neg().neg() == b);
            }
        }
    }
    if !adds_by_parts(g, h) {
        assert(!adds_by_parts(x, y));
        lemma_neg_sum_forth(g, h, x, y, true);
        lemma_neg_sum_forth(g, h, x, y, false);
        lemma_neg_sum_back(g, h, x, y, true);
        lemma_neg_sum_back(g, h, x, y, false);
        lemma_matching(t, n);
    }
}

/// The negative of a sum is the sum of the negatives: `-(G + H) = (-G) + (-H)`.
pub proof fn lemma_neg_sum(g: Form, h: Form, s: Form, n: Form, x: Form, y: Form, t: Form)
    requires
        g.canonical(),
        h.canonical(),
        is_sum(s, g, h),
        is_negative(n, s),
        is_negative(x, g),
        is_negative(y, h),
        is_sum(t, x, y),
    ensures
        n == t,
{
    g.lemma_canonical();
    h.lemma_canonical();
    s.lemma_canonical();
    n.lemma_canonical();
    t.lemma_canonical();
    lemma_sum_options(g, h);
    lemma_neg_sum_value(g, h, x, y);
    lemma_neg_equal(s, form_sum(g, h));
    lemma_equal_value_transitive(n, s.neg(), form_sum(g, h).neg());
    lemma_equal_value_transitive(t, form_sum(x, y), form_sum(g, h).neg());
    lemma_equal_value_transitive(n, form_sum(g, h).neg(), t);
    lemma_canonical_unique(n, t);
}

/// Round trip of number-up-stars: the canonical form of the game with the
/// options of a number-up-star is that number-up-star.
pub proof fn lemma_expansion_collapses(n: NumberUpStar)
    requires
        n.storable(),
    ensures
        expands(n, Form::Nus(n).left(), Form::Nus(n).right()),
        Form::Moves(Form::Nus(n).left(), Form::Nus(n).right()).wf(),
        canonical_of(Form::Moves(Form::Nus(n).left(), Form::Nus(n).right())) == Form::Nus(n),
{
    let f = Form::Nus(n);
    let written = Form::Moves(f.left(), f.right());
    f.lemma_options();
    crate::short::partizan::game_form::lemma_same_options(f, written, f);
    lemma_canonical_of(written, f);
}

/// A form and its negative add up to zero: `G + (-G) = 0`.
pub proof fn lemma_sum_negative(g: Form, n: Form, s: Form)
    requires
        g.canonical(),
        is_negative(n, g),
        is_sum(s, g, n),
    ensures
        s == Form::zero(),
{
    lemma_sum_negative_value(g, n);
    s.lemma_canonical();
    Form::zero().lemma_options();
    lemma_equal_value_transitive(s, form_sum(g, n), Form::zero());
    lemma_canonical_unique(s, Form::zero());
}

/// The sum of two canonical forms has the value of their sum as games.
pub proof fn lemma_sum_value_is_plain(g: Form, h: Form)
    requires
        g.canonical(),
        h.canonical(),
    ensures
        sum_value(g, h).canonical(),
        plain_sum(g, h).wf(),
        equal_value(sum_value(g, h), plain_sum(g, h)),
{
    g.lemma_canonical();
    h.lemma_canonical();
    lemma_sum_value(g, h);
    lemma_sum_is_plain(g, h);
    sum_value(g, h).lemma_canonical();
    lemma_equal_value_transitive(sum_value(g, h), form_sum(g, h), plain_sum(g, h));
}

/// The sum is associative: `(G + H) + K = G + (H + K)`.
pub proof fn lemma_sum_associative(g: Form, h: Form, k: Form)
    requires
        g.canonical(),
        h.canonical(),
        k.canonical(),
    ensures
        sum_value(sum_value(g, h), k) == sum_value(g, sum_value(h, k)),
{
    let gh = sum_value(g, h);
    let hk = sum_value(h, k);
    let l = sum_value(gh, k);
    let r = sum_value(g, hk);
    g.lemma_canonical();
    h.lemma_canonical();
    k.lemma_canonical();
    lemma_sum_value_is_plain(g, h);
    lemma_sum_value_is_plain(h, k);
    gh.lemma_canonical();
    hk.lemma_canonical();
    lemma_sum_value_is_plain(gh, k);
    lemma_sum_value_is_plain(g, hk);
    l.lemma_canonical();
    r.lemma_canonical();
    lemma_ge_reflexive(g);
    lemma_ge_reflexive(k);
    // (g + h) + k, with the sums taken as games
    lemma_plain_congruent(gh, plain_sum(g, h), k, k);
    lemma_plain_associates(g, h, k);
    lemma_plain_congruent(g, g, plain_sum(h, k), hk);
    let first = plain_sum(gh, k);
    let second = plain_sum(plain_sum(g, h), k);
    let third = plain_sum(g, plain_sum(h, k));
    let fourth = plain_sum(g, hk);
    lemma_plain_options(g, h);
    lemma_plain_options(h, k);
    lemma_equal_value_transitive(l, first, second);
    lemma_equal_value_transitive(l, second, third);
    lemma_equal_value_transitive(l, third, fourth);
    lemma_equal_value_transitive(l, fourth, r);
    lemma_canonical_unique(l, r);
}

/// The laws of the sum and of the negative, for the canonical forms `G`,
/// `H`: the sum `G + H` and the negative `-G` are canonical forms, and
/// `G + 0 = G`, `G + (-G) = 0`, `G + H = H + G`, `-(-G) = G`,
/// `-(G + H) = (-G) + (-H)`.
pub proof fn lemma_algebra(g: Form, h: Form)
    requires
        g.canonical(),
        h.canonical(),
    ensures
        is_sum(sum_value(g, h), g, h),
        is_negative(neg_value(g), g),
        sum_value(g, Form::zero()) == g,
        sum_value(Form::zero(), g) == g,
        sum_value(g, neg_value(g)) == Form::zero(),
        sum_value(g, h) == sum_value(h, g),
        neg_value(neg_value(g)) == g,
        neg_value(sum_value(g, h)) == sum_value(neg_value(g), neg_value(h)),
{
    let zero = Form::zero();
    g.lemma_canonical();
    h.lemma_canonical();
    zero.lemma_options();
    lemma_sum_value(g, h);
    lemma_sum_value(h, g);
    lemma_sum_value(g, zero);
    lemma_sum_value(zero, g);
    lemma_neg_value(g);
    lemma_neg_value(h);
    let ng = neg_value(g);
    let nh = neg_value(h);
    ng.lemma_canonical();
    nh.lemma_canonical();
    lemma_sum_value(g, ng);
    lemma_sum_value(ng, nh);
    lemma_neg_value(ng);
    let s = sum_value(g, h);
    s.lemma_canonical();
    lemma_neg_value(s);
    lemma_sum_zero(g, sum_value(g, zero), sum_value(zero, g));
    lemma_sum_negative(g, ng, sum_value(g, ng));
    lemma_sum_commutative(g, h, s, sum_value(h, g));
    lemma_neg_involution(g, ng, neg_value(ng));
    lemma_neg_sum(g, h, s, neg_value(s), ng, nh, sum_value(ng, nh));
}

/// The negative of the sum of canonical forms is the sum of their negatives.
pub proof fn lemma_neg_sum_of(values: Seq<Form>, negatives: Seq<Form>)
    requires
        all_canonical(values),
        negatives.len() == values.len(),
        forall|i: int| 0 <= i < values.len() ==> #[trigger] negatives[i] == neg_value(values[i]),
    ensures
        sum_of(negatives) == neg_value(sum_of(values)),
    decreases values.len(),
{
    let zero = Form::zero();
    if values.len() == 0 {
        zero.lemma_options();
        lemma_algebra(zero, zero);
        assert(neg_value(zero) == zero) by {
            // zero is its own inverse
            assert(sum_value(zero, neg_value(zero)) == zero);
            neg_value(zero).lemma_canonical();
            lemma_algebra(neg_value(zero), zero);
        }
    } else {
        let front = values.drop_last();
        let front_negatives = negatives.drop_last();
        lemma_neg_sum_of(front, front_negatives);
        lemma_sum_of(front);
        lemma_algebra(sum_of(front), values.last());
    }
}

} // verus!
