//! The order of games on numbers and on number-up-stars.

use crate::numeric::dyadic_rational_number::Dyadic;
use crate::short::partizan::game_form::ge;
use crate::short::partizan::game_form::lemma_ge_reflexive;
use crate::short::partizan::game_form::nus_forms;
use crate::short::partizan::game_form::Form;
use crate::short::partizan::game_form::NumberUpStar;
use crate::short::partizan::game_sum::lemma_neg_ge;
use vstd::arithmetic::power2::pow2;
use vstd::prelude::*;

verus! {

/// The number `x` as a game.
pub open spec fn number(x: Dyadic) -> Form {
    Form::Nus(NumberUpStar::of_number(x))
}

/// Whether Left has a move in the number `x`.
pub open spec fn has_left(x: Dyadic) -> bool {
    x.exp > 0 || x.num > 0
}

/// Whether Right has a move in the number `x`.
pub open spec fn has_right(x: Dyadic) -> bool {
    x.exp > 0 || x.num < 0
}

/// The number that Left moves to from the number `x`.
pub open spec fn left_number(x: Dyadic) -> Dyadic {
    if x.exp == 0 {
        Dyadic::from_int(x.num - 1)
    } else {
        NumberUpStar::number_below(x)
    }
}

/// The number that Right moves to from the number `x`.
pub open spec fn right_number(x: Dyadic) -> Dyadic {
    if x.exp == 0 {
        Dyadic::from_int(x.num + 1)
    } else {
        NumberUpStar::number_above(x)
    }
}

/// The options of a number are numbers: Left's is smaller, Right's is larger.
pub proof fn lemma_number_options(x: Dyadic)
    requires
        x.normal(),
    ensures
        number(x).wf(),
        number(x).left() == (if has_left(x) {
            seq![number(left_number(x))]
        } else {
            Seq::<Form>::empty()
        }),
        number(x).right() == (if has_right(x) {
            seq![number(right_number(x))]
        } else {
            Seq::<Form>::empty()
        }),
        has_left(x) ==> left_number(x).normal() && left_number(x).lt(x) && number(
            left_number(x),
        ).rank() < number(x).rank(),
        has_right(x) ==> right_number(x).normal() && x.lt(right_number(x)) && number(
            right_number(x),
        ).rank() < number(x).rank(),
{
    let n = NumberUpStar::of_number(x);
    n.lemma_options();
    assert(number(x).left() =~= (if has_left(x) {
        seq![number(left_number(x))]
    } else {
        Seq::<Form>::empty()
    }));
    assert(number(x).right() =~= (if has_right(x) {
        seq![number(right_number(x))]
    } else {
        Seq::<Form>::empty()
    }));
    assert(pow2(0) == 1) by {
        vstd::arithmetic::power2::lemma2_to64();
    }
    x.lemma_scaled_self();
    if has_left(x) {
        assert(n.left()[0] == NumberUpStar::of_number(left_number(x)));
        if x.exp > 0 {
            let d = Dyadic { num: x.num - 1, exp: x.exp };
            d.lemma_reduce();
            d.lemma_reduce_scaled(x.exp);
            d.lemma_scaled_self();
            left_number(x).lemma_order_at(x, x.exp);
        } else {
            left_number(x).lemma_order_same_exp(x);
        }
    }
    if has_right(x) {
        assert(n.right()[0] == NumberUpStar::of_number(right_number(x)));
        if x.exp > 0 {
            let d = Dyadic { num: x.num + 1, exp: x.exp };
            d.lemma_reduce();
            d.lemma_reduce_scaled(x.exp);
            d.lemma_scaled_self();
            x.lemma_order_at(right_number(x), x.exp);
        } else {
            x.lemma_order_same_exp(right_number(x));
        }
    }
}

/// Of two numbers `a < b`, Right can move from `a` to a number that is at
/// most `b`, or Left can move from `b` to a number that is at least `a`.
pub proof fn lemma_between(a: Dyadic, b: Dyadic)
    requires
        a.normal(),
        b.normal(),
        a.lt(b),
    ensures
        (has_right(a) && right_number(a).le(b)) || (has_left(b) && a.le(left_number(b))),
{
    assert(pow2(0) == 1) by {
        vstd::arithmetic::power2::lemma2_to64();
    }
    a.lemma_scaled_self();
    b.lemma_scaled_self();
    if a.exp == 0 && b.exp == 0 {
        a.lemma_order_same_exp(b);
        if b.num > 0 {
            a.lemma_order_same_exp(left_number(b));
        } else {
            right_number(a).lemma_order_same_exp(b);
        }
    } else if a.exp >= b.exp {
        let d = Dyadic { num: a.num + 1, exp: a.exp };
        d.lemma_reduce();
        d.lemma_reduce_scaled(a.exp);
        d.lemma_scaled_self();
        right_number(a).lemma_order_at(b, a.exp);
        a.lemma_order_at(b, a.exp);
    } else {
        let d = Dyadic { num: b.num - 1, exp: b.exp };
        d.lemma_reduce();
        d.lemma_reduce_scaled(b.exp);
        d.lemma_scaled_self();
        a.lemma_order_at(left_number(b), b.exp);
        a.lemma_order_at(b, b.exp);
    }
}

/// On numbers the order of games is the order of numbers.
pub proof fn lemma_number_ge(a: Dyadic, b: Dyadic)
    requires
        a.normal(),
        b.normal(),
    ensures
        ge(number(a), number(b)) <==> b.le(a),
    decreases number(a).rank() + number(b).rank(),
{
    lemma_number_options(a);
    lemma_number_options(b);
    let ga = number(a);
    let gb = number(b);
    if b.le(a) {
        assert forall|i: int| 0 <= i < ga.right().len() implies !ge(gb, #[trigger] ga.right()[i]) by {
            let r = right_number(a);
            lemma_number_ge(b, r);
            b.lemma_order_transitive(a, r);
            r.lemma_order_transitive(b, b);
        }
        assert forall|j: int| 0 <= j < gb.left().len() implies !ge(#[trigger] gb.left()[j], ga) by {
            let l = left_number(b);
            lemma_number_ge(l, a);
            l.lemma_order_transitive(b, a);
            l.lemma_order_transitive(a, a);
        }
    } else {
        b.lemma_order_transitive(a, a);
        a.lemma_order_transitive(b, b);
        lemma_between(a, b);
        if has_right(a) && right_number(a).le(b) {
            lemma_number_ge(b, right_number(a));
            assert(ge(gb, ga.right()[0]));
        } else {
            lemma_number_ge(left_number(b), a);
            assert(ge(gb.left()[0], ga));
        }
    }
}

/// A number-up-star is below every number that is larger than its number part.
pub proof fn lemma_number_above(r: Dyadic, n: NumberUpStar)
    requires
        r.normal(),
        n.wf(),
        n.number.lt(r),
    ensures
        ge(number(r), Form::Nus(n)),
        !ge(Form::Nus(n), number(r)),
    decreases number(r).rank() + n.rank(),
{
    let x = n.number;
    let gn = Form::Nus(n);
    let gr = number(r);
    lemma_number_options(r);
    lemma_number_options(x);
    n.lemma_options();
    gn.lemma_options();
    // every Left option of `n` has a number part below `r`
    assert forall|j: int| 0 <= j < gn.left().len() implies !ge(#[trigger] gn.left()[j], gr) by {
        let nl = n.left()[j];
        assert(gn.left()[j] == Form::Nus(nl));
        if n.is_number() {
            left_number(x).lemma_order_transitive(x, r);
            assert(nl == NumberUpStar::of_number(left_number(x)));
        } else {
            assert(nl.number == x);
        }
        lemma_number_above(r, nl);
    }
    assert forall|i: int| 0 <= i < gr.right().len() implies !ge(gn, #[trigger] gr.right()[i]) by {
        let rr = right_number(r);
        x.lemma_order_transitive(r, rr);
        lemma_number_above(rr, n);
    }
    assert(ge(gr, gn));
    if n.is_number() {
        lemma_number_ge(x, r);
        x.lemma_order_transitive(r, r);
        assert(gn == number(x));
    } else {
        assert(n.right().len() > 0);
        let nr = n.right()[0];
        assert(gn.right()[0] == Form::Nus(nr));
        assert(nr.number == x);
        lemma_number_above(r, nr);
        assert(ge(gr, gn.right()[0]));
    }
}

/// Of two number-up-stars with different number parts the one with the
/// larger number part is larger.
pub proof fn lemma_numbers_differ(a: NumberUpStar, b: NumberUpStar)
    requires
        a.wf(),
        b.wf(),
        a.number.lt(b.number),
    ensures
        ge(Form::Nus(b), Form::Nus(a)),
        !ge(Form::Nus(a), Form::Nus(b)),
    decreases a.rank() + b.rank(),
{
    let ga = Form::Nus(a);
    let gb = Form::Nus(b);
    let x = a.number;
    let y = b.number;
    lemma_number_options(x);
    lemma_number_options(y);
    a.lemma_options();
    b.lemma_options();
    ga.lemma_options();
    gb.lemma_options();
    // every option of `a` has a number part below that of `b`, and every
    // option of `b` a number part above that of `a`
    assert forall|i: int| 0 <= i < a.left().len() implies (#[trigger] a.left()[i]).number.lt(y) by {
        if a.is_number() {
            left_number(x).lemma_order_transitive(x, y);
        }
    }
    assert forall|i: int| 0 <= i < a.right().len() && !a.is_number() implies (
    #[trigger] a.right()[i]).number.lt(y) by {}
    assert forall|i: int| 0 <= i < b.right().len() implies x.lt((#[trigger] b.right()[i]).number) by {
        if b.is_number() {
            x.lemma_order_transitive(y, right_number(y));
        }
    }
    assert forall|i: int| 0 <= i < b.left().len() && !b.is_number() implies x.lt(
        (#[trigger] b.left()[i]).number,
    ) by {}
    assert forall|i: int| 0 <= i < gb.right().len() implies !ge(ga, #[trigger] gb.right()[i]) by {
        assert(gb.right()[i] == Form::Nus(b.right()[i]));
        lemma_numbers_differ(a, b.right()[i]);
    }
    assert forall|j: int| 0 <= j < ga.left().len() implies !ge(#[trigger] ga.left()[j], gb) by {
        assert(ga.left()[j] == Form::Nus(a.left()[j]));
        lemma_numbers_differ(a.left()[j], b);
    }
    assert(ge(gb, ga));
    if !a.is_number() {
        assert(a.right().len() > 0);
        assert(ga.right()[0] == Form::Nus(a.right()[0]));
        lemma_numbers_differ(a.right()[0], b);
        assert(ge(gb, ga.right()[0]));
    } else if !b.is_number() {
        assert(b.left().len() > 0);
        assert(gb.left()[0] == Form::Nus(b.left()[0]));
        lemma_numbers_differ(a, b.left()[0]);
        assert(ge(gb.left()[0], ga));
    } else {
        lemma_number_ge(x, y);
        x.lemma_order_transitive(y, y);
        assert(ga == number(x) && gb == number(y));
    }
}

/// The form is a number.
pub open spec fn is_number(f: Form) -> bool {
    f matches Form::Nus(n) && n.is_number()
}

/// Every form of `s` is a number.
pub open spec fn all_numbers(s: Seq<Form>) -> bool {
    forall|i: int| 0 <= i < s.len() ==> is_number(#[trigger] s[i])
}

/// Every form of `s` is a number, and `bound` is one of them: the largest
/// if `left`, else the smallest.
pub open spec fn numbers_bounded(s: Seq<Form>, bound: Dyadic, left: bool) -> bool {
    &&& bound.normal()
    &&& exists|i: int| 0 <= i < s.len() && #[trigger] s[i] == number(bound)
    &&& forall|i: int|
        0 <= i < s.len() ==> match #[trigger] s[i] {
            Form::Nus(n) => n.wf() && n.is_number() && (if left {
                n.number.le(bound)
            } else {
                bound.le(n.number)
            }),
            Form::Moves(_, _) => false,
        }
}

/// Simplicity rule: a game whose options are numbers, all Left options
/// below all Right options, is the simplest number between the largest
/// Left option and the smallest Right option.
pub proof fn lemma_simplicity(ls: Seq<Form>, rs: Seq<Form>, lo: Dyadic, hi: Dyadic, c: Dyadic)
    requires
        numbers_bounded(ls, lo, true),
        numbers_bounded(rs, hi, false),
        c.is_simplest_between(lo, hi),
    ensures
        Form::Moves(ls, rs).wf(),
        crate::short::partizan::game_form::equal_value(number(c), Form::Moves(ls, rs)),
{
    let g = Form::Moves(ls, rs);
    let gc = number(c);
    lemma_number_options(c);
    lemma_number_options(lo);
    lemma_number_options(hi);
    assert(g.wf()) by {
        assert forall|i: int| 0 <= i < ls.len() implies (#[trigger] ls[i]).wf() by {}
        assert forall|i: int| 0 <= i < rs.len() implies (#[trigger] rs[i]).wf() by {}
    }
    g.lemma_options();
    gc.lemma_options();
    let at_lo = choose|i: int| 0 <= i < ls.len() && #[trigger] ls[i] == number(lo);
    let at_hi = choose|i: int| 0 <= i < rs.len() && #[trigger] rs[i] == number(hi);
    // the options of the game compare with the number as numbers do
    assert forall|i: int| 0 <= i < ls.len() implies !ge(#[trigger] g.left()[i], gc) by {
        let n = ls[i]->Nus_0;
        assert(ls[i] == number(n.number));
        lemma_number_ge(n.number, c);
        n.number.lemma_order_transitive(lo, c);
        c.lemma_order_transitive(n.number, n.number);
    }
    assert forall|i: int| 0 <= i < rs.len() implies !ge(gc, #[trigger] g.right()[i]) by {
        let n = rs[i]->Nus_0;
        assert(rs[i] == number(n.number));
        lemma_number_ge(c, n.number);
        c.lemma_order_transitive(hi, n.number);
        n.number.lemma_order_transitive(c, c);
    }
    // the options of the number are simpler than the number: none is between
    assert forall|i: int| 0 <= i < gc.right().len() implies !ge(g, #[trigger] gc.right()[i]) by {
        let r = right_number(c);
        lemma_number_options(r);
        lo.lemma_order_transitive(c, r);
        assert(!c.simpler_or_equal(r)) by {
            if c.exp > 0 {
                NumberUpStar::lemma_neighbours(c);
            }
        }
        assert(!r.between(lo, hi));
        r.lemma_order_transitive(hi, hi);
        hi.lemma_order_transitive(r, r);
        lemma_number_ge(r, hi);
        assert(ge(number(r), g.right()[at_hi]));
    }
    assert forall|i: int| 0 <= i < gc.left().len() implies !ge(#[trigger] gc.left()[i], g) by {
        let l = left_number(c);
        lemma_number_options(l);
        l.lemma_order_transitive(c, hi);
        assert(!c.simpler_or_equal(l)) by {
            if c.exp > 0 {
                NumberUpStar::lemma_neighbours(c);
            }
        }
        assert(!l.between(lo, hi));
        l.lemma_order_transitive(lo, lo);
        lo.lemma_order_transitive(l, l);
        lemma_number_ge(lo, l);
        assert(ge(g.left()[at_lo], number(l)));
    }
}

/// A number-up-star is above every number that is smaller than its number part.
pub proof fn lemma_number_below(l: Dyadic, n: NumberUpStar)
    requires
        l.normal(),
        n.wf(),
        l.lt(n.number),
    ensures
        ge(Form::Nus(n), number(l)),
        !ge(number(l), Form::Nus(n)),
{
    l.lemma_order_neg(n.number);
    lemma_number_options(l);
    lemma_number_options(l.neg());
    n.lemma_neg_options();
    assert((-l.num) % 2 == 0 <==> l.num % 2 == 0);
    lemma_number_above(l.neg(), n.neg());
    lemma_neg_ge(Form::Nus(n), number(l));
    lemma_neg_ge(number(l), Form::Nus(n));
    assert(number(l).neg() == number(l.neg()));
}

/// A number with a positive multiple of up, and any star, is at least the
/// number, except for up-star.
pub proof fn lemma_ups_positive(n: NumberUpStar)
    requires
        n.wf(),
        n.ups >= 1,
        !(n.ups == 1 && n.star == 1),
    ensures
        ge(Form::Nus(n), number(n.number)),
{
    let x = n.number;
    let g = Form::Nus(n);
    let gx = number(x);
    NumberUpStar::lemma_star_flip(n.star);
    let k = n.star;
    assert((k ^ 1) == 0 ==> k == 1) by (bit_vector);
    n.lemma_options();
    g.lemma_options();
    lemma_number_options(x);
    lemma_ge_reflexive(gx);
    let gr = n.right()[0];
    assert(g.right()[0] == Form::Nus(gr));
    assert(gr == n.with(n.ups - 1, k ^ 1));
    gr.lemma_options();
    Form::Nus(gr).lemma_options();
    assert(gr.left().len() > 0);
    assert(gr.left()[0] == NumberUpStar::of_number(x));
    assert(Form::Nus(gr).left()[0] == gx);
    assert(!ge(gx, Form::Nus(gr)));
    assert forall|j: int| 0 <= j < gx.left().len() implies !ge(#[trigger] gx.left()[j], g) by {
        lemma_number_below(left_number(x), n);
    }
    assert forall|i: int| 0 <= i < g.right().len() implies !ge(gx, #[trigger] g.right()[i]) by {
        assert(i == 0);
    }
}

/// A number with a negative multiple of up, and any star, is at most the
/// number, except for down-star.
pub proof fn lemma_ups_negative(n: NumberUpStar)
    requires
        n.wf(),
        n.ups <= -1,
        !(n.ups == -1 && n.star == 1),
    ensures
        ge(number(n.number), Form::Nus(n)),
{
    n.lemma_neg_options();
    lemma_number_options(n.number);
    lemma_ups_positive(n.neg());
    lemma_neg_ge(Form::Nus(n), number(n.number));
    assert(number(n.number).neg() == number(n.number.neg()));
}

/// Of a number with two different stars neither is at least the other.
pub proof fn lemma_stars_differ(x: NumberUpStar, i: u32, j: u32)
    requires
        x.wf(),
        i != j,
    ensures
        !ge(Form::Nus(x.with(0, i)), Form::Nus(x.with(0, j))),
{
    let a = x.with(0, i);
    let b = x.with(0, j);
    let ga = Form::Nus(a);
    let gb = Form::Nus(b);
    a.lemma_options();
    b.lemma_options();
    ga.lemma_options();
    gb.lemma_options();
    lemma_ge_reflexive(ga);
    lemma_ge_reflexive(gb);
    if i > j {
        assert(a.right()[j as int] == b);
        assert(ga.right()[j as int] == gb);
        assert(ge(gb, ga.right()[j as int]));
    } else {
        assert(b.left()[i as int] == a);
        assert(gb.left()[i as int] == ga);
        assert(ge(gb.left()[i as int], ga));
    }
}

/// The answers of Right to the Left options of a number-up-star are not
/// at most the number-up-star: no Left option of it is reversible.
pub proof fn lemma_nus_left_not_reversible(n: NumberUpStar, j: int, i: int)
    requires
        n.wf(),
        0 <= j < n.left().len(),
        0 <= i < n.left()[j].right().len(),
    ensures
        !ge(Form::Nus(n), Form::Nus(n.left()[j].right()[i])),
{
    let x = n.number;
    let f = Form::Nus(n);
    let gx = number(x);
    let o = n.left()[j];
    let a = o.right()[i];
    let k = n.star;
    NumberUpStar::lemma_star_flip(k);
    assert((k ^ 1) == 0 <==> k == 1) by (bit_vector);
    n.lemma_options();
    f.lemma_options();
    o.lemma_options();
    lemma_number_options(x);
    lemma_ge_reflexive(gx);
    lemma_ge_reflexive(f);
    if n.is_number() {
        if x.exp > 0 {
            // the number just below `x`, and the number just above that one
            let lx = left_number(x);
            lemma_number_options(lx);
            assert(o == NumberUpStar::of_number(lx));
            let rr = right_number(lx);
            assert(a == NumberUpStar::of_number(rr));
            lemma_above_below(x);
            lemma_number_ge(x, rr);
            x.lemma_order_transitive(rr, rr);
        } else {
            // a positive integer: Left moves to an integer that is not negative
            assert(o == NumberUpStar::integer(x.num - 1));
        }
    } else if n.ups == 0 {
        if j == 0 {
            assert(o == NumberUpStar::of_number(x));
            assert(a == NumberUpStar::of_number(right_number(x)));
            lemma_number_above(right_number(x), n);
        } else {
            assert(o == n.with(0, j as u32));
            assert(a == n.with(0, i as u32));
            lemma_stars_differ(n, k, i as u32);
            assert(n.with(0, k) == n);
        }
    } else if n.ups >= 1 {
        if j == 0 {
            assert(o == NumberUpStar::of_number(x));
            assert(a == NumberUpStar::of_number(right_number(x)));
            lemma_number_above(right_number(x), n);
        } else {
            // up-star: Left's second option is the number with a star
            assert(o == n.with(0, 1));
            assert(a == NumberUpStar::of_number(x));
            assert(n.right()[0] == NumberUpStar::of_number(x));
            assert(f.right()[0] == gx);
            assert(ge(gx, f.right()[0]));
        }
    } else if n.ups == -1 && k == 1 {
        assert(o == NumberUpStar::of_number(x));
        assert(a == NumberUpStar::of_number(right_number(x)));
        lemma_number_above(right_number(x), n);
    } else {
        assert(o == n.with(n.ups + 1, k ^ 1));
        assert(n.right()[0] == NumberUpStar::of_number(x));
        assert(f.right()[0] == gx);
        if a == NumberUpStar::of_number(x) {
            assert(ge(gx, f.right()[0]));
        } else {
            // the answer is the number with a star: the number is a Left option of it
            a.lemma_options();
            Form::Nus(a).lemma_options();
            assert(a.number == x && a.ups == 0 && a.star >= 1);
            assert(a.left()[0] == NumberUpStar::of_number(x));
            assert(Form::Nus(a).left()[0] == gx);
            lemma_ups_negative(n);
            assert(ge(Form::Nus(a).left()[0], f));
        }
    }
}

/// The number just above the number just below `x` is above `x`.
pub proof fn lemma_above_below(x: Dyadic)
    requires
        x.normal(),
        x.exp > 0,
        has_right(left_number(x)),
    ensures
        x.lt(right_number(left_number(x))),
{
    let lx = left_number(x);
    let d = Dyadic { num: x.num - 1, exp: x.exp };
    d.lemma_reduce();
    NumberUpStar::lemma_neighbours(x);
    d.lemma_reduce_scaled(x.exp);
    d.lemma_scaled_self();
    x.lemma_scaled_self();
    let rr = right_number(lx);
    let up = Dyadic { num: lx.num + 1, exp: lx.exp };
    up.lemma_reduce();
    up.lemma_reduce_scaled(x.exp);
    assert(rr == up.reduce()) by {
        if lx.exp == 0 {
            assert(up.reduce() == up);
        }
    }
    let gap = (x.exp - lx.exp) as nat;
    vstd::arithmetic::power2::lemma_pow2_unfold(gap);
    vstd::arithmetic::power2::lemma_pow2_pos((gap - 1) as nat);
    assert(up.scaled(x.exp) == lx.scaled(x.exp) + pow2(gap)) by (nonlinear_arith)
        requires
            up.scaled(x.exp) == (lx.num + 1) * pow2(gap),
            lx.scaled(x.exp) == lx.num * pow2(gap),
    ;
    x.lemma_order_at(rr, x.exp);
}

} // verus!
