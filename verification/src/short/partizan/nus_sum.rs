//! The sum of number-up-stars, part by part, is their sum as games.

use crate::numeric::dyadic_rational_number::Dyadic;
use crate::short::partizan::game_form::equal_value;
use crate::short::partizan::game_form::ge;
use crate::short::partizan::game_form::lemma_ge_reflexive;
use crate::short::partizan::game_form::lemma_ge_transitive;
use crate::short::partizan::game_form::Form;
use crate::short::partizan::game_form::NumberUpStar;
use crate::short::partizan::number_order::has_left;
use crate::short::partizan::number_order::has_right;
use crate::short::partizan::number_order::left_number;
use crate::short::partizan::number_order::lemma_number_options;
use crate::short::partizan::number_order::right_number;
use crate::short::partizan::nus_order::lemma_nus_ge;
use crate::short::partizan::nus_order::lemma_star_bits;
use crate::short::partizan::nus_order::nus_ge;
use crate::short::partizan::plain_sum::lemma_plain_options;
use crate::short::partizan::plain_sum::plain_sum;
use vstd::arithmetic::power2::pow2;
use vstd::prelude::*;

verus! {

/// The `j`-th Right option of `a`, plus `b`, is at most `cr`.
pub open spec fn witness_first(a: NumberUpStar, b: NumberUpStar, cr: NumberUpStar, j: int) -> bool {
    0 <= j < a.right().len() && nus_ge(cr, a.right()[j].add(b))
}

/// `a` plus the `j`-th Right option of `b` is at most `cr`.
pub open spec fn witness_second(a: NumberUpStar, b: NumberUpStar, cr: NumberUpStar, j: int) -> bool {
    0 <= j < b.right().len() && nus_ge(cr, a.add(b.right()[j]))
}

/// Some sum of `a` and `b` in which Right has moved in one of them is at most `cr`.
pub open spec fn right_witness(a: NumberUpStar, b: NumberUpStar, cr: NumberUpStar) -> bool {
    (exists|j: int| #[trigger] witness_first(a, b, cr, j)) || (exists|j: int| #[trigger]
        witness_second(a, b, cr, j))
}

/// The order by parts does not change when the same value is added.
pub proof fn lemma_nus_ge_add(a: NumberUpStar, b: NumberUpStar, z: NumberUpStar)
    requires
        a.wf(),
        b.wf(),
    ensures
        nus_ge(a.add(z), b.add(z)) == nus_ge(a, b),
{
    a.number.lemma_add_order(b.number, z.number);
    b.number.lemma_add_order(a.number, z.number);
    let s = a.star;
    let t = b.star;
    let w = z.star;
    assert(((s ^ w) ^ (t ^ w)) == (s ^ t) && ((s ^ w) == (t ^ w) <==> s == t)) by (bit_vector);
}

/// The order by parts turns round under negation.
pub proof fn lemma_nus_ge_neg(a: NumberUpStar, b: NumberUpStar)
    ensures
        nus_ge(a.neg(), b.neg()) == nus_ge(b, a),
{
    b.number.lemma_order_neg(a.number);
    let s = a.star;
    let t = b.star;
    assert((s ^ t) == (t ^ s)) by (bit_vector);
}

/// The number that Right moves to from a number reads, over a common
/// denominator, as the number plus one unit of the denominator of the number.
pub proof fn lemma_right_scaled(x: Dyadic, e: nat)
    requires
        x.normal(),
        has_right(x),
        x.exp <= e,
    ensures
        right_number(x).exp <= x.exp,
        right_number(x).scaled(e) == x.scaled(e) + pow2((e - x.exp) as nat),
{
    let d = Dyadic { num: x.num + 1, exp: x.exp };
    d.lemma_reduce();
    d.lemma_reduce_scaled(e);
    let p = pow2((e - x.exp) as nat);
    assert((x.num + 1) * p == x.num * p + p) by (nonlinear_arith);
    if x.exp == 0 {
        assert(right_number(x) == d);
    }
}

/// Of two numbers whose sum has a Right option, Right can move in one of
/// them to a sum that is no larger than that option.
pub proof fn lemma_right_of_sum(x: Dyadic, y: Dyadic)
    requires
        x.normal(),
        y.normal(),
        has_right(x.add(y)),
    ensures
        (has_right(x) && right_number(x).add(y).le(right_number(x.add(y)))) || (has_right(y)
            && x.add(right_number(y)).le(right_number(x.add(y)))),
{
    let c = x.add(y);
    let e = x.exp + y.exp;
    x.lemma_add_scaled(y, e);
    lemma_right_scaled(c, e);
    let rc = right_number(c);
    let m = if x.exp >= y.exp {
        x.exp
    } else {
        y.exp
    };
    x.lemma_add_scaled(y, m);
    if x.exp == 0 && y.exp == 0 {
        x.lemma_scaled_self();
        y.lemma_scaled_self();
        c.lemma_scaled_self();
        assert(c.exp == 0);
        assert(c.num == x.num + y.num);
    }
    // Right moves in the one with the larger denominator, where he can
    if has_right(x) && (x.exp >= y.exp || !has_right(y)) {
        lemma_right_scaled(x, e);
        let rx = right_number(x);
        rx.lemma_add_scaled(y, e);
        rx.add(y).lemma_order_at(rc, e);
        lemma_pow2_le(e, x.exp, c.exp);
    } else {
        assert(has_right(y) && y.exp >= c.exp);
        lemma_right_scaled(y, e);
        let ry = right_number(y);
        x.lemma_add_scaled(ry, e);
        x.add(ry).lemma_order_at(rc, e);
        lemma_pow2_le(e, y.exp, c.exp);
    }
}

/// A larger denominator has a smaller unit.
pub proof fn lemma_pow2_le(e: nat, large: nat, small: nat)
    requires
        small <= large <= e,
    ensures
        pow2((e - large) as nat) <= pow2((e - small) as nat),
{
    if small < large {
        vstd::arithmetic::power2::lemma_pow2_strictly_increases(
            (e - large) as nat,
            (e - small) as nat,
        );
    }
}

/// What xor does to the stars of sums and of options.
proof fn lemma_sum_bits(s: u32, t: u32, i: u32)
    ensures
        ((s ^ 1) ^ t) == ((s ^ t) ^ 1),
        (s ^ (t ^ 1)) == ((s ^ t) ^ 1),
        (i ^ t) ^ t == i,
        s ^ (s ^ i) == i,
        (i ^ ((s ^ t) ^ 1)) == 1 <==> i == (s ^ t),
        i < (s ^ t) ==> ((i ^ t) < s || (s ^ i) < t),
        0u32 ^ 0u32 == 0u32,
        (s ^ t) == 0 <==> s == t,
        (s ^ t) == 1 <==> s == (t ^ 1),
        (i ^ t) == 0 <==> i == t,
        (i ^ t) == 1 <==> i == (t ^ 1),
{
    assert(((s ^ 1) ^ t) == ((s ^ t) ^ 1) && (s ^ (t ^ 1)) == ((s ^ t) ^ 1) && (i ^ t) ^ t == i
        && s ^ (s ^ i) == i && ((i ^ ((s ^ t) ^ 1)) == 1 <==> i == (s ^ t)) && 0u32 ^ 0u32 == 0u32
        && ((s ^ t) == 0 <==> s == t) && ((s ^ t) == 1 <==> s == (t ^ 1)) && ((i ^ t) == 0 <==> i
        == t) && ((i ^ t) == 1 <==> i == (t ^ 1))) by (bit_vector);
    assert(i < (s ^ t) ==> ((i ^ t) < s || (s ^ i) < t)) by (bit_vector);
}

/// For every Right option of the sum by parts there is a sum in which
/// Right has moved in one of the two that is no larger: the sum is a number.
proof fn lemma_right_witness_number(a: NumberUpStar, b: NumberUpStar, i: int)
    requires
        a.wf(),
        b.wf(),
        a.add(b).is_number(),
        0 <= i < a.add(b).right().len(),
    ensures
        right_witness(a, b, a.add(b).right()[i]),
{
    let c = a.add(b);
    let cr = c.right()[i];
    let x = a.number;
    let y = b.number;
    let z = c.number;
    x.lemma_add_scaled(y, x.exp + y.exp);
    lemma_sum_bits(a.star, b.star, 0);
    lemma_number_options(z);
    let rz = right_number(z);
    assert(cr == NumberUpStar::of_number(rz));
    z.lemma_order_transitive(rz, rz);
    if !a.is_number() {
        a.lemma_options();
        assert(a.right().len() > 0);
        assert(a.right()[0].number == x);
        assert(witness_first(a, b, cr, 0));
    } else {
        assert(b.is_number());
        lemma_right_of_sum(x, y);
        lemma_number_options(x);
        lemma_number_options(y);
        if has_right(x) && right_number(x).add(y).le(rz) {
            let p = right_number(x).add(y);
            lemma_right_scaled(x, x.exp + y.exp);
            right_number(x).lemma_add_scaled(y, x.exp + y.exp);
            p.lemma_order_transitive(rz, rz);
            rz.lemma_order_transitive(p, p);
            assert(a.right()[0] == NumberUpStar::of_number(right_number(x)));
            assert(witness_first(a, b, cr, 0));
        } else {
            let p = x.add(right_number(y));
            lemma_right_scaled(y, x.exp + y.exp);
            x.lemma_add_scaled(right_number(y), x.exp + y.exp);
            p.lemma_order_transitive(rz, rz);
            rz.lemma_order_transitive(p, p);
            assert(b.right()[0] == NumberUpStar::of_number(right_number(y)));
            assert(witness_second(a, b, cr, 0));
        }
    }
}

/// The same where the sum is a number with a star.
proof fn lemma_right_witness_star(a: NumberUpStar, b: NumberUpStar, i: int)
    requires
        a.wf(),
        b.wf(),
        a.add(b).ups == 0,
        a.add(b).star >= 1,
        0 <= i < a.add(b).right().len(),
    ensures
        right_witness(a, b, a.add(b).right()[i]),
{
    let c = a.add(b);
    let cr = c.right()[i];
    let s = a.star;
    let t = b.star;
    a.number.lemma_add_scaled(b.number, a.number.exp + b.number.exp);
    lemma_sum_bits(s, t, i as u32);
    assert(cr == c.with(0, i as u32));
    if a.ups == 0 {
        if (i as u32 ^ t) < s {
            let j = (i as u32 ^ t);
            assert(a.right()[j as int] == a.with(0, j));
            assert(a.right()[j as int].add(b) == cr);
            assert(witness_first(a, b, cr, j as int));
        } else {
            let j = (s ^ i as u32);
            assert(b.right()[j as int] == b.with(0, j));
            assert(a.add(b.right()[j as int]) == cr);
            assert(witness_second(a, b, cr, j as int));
        }
    } else if a.ups >= 1 {
        assert(a.right()[0] == a.with(a.ups - 1, s ^ 1));
        assert(witness_first(a, b, cr, 0));
    } else {
        assert(b.right()[0] == b.with(b.ups - 1, t ^ 1));
        assert(witness_second(a, b, cr, 0));
    }
}

/// The same where the sum has a positive multiple of up.
proof fn lemma_right_witness_up(a: NumberUpStar, b: NumberUpStar, i: int)
    requires
        a.wf(),
        b.wf(),
        a.add(b).ups >= 1,
        0 <= i < a.add(b).right().len(),
    ensures
        right_witness(a, b, a.add(b).right()[i]),
{
    let c = a.add(b);
    let cr = c.right()[i];
    let s = a.star;
    let t = b.star;
    a.number.lemma_add_scaled(b.number, a.number.exp + b.number.exp);
    lemma_sum_bits(s, t, 0);
    assert(cr == c.with(c.ups - 1, c.star ^ 1));
    if a.ups >= 1 {
        assert(a.right()[0] == a.with(a.ups - 1, s ^ 1));
        assert(a.right()[0].add(b) == cr);
        assert(witness_first(a, b, cr, 0));
    } else {
        assert(b.right()[0] == b.with(b.ups - 1, t ^ 1));
        assert(a.add(b.right()[0]) == cr);
        assert(witness_second(a, b, cr, 0));
    }
}

/// The witnesses do not depend on the order of the two values.
proof fn lemma_right_witness_swap(a: NumberUpStar, b: NumberUpStar, cr: NumberUpStar)
    requires
        right_witness(b, a, cr),
    ensures
        right_witness(a, b, cr),
{
    if exists|j: int| #[trigger] witness_first(b, a, cr, j) {
        let j = choose|j: int| #[trigger] witness_first(b, a, cr, j);
        b.right()[j].lemma_add_laws(a, a);
        assert(witness_second(a, b, cr, j));
    } else {
        let j = choose|j: int| #[trigger] witness_second(b, a, cr, j);
        b.lemma_add_laws(a.right()[j], a);
        assert(witness_first(a, b, cr, j));
    }
}

/// The same where the sum has a negative multiple of up, and `a` has one
/// that is no larger than that of `b`.
proof fn lemma_right_witness_down(a: NumberUpStar, b: NumberUpStar, i: int)
    requires
        a.wf(),
        b.wf(),
        a.add(b).ups <= -1,
        a.ups <= b.ups,
        0 <= i < a.add(b).right().len(),
    ensures
        right_witness(a, b, a.add(b).right()[i]),
{
    let c = a.add(b);
    let cr = c.right()[i];
    let s = a.star;
    let t = b.star;
    a.number.lemma_add_scaled(b.number, a.number.exp + b.number.exp);
    lemma_star_bits(s, t);
    lemma_star_bits(0, t);
    lemma_star_bits(s, 0);
    lemma_star_bits(1, t);
    lemma_star_bits(s, 1);
    lemma_star_bits(0, 0);
    lemma_star_bits(0, 1);
    lemma_star_bits(1, 0);
    lemma_star_bits(1, 1);
    lemma_star_bits(t, 0);
    lemma_star_bits(t, 1);
    lemma_star_bits(t, s);
    lemma_sum_bits(s, t, 0);
    lemma_sum_bits(s, t, 1);
    assert(cr == c.with(0, i as u32));
    assert(i == 0 || (i == 1 && c.ups == -1 && c.star == 1));
    assert(a.ups <= -1);
    assert(a.right()[0] == a.with(0, 0));
    if b.ups >= 1 {
        // Right moves in `b`: the multiple of up falls by one more
        assert(b.right()[0] == b.with(b.ups - 1, t ^ 1));
        assert(witness_second(a, b, cr, 0));
    } else if b.ups <= -1 {
        assert(i == 0);
        assert(b.right()[0] == b.with(0, 0));
        if b.ups <= -2 || t != 1 {
            assert(a.right()[0].add(b) == c.with(b.ups, t));
            assert(witness_first(a, b, cr, 0));
        } else if a.ups <= -2 || s != 1 {
            assert(a.add(b.right()[0]) == c.with(a.ups, s));
            assert(witness_second(a, b, cr, 0));
        } else {
            assert(b.right()[1] == b.with(0, 1));
            assert(a.add(b.right()[1]) == c.with(-1, 0));
            assert(witness_second(a, b, cr, 1));
        }
    } else if i == 0 {
        if t == 0 {
            assert(a.right()[0].add(b) == c.with(0, 0));
            assert(witness_first(a, b, cr, 0));
        } else {
            assert(b.right()[0] == b.with(0, 0));
            if a.ups <= -2 || s != 1 {
                assert(a.add(b.right()[0]) == c.with(a.ups, s));
                assert(witness_second(a, b, cr, 0));
            } else if t == 1 {
                assert(a.right()[1] == a.with(0, 1));
                assert(a.right()[1].add(b) == c.with(0, 0));
                assert(witness_first(a, b, cr, 1));
            } else {
                assert(b.right()[1] == b.with(0, 1));
                assert(a.add(b.right()[1]) == c.with(-1, 0));
                assert(witness_second(a, b, cr, 1));
            }
        }
    } else {
        // down-star: the second Right option is the number with a star
        if t == 1 {
            assert(a.right()[0].add(b) == c.with(0, 1));
            assert(witness_first(a, b, cr, 0));
        } else if t == 0 {
            assert(a.right()[1] == a.with(0, 1));
            assert(a.right()[1].add(b) == c.with(0, 1));
            assert(witness_first(a, b, cr, 1));
        } else {
            assert(b.right()[0] == b.with(0, 0));
            assert(a.add(b.right()[0]) == c.with(-1, s));
            assert(witness_second(a, b, cr, 0));
        }
    }
}

/// For every Right option of the sum by parts there is a sum in which
/// Right has moved in one of the two that is no larger.
pub proof fn lemma_right_witness(a: NumberUpStar, b: NumberUpStar, i: int)
    requires
        a.wf(),
        b.wf(),
        0 <= i < a.add(b).right().len(),
    ensures
        right_witness(a, b, a.add(b).right()[i]),
{
    let c = a.add(b);
    if c.is_number() {
        lemma_right_witness_number(a, b, i);
    } else if c.ups == 0 {
        lemma_right_witness_star(a, b, i);
    } else if c.ups >= 1 {
        lemma_right_witness_up(a, b, i);
    } else if a.ups <= b.ups {
        lemma_right_witness_down(a, b, i);
    } else {
        a.lemma_add_laws(b, b);
        lemma_right_witness_down(b, a, i);
        lemma_right_witness_swap(a, b, c.right()[i]);
    }
}

/// The `j`-th Left option of `a`, plus `b`, is at least `cl`.
pub open spec fn left_witness_first(a: NumberUpStar, b: NumberUpStar, cl: NumberUpStar, j: int) -> bool {
    0 <= j < a.left().len() && nus_ge(a.left()[j].add(b), cl)
}

/// `a` plus the `j`-th Left option of `b` is at least `cl`.
pub open spec fn left_witness_second(a: NumberUpStar, b: NumberUpStar, cl: NumberUpStar, j: int) -> bool {
    0 <= j < b.left().len() && nus_ge(a.add(b.left()[j]), cl)
}

/// Some sum of `a` and `b` in which Left has moved in one of them is at least `cl`.
pub open spec fn left_witness(a: NumberUpStar, b: NumberUpStar, cl: NumberUpStar) -> bool {
    (exists|j: int| #[trigger] left_witness_first(a, b, cl, j)) || (exists|j: int| #[trigger]
        left_witness_second(a, b, cl, j))
}

/// For every Left option of the sum by parts there is a sum in which
/// Left has moved in one of the two that is no smaller.
pub proof fn lemma_left_witness(a: NumberUpStar, b: NumberUpStar, i: int)
    requires
        a.wf(),
        b.wf(),
        0 <= i < a.add(b).left().len(),
    ensures
        left_witness(a, b, a.add(b).left()[i]),
{
    let c = a.add(b);
    let cl = c.left()[i];
    let na = a.neg();
    let nb = b.neg();
    a.number.lemma_add_scaled(b.number, a.number.exp + b.number.exp);
    a.lemma_neg_options();
    b.lemma_neg_options();
    c.lemma_neg_options();
    a.lemma_add_laws(b, b);
    assert(na.add(nb) == c.neg());
    assert(c.neg().right()[i] == cl.neg());
    lemma_right_witness(na, nb, i);
    let cr = cl.neg();
    if exists|j: int| #[trigger] witness_first(na, nb, cr, j) {
        let j = choose|j: int| #[trigger] witness_first(na, nb, cr, j);
        let al = a.left()[j];
        assert(na.right()[j] == al.neg());
        al.lemma_add_laws(b, b);
        lemma_nus_ge_neg(cl, al.add(b));
        assert(left_witness_first(a, b, cl, j));
    } else {
        let j = choose|j: int| #[trigger] witness_second(na, nb, cr, j);
        let bl = b.left()[j];
        assert(nb.right()[j] == bl.neg());
        a.lemma_add_laws(bl, bl);
        lemma_nus_ge_neg(cl, a.add(bl));
        assert(left_witness_second(a, b, cl, j));
    }
}

/// The sum of two number-up-stars, part by part, has the value of their
/// sum as games.
pub proof fn lemma_parts_sum(a: NumberUpStar, b: NumberUpStar)
    requires
        a.wf(),
        b.wf(),
    ensures
        a.add(b).wf(),
        plain_sum(Form::Nus(a), Form::Nus(b)).wf(),
        equal_value(Form::Nus(a.add(b)), plain_sum(Form::Nus(a), Form::Nus(b))),
    decreases a.rank() + b.rank(),
{
    let c = a.add(b);
    let ga = Form::Nus(a);
    let gb = Form::Nus(b);
    let gc = Form::Nus(c);
    let p = plain_sum(ga, gb);
    a.number.lemma_add_scaled(b.number, a.number.exp + b.number.exp);
    a.lemma_options();
    b.lemma_options();
    c.lemma_options();
    ga.lemma_options();
    gb.lemma_options();
    gc.lemma_options();
    lemma_plain_options(ga, gb);
    p.lemma_options();
    lemma_ge_reflexive(ga);
    lemma_ge_reflexive(gb);
    // the options of the sum of games are the sums by parts with one option
    assert forall|i: int| 0 <= i < a.left().len() implies equal_value(
        Form::Nus(a.left()[i].add(b)),
        #[trigger] p.left()[i],
    ) by {
        assert(ga.left()[i] == Form::Nus(a.left()[i]));
        lemma_parts_sum(a.left()[i], b);
    }
    assert forall|i: int| 0 <= i < b.left().len() implies equal_value(
        Form::Nus(a.add(b.left()[i])),
        #[trigger] p.left()[a.left().len() + i],
    ) by {
        assert(gb.left()[i] == Form::Nus(b.left()[i]));
        lemma_parts_sum(a, b.left()[i]);
    }
    assert forall|i: int| 0 <= i < a.right().len() implies equal_value(
        Form::Nus(a.right()[i].add(b)),
        #[trigger] p.right()[i],
    ) by {
        assert(ga.right()[i] == Form::Nus(a.right()[i]));
        lemma_parts_sum(a.right()[i], b);
    }
    assert forall|i: int| 0 <= i < b.right().len() implies equal_value(
        Form::Nus(a.add(b.right()[i])),
        #[trigger] p.right()[a.right().len() + i],
    ) by {
        assert(gb.right()[i] == Form::Nus(b.right()[i]));
        lemma_parts_sum(a, b.right()[i]);
    }
    // no Left option of the sum of games is at least the sum by parts
    assert forall|i: int| 0 <= i < p.left().len() implies !ge(#[trigger] p.left()[i], gc) by {
        if ge(p.left()[i], gc) {
            if i < a.left().len() {
                let al = a.left()[i];
                al.number.lemma_add_scaled(b.number, al.number.exp + b.number.exp);
                lemma_ge_transitive(Form::Nus(al.add(b)), p.left()[i], gc);
                lemma_nus_ge(al.add(b), c);
                lemma_nus_ge_add(al, a, b);
                lemma_nus_ge(al, a);
                assert(ge(ga.left()[i], ga));
            } else {
                let j = i - a.left().len();
                let bl = b.left()[j];
                a.number.lemma_add_scaled(bl.number, a.number.exp + bl.number.exp);
                assert(equal_value(Form::Nus(a.add(bl)), p.left()[a.left().len() + j]));
                lemma_ge_transitive(Form::Nus(a.add(bl)), p.left()[i], gc);
                lemma_nus_ge(a.add(bl), c);
                bl.lemma_add_laws(a, a);
                b.lemma_add_laws(a, a);
                lemma_nus_ge_add(bl, b, a);
                lemma_nus_ge(bl, b);
                assert(ge(gb.left()[j], gb));
            }
        }
    }
    // no Right option of the sum of games is at most the sum by parts
    assert forall|i: int| 0 <= i < p.right().len() implies !ge(gc, #[trigger] p.right()[i]) by {
        if ge(gc, p.right()[i]) {
            if i < a.right().len() {
                let ar = a.right()[i];
                ar.number.lemma_add_scaled(b.number, ar.number.exp + b.number.exp);
                lemma_ge_transitive(gc, p.right()[i], Form::Nus(ar.add(b)));
                lemma_nus_ge(c, ar.add(b));
                lemma_nus_ge_add(a, ar, b);
                lemma_nus_ge(a, ar);
                assert(ge(ga, ga.right()[i]));
            } else {
                let j = i - a.right().len();
                let br = b.right()[j];
                a.number.lemma_add_scaled(br.number, a.number.exp + br.number.exp);
                assert(equal_value(Form::Nus(a.add(br)), p.right()[a.right().len() + j]));
                lemma_ge_transitive(gc, p.right()[i], Form::Nus(a.add(br)));
                lemma_nus_ge(c, a.add(br));
                br.lemma_add_laws(a, a);
                b.lemma_add_laws(a, a);
                lemma_nus_ge_add(b, br, a);
                lemma_nus_ge(b, br);
                assert(ge(gb, gb.right()[j]));
            }
        }
    }
    // every option of the sum by parts is matched by an option of the sum of games
    assert forall|k: int| 0 <= k < gc.right().len() implies !ge(p, #[trigger] gc.right()[k]) by {
        let cr = c.right()[k];
        assert(gc.right()[k] == Form::Nus(cr));
        lemma_right_witness(a, b, k);
        if exists|j: int| #[trigger] witness_first(a, b, cr, j) {
            let j = choose|j: int| #[trigger] witness_first(a, b, cr, j);
            let ar = a.right()[j];
            ar.number.lemma_add_scaled(b.number, ar.number.exp + b.number.exp);
            lemma_nus_ge(cr, ar.add(b));
            lemma_ge_transitive(Form::Nus(cr), Form::Nus(ar.add(b)), p.right()[j]);
            assert(ge(Form::Nus(cr), p.right()[j]));
        } else {
            let j = choose|j: int| #[trigger] witness_second(a, b, cr, j);
            let br = b.right()[j];
            a.number.lemma_add_scaled(br.number, a.number.exp + br.number.exp);
            lemma_nus_ge(cr, a.add(br));
            assert(equal_value(Form::Nus(a.add(br)), p.right()[a.right().len() + j]));
            lemma_ge_transitive(Form::Nus(cr), Form::Nus(a.add(br)), p.right()[a.right().len() + j]);
            assert(ge(Form::Nus(cr), p.right()[a.right().len() + j]));
        }
    }
    assert forall|k: int| 0 <= k < gc.left().len() implies !ge(#[trigger] gc.left()[k], p) by {
        let cl = c.left()[k];
        assert(gc.left()[k] == Form::Nus(cl));
        lemma_left_witness(a, b, k);
        if exists|j: int| #[trigger] left_witness_first(a, b, cl, j) {
            let j = choose|j: int| #[trigger] left_witness_first(a, b, cl, j);
            let al = a.left()[j];
            al.number.lemma_add_scaled(b.number, al.number.exp + b.number.exp);
            lemma_nus_ge(al.add(b), cl);
            lemma_ge_transitive(p.left()[j], Form::Nus(al.add(b)), Form::Nus(cl));
            assert(ge(p.left()[j], Form::Nus(cl)));
        } else {
            let j = choose|j: int| #[trigger] left_witness_second(a, b, cl, j);
            let bl = b.left()[j];
            a.number.lemma_add_scaled(bl.number, a.number.exp + bl.number.exp);
            lemma_nus_ge(a.add(bl), cl);
            assert(equal_value(Form::Nus(a.add(bl)), p.left()[a.left().len() + j]));
            lemma_ge_transitive(p.left()[a.left().len() + j], Form::Nus(a.add(bl)), Form::Nus(cl));
            assert(ge(p.left()[a.left().len() + j], Form::Nus(cl)));
        }
    }
}

} // verus!
