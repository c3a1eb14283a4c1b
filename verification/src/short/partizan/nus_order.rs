//! The order of number-up-stars, decided by their parts.

use crate::short::partizan::game_form::ge;
use crate::short::partizan::game_form::Form;
use crate::short::partizan::game_form::NumberUpStar;
use crate::short::partizan::number_order::left_number;
use crate::short::partizan::number_order::lemma_number_options;
use crate::short::partizan::number_order::lemma_numbers_differ;
use crate::short::partizan::number_order::right_number;
use vstd::prelude::*;

verus! {

/// The order of number-up-stars by their parts: the larger number part
/// decides; with the same number part, the multiple of up that is larger
/// by two or more, or by one unless the stars differ by one; with the same
/// multiple of up, only the same star.
pub open spec fn nus_ge(a: NumberUpStar, b: NumberUpStar) -> bool {
    if a.number != b.number {
        b.number.lt(a.number)
    } else {
        let d = a.ups - b.ups;
        d >= 2 || (d == 1 && (a.star ^ b.star) != 1) || (d == 0 && a.star == b.star)
    }
}

/// No Right option of `a` is at most `b`, by parts.
pub open spec fn right_free(a: NumberUpStar, b: NumberUpStar) -> bool {
    forall|i: int| 0 <= i < a.right().len() ==> !nus_ge(b, #[trigger] a.right()[i])
}

/// No Left option of `b` is at least `a`, by parts.
pub open spec fn left_free(a: NumberUpStar, b: NumberUpStar) -> bool {
    forall|j: int| 0 <= j < b.left().len() ==> !nus_ge(#[trigger] b.left()[j], a)
}

/// What the exclusive or of stars with one says.
pub proof fn lemma_star_bits(s: u32, t: u32)
    ensures
        (s ^ t) == 1 <==> t == (s ^ 1),
        (s ^ t) == 1 <==> s == (t ^ 1),
        ((s ^ 1) ^ t) == 1 <==> s == t,
        (s ^ (t ^ 1)) == 1 <==> s == t,
        (s ^ t) == 0 <==> s == t,
        (s ^ 1) != s,
        (s ^ 1) == 0 <==> s == 1,
        (s ^ 1) == 1 <==> s == 0,
        s ^ 0 == s,
        s ^ t == t ^ s,
{
    assert(((s ^ t) == 1 <==> t == (s ^ 1)) && ((s ^ t) == 1 <==> s == (t ^ 1)) && (((s ^ 1) ^ t)
        == 1 <==> s == t) && ((s ^ (t ^ 1)) == 1 <==> s == t) && ((s ^ t) == 0 <==> s == t) && (s
        ^ 1) != s && ((s ^ 1) == 0 <==> s == 1) && ((s ^ 1) == 1 <==> s == 0) && s ^ 0 == s && s
        ^ t == t ^ s) by (bit_vector);
}

/// The Right options of a number with a star, by parts: none of them is at
/// most `b`, with the same number, unless `b` has a larger multiple of up
/// or is one of them.
proof fn lemma_right_free_star(a: NumberUpStar, b: NumberUpStar)
    requires
        a.wf(),
        b.wf(),
        a.number == b.number,
        a.ups == 0,
        a.star >= 1,
    ensures
        right_free(a, b) <==> (b.ups <= 1 && (b.ups == 1 ==> a.star == 1 && b.star == 1) && (b.ups
            == 0 ==> b.star >= a.star)),
{
    let s = a.star;
    let t = b.star;
    lemma_star_bits(s, t);
    lemma_star_bits(t, 0);
    lemma_star_bits(t, 1);
    assert(a.right()[0] == a.with(0, 0));
    if s >= 2 {
        assert(a.right()[1] == a.with(0, 1));
    }
    if b.ups == 0 && t < s {
        assert(a.right()[t as int] == a.with(0, t));
    }
    if b.ups <= 1 && (b.ups == 1 ==> s == 1 && t == 1) && (b.ups == 0 ==> t >= s) {
        assert forall|i: int| 0 <= i < a.right().len() implies !nus_ge(b, #[trigger] a.right()[i]) by {
            assert(a.right()[i] == a.with(0, i as u32));
            lemma_star_bits(t, i as u32);
        }
    }
}

/// The Left options of a number with a star, by parts.
proof fn lemma_left_free_star(a: NumberUpStar, b: NumberUpStar)
    requires
        a.wf(),
        b.wf(),
        a.number == b.number,
        b.ups == 0,
        b.star >= 1,
    ensures
        left_free(a, b) <==> (a.ups >= -1 && (a.ups == -1 ==> a.star == 1 && b.star == 1) && (a.ups
            == 0 ==> a.star >= b.star)),
{
    let s = a.star;
    let t = b.star;
    lemma_star_bits(s, t);
    lemma_star_bits(s, 0);
    lemma_star_bits(s, 1);
    assert(b.left()[0] == b.with(0, 0));
    if t >= 2 {
        assert(b.left()[1] == b.with(0, 1));
    }
    if a.ups == 0 && s < t {
        assert(b.left()[s as int] == b.with(0, s));
    }
    if a.ups >= -1 && (a.ups == -1 ==> s == 1 && t == 1) && (a.ups == 0 ==> s >= t) {
        assert forall|j: int| 0 <= j < b.left().len() implies !nus_ge(#[trigger] b.left()[j], a) by {
            assert(b.left()[j] == b.with(0, j as u32));
            lemma_star_bits(j as u32, s);
        }
    }
}

/// The order by parts obeys the definition of the order of games:
/// `a >= b` unless a Right option of `a` is at most `b` or a Left option of
/// `b` is at least `a`.
pub proof fn lemma_nus_ge_unfold(a: NumberUpStar, b: NumberUpStar)
    requires
        a.wf(),
        b.wf(),
        a.number == b.number,
    ensures
        nus_ge(a, b) <==> (right_free(a, b) && left_free(a, b)),
{
    let x = a.number;
    let s = a.star;
    let t = b.star;
    lemma_star_bits(s, t);
    lemma_star_bits(t, s);
    lemma_star_bits(s, 0);
    lemma_star_bits(t, 0);
    lemma_star_bits(s, 1);
    lemma_star_bits(t, 1);
    lemma_number_options(x);
    // the Right options of `a`
    if a.is_number() {
        assert forall|i: int| 0 <= i < a.right().len() implies !nus_ge(b, #[trigger] a.right()[i]) by {
            assert(a.right()[i] == NumberUpStar::of_number(right_number(x)));
            x.lemma_order_transitive(right_number(x), right_number(x));
        }
    } else if a.ups == 0 {
        lemma_right_free_star(a, b);
    } else {
        assert(a.right().len() >= 1);
        if a.ups == -1 && s == 1 {
            assert(a.right()[0] == a.with(0, 0) && a.right()[1] == a.with(0, 1));
        } else if a.ups < 0 {
            assert(a.right()[0] == a.with(0, 0));
        } else {
            assert(a.right()[0] == a.with(a.ups - 1, s ^ 1));
            lemma_star_bits(t, s ^ 1);
        }
    }
    // the Left options of `b`
    if b.is_number() {
        assert forall|j: int| 0 <= j < b.left().len() implies !nus_ge(#[trigger] b.left()[j], a) by {
            assert(b.left()[j] == NumberUpStar::of_number(left_number(x)));
            left_number(x).lemma_order_transitive(x, x);
        }
    } else if b.ups == 0 {
        lemma_left_free_star(a, b);
    } else {
        assert(b.left().len() >= 1);
        if b.ups == 1 && t == 1 {
            assert(b.left()[0] == b.with(0, 0) && b.left()[1] == b.with(0, 1));
        } else if b.ups > 0 {
            assert(b.left()[0] == b.with(0, 0));
        } else {
            assert(b.left()[0] == b.with(b.ups + 1, t ^ 1));
            lemma_star_bits(t ^ 1, s);
        }
    }
}

/// The order of number-up-stars is the order by parts.
pub proof fn lemma_nus_ge(a: NumberUpStar, b: NumberUpStar)
    requires
        a.wf(),
        b.wf(),
    ensures
        ge(Form::Nus(a), Form::Nus(b)) == nus_ge(a, b),
    decreases a.rank() + b.rank(),
{
    let ga = Form::Nus(a);
    let gb = Form::Nus(b);
    a.lemma_options();
    b.lemma_options();
    ga.lemma_options();
    gb.lemma_options();
    if a.number != b.number {
        a.number.lemma_order_transitive(b.number, b.number);
        b.number.lemma_order_transitive(a.number, a.number);
        if a.number.lt(b.number) {
            lemma_numbers_differ(a, b);
        } else {
            lemma_numbers_differ(b, a);
        }
    } else {
        lemma_nus_ge_unfold(a, b);
        assert forall|i: int| 0 <= i < a.right().len() implies ge(gb, #[trigger] ga.right()[i])
            == nus_ge(b, a.right()[i]) by {
            assert(ga.right()[i] == Form::Nus(a.right()[i]));
            lemma_nus_ge(b, a.right()[i]);
        }
        assert forall|j: int| 0 <= j < b.left().len() implies ge(#[trigger] gb.left()[j], ga)
            == nus_ge(b.left()[j], a) by {
            assert(gb.left()[j] == Form::Nus(b.left()[j]));
            lemma_nus_ge(b.left()[j], a);
        }
        if right_free(a, b) && left_free(a, b) {
            assert forall|i: int| 0 <= i < ga.right().len() implies !ge(gb, #[trigger] ga.right()[i]) by {
                assert(!nus_ge(b, a.right()[i]));
            }
            assert forall|j: int| 0 <= j < gb.left().len() implies !ge(#[trigger] gb.left()[j], ga) by {
                assert(!nus_ge(b.left()[j], a));
            }
        }
        if ge(ga, gb) {
            assert forall|i: int| 0 <= i < a.right().len() implies !nus_ge(
                b,
                #[trigger] a.right()[i],
            ) by {
                assert(!ge(gb, ga.right()[i]));
            }
            assert forall|j: int| 0 <= j < b.left().len() implies !nus_ge(
                #[trigger] b.left()[j],
                a,
            ) by {
                assert(!ge(gb.left()[j], ga));
            }
        }
    }
}

} // verus!
