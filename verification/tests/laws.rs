use cgt::numeric::dyadic_rational_number::DyadicRationalNumber;
use cgt::numeric::nimber::Nimber;
use cgt::short::partizan::canonical_form::CanonicalForm;
use cgt::short::partizan::canonical_form::Moves;
use cgt::short::partizan::canonical_form::Nus;

fn number(p: i64, q: u32) -> CanonicalForm {
    CanonicalForm::new_rational(DyadicRationalNumber::new(p, q))
}

fn parts(p: i64, q: u32, ups: i32, star: u32) -> CanonicalForm {
    CanonicalForm::new_nus(Nus::new(DyadicRationalNumber::new(p, q), ups, Nimber::new(star)))
}

fn options(left: Vec<CanonicalForm>, right: Vec<CanonicalForm>) -> CanonicalForm {
    CanonicalForm::from_moves(Moves { left, right })
}

fn plus(g: &CanonicalForm, h: &CanonicalForm) -> CanonicalForm {
    CanonicalForm::sum(g, h)
}

/// Numbers, infinitesimals, switches and games whose options are such games.
fn games() -> Vec<CanonicalForm> {
    let switch = options(vec![number(1, 0)], vec![number(-1, 0)]);
    let tiny = options(vec![number(0, 0)], vec![options(vec![number(0, 0)], vec![number(-2, 0)])]);
    vec![
        number(0, 0),
        number(1, 0),
        number(-3, 2),
        parts(0, 0, 0, 1),
        parts(0, 0, 0, 2),
        parts(0, 0, 1, 0),
        parts(0, 0, -1, 1),
        parts(1, 1, 2, 3),
        options(vec![number(2, 0)], vec![parts(0, 0, 0, 1)]),
        options(vec![switch.clone(), number(0, 0)], vec![number(-2, 0)]),
        switch,
        tiny,
    ]
}

#[test]
fn zero_is_neutral_and_the_negative_is_the_inverse() {
    let zero = CanonicalForm::zero();
    for g in games() {
        assert_eq!(plus(&g, &zero), g);
        assert_eq!(plus(&zero, &g), g);
        assert_eq!(plus(&g, &g.neg()), zero);
        assert_eq!(CanonicalForm::difference(&g, &g), zero);
        assert_eq!(g.neg().neg(), g);
    }
}

#[test]
fn sum_is_commutative_and_the_negative_goes_through() {
    let all = games();
    for g in &all {
        for h in &all {
            let s = plus(g, h);
            assert_eq!(s, plus(h, g));
            assert_eq!(s.neg(), plus(&g.neg(), &h.neg()));
            assert_eq!(CanonicalForm::difference(g, h), plus(g, &h.neg()));
        }
    }
}

#[test]
fn sum_is_associative() {
    let all = games();
    for g in &all {
        for h in &all {
            let s = plus(g, h);
            for k in &all[3..] {
                assert_eq!(plus(&s, k), plus(g, &plus(h, k)));
            }
        }
    }
}

#[test]
fn order_is_reflexive_and_transitive() {
    let all = games();
    for g in &all {
        assert!(g.geq(g) && g.leq(g));
        for h in &all {
            assert_eq!(g.geq(h), h.leq(g));
            // each at least the other one: the same form
            assert_eq!(g.geq(h) && h.geq(g), g == h);
            assert_eq!(g.equals(h), g == h);
            // the order is that of the difference and zero
            assert_eq!(g.geq(h), CanonicalForm::difference(g, h).geq(&CanonicalForm::zero()));
            for k in &all {
                if g.geq(h) && h.geq(k) {
                    assert!(g.geq(k));
                }
            }
        }
    }
}

#[test]
fn the_same_value_is_the_same_form() {
    let up = parts(0, 0, 1, 0);
    let star = parts(0, 0, 0, 1);
    // up, built from its options, with an option that is dominated, and
    // with one that is reversible
    let first = options(vec![number(0, 0)], vec![star.clone()]);
    let second = options(vec![number(0, 0), number(-1, 0)], vec![star.clone(), number(1, 0)]);
    let third = options(vec![number(0, 0), parts(0, 0, -1, 1)], vec![star.clone()]);
    assert_eq!(first, up);
    assert_eq!(second, up);
    assert_eq!(third, up);
    // the order of the options does not count
    let a = options(vec![number(0, 0), star.clone()], vec![number(-1, 0), parts(-1, 0, 0, 1)]);
    let b = options(vec![star.clone(), number(0, 0)], vec![parts(-1, 0, 0, 1), number(-1, 0)]);
    assert_eq!(a, b);
    assert_eq!(a.to_string(), b.to_string());
}
