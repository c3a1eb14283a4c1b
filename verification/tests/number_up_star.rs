use cgt::numeric::dyadic_rational_number::DyadicRationalNumber;
use cgt::numeric::nimber::Nimber;
use cgt::short::partizan::canonical_form::CanonicalForm;
use cgt::short::partizan::canonical_form::Moves;
use cgt::short::partizan::canonical_form::Nus;

fn samples() -> Vec<Nus> {
    let mut all = Vec::new();
    for (p, q) in [(0i64, 0u32), (1, 0), (-1, 0), (1, 1), (-3, 2)] {
        for ups in -3i32..=3 {
            for star in 0u32..=3 {
                all.push(Nus::new(DyadicRationalNumber::new(p, q), ups, Nimber::new(star)));
            }
        }
    }
    all
}

/// The order of number-up-stars by their parts.
fn at_least(a: &Nus, b: &Nus) -> bool {
    if a.number() != b.number() {
        return b.number().lt(&a.number());
    }
    let d = a.up_multiple() as i64 - b.up_multiple() as i64;
    let stars = a.nimber().value() ^ b.nimber().value();
    d >= 2 || (d == 1 && stars != 1) || (d == 0 && stars == 0)
}

#[test]
fn order_of_number_up_stars_by_parts() {
    let all = samples();
    for a in &all {
        for b in &all {
            let ga = CanonicalForm::new_nus(*a);
            let gb = CanonicalForm::new_nus(*b);
            assert_eq!(ga.geq(&gb), at_least(a, b), "{:?} >= {:?}", a, b);
        }
    }
}

#[test]
fn sum_of_number_up_stars_by_options() {
    let all = samples();
    for a in &all {
        for b in &all {
            let ga = CanonicalForm::new_nus(*a);
            let gb = CanonicalForm::new_nus(*b);
            let mut left = Vec::new();
            let mut right = Vec::new();
            for option in ga.left_options() {
                left.push(CanonicalForm::sum(&option, &gb));
            }
            for option in gb.left_options() {
                left.push(CanonicalForm::sum(&ga, &option));
            }
            for option in ga.right_options() {
                right.push(CanonicalForm::sum(&option, &gb));
            }
            for option in gb.right_options() {
                right.push(CanonicalForm::sum(&ga, &option));
            }
            // every option of the sum by parts is matched by a sum of options
            let by_parts = CanonicalForm::sum(&ga, &gb);
            for option in by_parts.left_options() {
                assert!(left.iter().any(|l| l.geq(&option)), "{:?} + {:?}", a, b);
            }
            for option in by_parts.right_options() {
                assert!(right.iter().any(|r| option.geq(r)), "{:?} + {:?}", a, b);
            }
            assert_eq!(CanonicalForm::from_moves(Moves { left, right }), by_parts);
        }
    }
}

/// The order of games by their options alone.
fn at_least_by_options(g: &CanonicalForm, h: &CanonicalForm) -> bool {
    for option in g.right_options() {
        if at_least_by_options(h, &option) {
            return false;
        }
    }
    for option in h.left_options() {
        if at_least_by_options(&option, g) {
            return false;
        }
    }
    true
}

#[test]
fn order_by_parts_agrees_with_order_by_options() {
    let mut all = Vec::new();
    for (p, q) in [(0i64, 0u32), (1, 1), (-1, 0)] {
        for ups in -2i32..=2 {
            for star in 0u32..=2 {
                all.push(Nus::new(DyadicRationalNumber::new(p, q), ups, Nimber::new(star)));
            }
        }
    }
    for a in &all {
        for b in &all {
            let ga = CanonicalForm::new_nus(*a);
            let gb = CanonicalForm::new_nus(*b);
            assert_eq!(a.geq(b), at_least_by_options(&ga, &gb), "{:?} >= {:?}", a, b);
            assert_eq!(ga.geq(&gb), a.geq(b));
        }
    }
}

#[test]
fn up_and_star_are_confused() {
    let up = Nus::new(DyadicRationalNumber::new_integer(0), 1, Nimber::new(0));
    let star = Nus::new_nimber(Nimber::new(1));
    let two_stars = Nus::new_nimber(Nimber::new(2));
    assert!(!up.geq(&star));
    assert!(!star.geq(&up));
    assert!(up.geq(&two_stars));
    assert!(!two_stars.geq(&up));
}
