use cgt::numeric::dyadic_rational_number::DyadicRationalNumber;
use cgt::numeric::nimber::Nimber;
use cgt::short::partizan::canonical_form::CanonicalForm;
use cgt::short::partizan::canonical_form::Moves;
use cgt::short::partizan::canonical_form::Nus;
use cgt::short::partizan::game_form::Order;

fn integer(n: i64) -> CanonicalForm {
    CanonicalForm::new_integer(n)
}

fn dyadic(p: i64, q: u32) -> CanonicalForm {
    CanonicalForm::new_rational(DyadicRationalNumber::new(p, q))
}

fn nus(p: i64, q: u32, ups: i32, star: u32) -> CanonicalForm {
    CanonicalForm::new_nus(Nus::new(DyadicRationalNumber::new(p, q), ups, Nimber::new(star)))
}

fn star(k: u32) -> CanonicalForm {
    nus(0, 0, 0, k)
}

fn game(left: Vec<CanonicalForm>, right: Vec<CanonicalForm>) -> CanonicalForm {
    CanonicalForm::from_moves(Moves { left, right })
}

#[test]
fn zero_and_zero_is_star() {
    assert_eq!(game(vec![integer(0)], vec![integer(0)]), star(1));
}

#[test]
fn zero_and_star_is_up() {
    assert_eq!(game(vec![integer(0)], vec![star(1)]), nus(0, 0, 1, 0));
}

#[test]
fn zero_star_and_zero_is_up_star() {
    assert_eq!(game(vec![integer(0), star(1)], vec![integer(0)]), nus(0, 0, 1, 1));
    assert_eq!(game(vec![star(1), integer(0)], vec![integer(0)]), nus(0, 0, 1, 1));
}

#[test]
fn simplest_number_between_minus_one_and_one_is_zero() {
    assert_eq!(game(vec![integer(-1)], vec![integer(1)]), integer(0));
}

#[test]
fn zero_and_one_is_one_half() {
    assert_eq!(game(vec![integer(0)], vec![integer(1)]), dyadic(1, 1));
}

#[test]
fn number_up_star_sums() {
    assert_eq!(CanonicalForm::sum(&nus(0, 0, 3, 0), &nus(0, 0, -3, 0)), integer(0));
    assert_eq!(CanonicalForm::sum(&star(1), &star(1)), integer(0));
    assert_eq!(CanonicalForm::sum(&star(2), &star(3)), star(1));
}

#[test]
fn simplicity_far_apart() {
    assert_eq!(game(vec![integer(-5)], vec![integer(7)]), integer(0));
    assert_eq!(game(vec![integer(2)], vec![integer(7)]), integer(3));
    assert_eq!(game(vec![dyadic(1, 2)], vec![integer(1)]), dyadic(1, 1));
    assert_eq!(game(vec![dyadic(1, 1)], vec![]), integer(1));
    assert_eq!(game(vec![], vec![]), integer(0));
    assert_eq!(game(vec![integer(3)], vec![]), integer(4));
    assert_eq!(game(vec![], vec![integer(-3)]), integer(-4));
}

#[test]
fn dominated_options_leave() {
    assert_eq!(game(vec![integer(0), integer(-3), integer(-1)], vec![integer(1), integer(5)]), dyadic(1, 1));
}

#[test]
fn nim_heaps_by_mex() {
    assert_eq!(game(vec![star(0), star(2)], vec![star(0), star(2)]), star(1));
    assert_eq!(game(vec![star(0), star(1)], vec![star(0), star(1)]), star(2));
    assert_eq!(game(vec![star(1), star(0), star(2)], vec![star(2), star(0), star(1)]), star(3));
}

#[test]
fn switch_stays_a_game_with_options() {
    let switch = game(vec![integer(1)], vec![integer(-1)]);
    assert_eq!(switch.to_nus(), None);
    assert_eq!(switch.left_options(), vec![integer(1)]);
    assert_eq!(switch.right_options(), vec![integer(-1)]);
    assert!(!switch.geq(&integer(0)));
    assert!(!switch.leq(&integer(0)));
    assert!(!switch.leq(&integer(1)));
    assert!(!switch.geq(&integer(-1)));
    assert!(switch.leq(&integer(2)));
    assert!(switch.geq(&integer(-2)));
    // a switch is its own negative
    assert_eq!(switch.neg(), switch);
    assert_eq!(CanonicalForm::sum(&switch, &switch), integer(0));
    assert_eq!(CanonicalForm::sum(&switch, &integer(0)), switch);
    assert_eq!(CanonicalForm::difference(&switch, &switch), integer(0));
}

#[test]
fn order_of_number_up_stars() {
    assert!(nus(0, 0, 1, 0).geq(&integer(0)));
    assert!(!integer(0).geq(&nus(0, 0, 1, 0)));
    assert!(!nus(0, 0, 1, 1).geq(&integer(0)));
    assert!(!integer(0).geq(&nus(0, 0, 1, 1)));
    assert!(nus(0, 0, 2, 1).geq(&integer(0)));
    assert!(dyadic(1, 1).geq(&nus(0, 0, 5, 3)));
    assert!(dyadic(3, 2).geq(&dyadic(1, 1)));
    assert!(!dyadic(1, 1).geq(&dyadic(3, 2)));
    assert!(!star(2).geq(&star(1)));
    assert!(star(2).geq(&star(2)));
}

#[test]
fn expansions_collapse_again() {
    let values = vec![
        integer(0),
        integer(4),
        integer(-3),
        dyadic(3, 3),
        dyadic(-5, 2),
        star(1),
        star(4),
        nus(1, 1, 0, 2),
        nus(0, 0, 1, 0),
        nus(0, 0, 1, 1),
        nus(0, 0, -1, 1),
        nus(0, 0, 2, 0),
        nus(0, 0, 3, 2),
        nus(3, 1, -2, 1),
        nus(-1, 0, -4, 0),
    ];
    for value in values {
        let left = value.left_options();
        let right = value.right_options();
        assert_eq!(game(left, right), value);
        assert_eq!(value.to_nus().map(CanonicalForm::new_nus), Some(value.clone()));
        assert_eq!(value.neg().neg(), value);
        assert_eq!(CanonicalForm::sum(&value, &value.neg()), integer(0));
    }
}

#[test]
fn sums_of_games_with_options() {
    let switch = game(vec![integer(1)], vec![integer(-1)]);
    let up = nus(0, 0, 1, 0);
    // {1 | -1} + 1 = {2 | 0}
    assert_eq!(CanonicalForm::sum(&switch, &integer(1)), game(vec![integer(2)], vec![integer(0)]));
    assert_eq!(CanonicalForm::sum(&integer(1), &switch), game(vec![integer(2)], vec![integer(0)]));
    // up + up = double up, up + star = up star
    assert_eq!(CanonicalForm::sum(&up, &up), nus(0, 0, 2, 0));
    assert_eq!(CanonicalForm::sum(&up, &star(1)), nus(0, 0, 1, 1));
    assert_eq!(CanonicalForm::sum(&dyadic(1, 1), &dyadic(1, 2)), dyadic(3, 2));
    // built from options: {0 | up star} = double up
    assert_eq!(game(vec![integer(0)], vec![nus(0, 0, 1, 1)]), nus(0, 0, 2, 0));
    // {1 | 1} = 1 + star
    assert_eq!(game(vec![integer(1)], vec![integer(1)]), nus(1, 0, 0, 1));
}

#[test]
fn compare_lists_forms() {
    assert_eq!(integer(0).compare(&integer(1)), Order::Less);
    assert_eq!(integer(1).compare(&integer(1)), Order::Equal);
    assert_eq!(star(2).compare(&star(1)), Order::Greater);
    let switch = game(vec![integer(1)], vec![integer(-1)]);
    assert_eq!(integer(5).compare(&switch), Order::Less);
    assert_eq!(switch.compare(&integer(5)), Order::Greater);
    assert!(switch.equals(&switch.clone()));
    assert!(!switch.equals(&integer(0)));
}

#[test]
fn numbers_far_from_zero() {
    // the simplest number between two large numbers is found at once
    assert_eq!(
        game(vec![integer(1_000_000_000)], vec![integer(2_000_000_000)]),
        integer(1_000_000_001)
    );
    assert_eq!(
        game(vec![integer(3), dyadic(7, 1), integer(-2)], vec![dyadic(15, 2), integer(9)]),
        dyadic(29, 3)
    );
    assert!(integer(1_000_000_000).geq(&integer(999_999_999)));
    assert!(!integer(999_999_999).geq(&integer(1_000_000_000)));
    assert!(nus(1_000_000, 0, 2, 1).geq(&nus(999_999, 0, -5, 3)));
    assert!(!nus(999_999, 0, 3, 0).geq(&integer(1_000_000)));
}

#[test]
fn written_out_and_back() {
    let switch = game(vec![integer(1)], vec![integer(-1)]);
    let moves = switch.to_moves();
    assert_eq!(moves.left, vec![integer(1)]);
    assert_eq!(moves.right, vec![integer(-1)]);
    assert_eq!(CanonicalForm::from_moves(moves), switch);
    let up_star = nus(0, 0, 1, 1);
    let moves = up_star.to_moves();
    assert_eq!(moves.left, vec![integer(0), star(1)]);
    assert_eq!(moves.right, vec![integer(0)]);
    assert_eq!(CanonicalForm::from_moves(moves.clone()), up_star);
    assert_eq!(CanonicalForm::from_moves(moves), up_star);
    assert_eq!(dyadic(3, 2).left_options(), vec![dyadic(1, 1)]);
    assert_eq!(dyadic(3, 2).right_options(), vec![integer(1)]);
    assert_eq!(nus(0, 0, 3, 2).right_options(), vec![nus(0, 0, 2, 3)]);
    assert_eq!(nus(0, 0, -1, 0).left_options(), vec![star(1)]);
}

#[test]
fn reversible_options_are_bypassed() {
    // {0, {1 | -1} | } : the switch is reversible through -1
    let switch = game(vec![integer(1)], vec![integer(-1)]);
    assert_eq!(game(vec![switch.clone()], vec![]), integer(0));
    // {* | } = 0 and {up | down} = *
    assert_eq!(game(vec![star(1)], vec![]), integer(0));
    assert_eq!(game(vec![nus(0, 0, 1, 0)], vec![nus(0, 0, -1, 0)]), star(1));
    // tiny and miny are games given by their options
    let tiny = game(vec![integer(0)], vec![game(vec![integer(0)], vec![integer(-2)])]);
    assert_eq!(tiny.to_nus(), None);
    assert!(tiny.geq(&integer(0)));
    assert!(!integer(0).geq(&tiny));
    assert!(nus(0, 0, 1, 0).geq(&tiny));
    assert_eq!(CanonicalForm::sum(&tiny, &tiny.neg()), integer(0));
    assert_eq!(
        CanonicalForm::sum(&tiny, &switch),
        CanonicalForm::sum(&switch, &tiny)
    );
    let three = CanonicalForm::sum(&CanonicalForm::sum(&tiny, &switch), &star(2));
    assert_eq!(three, CanonicalForm::sum(&tiny, &CanonicalForm::sum(&switch, &star(2))));
    assert_eq!(
        CanonicalForm::sum(&tiny, &switch).neg(),
        CanonicalForm::sum(&tiny.neg(), &switch.neg())
    );
}

#[test]
fn notation_of_game_values() {
    assert_eq!(integer(0).to_string(), "0");
    assert_eq!(integer(-12).to_string(), "-12");
    assert_eq!(dyadic(1, 1).to_string(), "1/2");
    assert_eq!(dyadic(-5, 3).to_string(), "-5/8");
    assert_eq!(star(1).to_string(), "*");
    assert_eq!(star(2).to_string(), "*2");
    assert_eq!(nus(0, 0, 1, 0).to_string(), "↑");
    assert_eq!(nus(0, 0, 1, 1).to_string(), "↑*");
    assert_eq!(nus(0, 0, -1, 0).to_string(), "↓");
    assert_eq!(nus(0, 0, 3, 2).to_string(), "↑3*2");
    assert_eq!(nus(0, 0, -2, 1).to_string(), "↓2*");
    assert_eq!(nus(1, 0, 0, 1).to_string(), "1*");
    assert_eq!(nus(3, 2, -1, 0).to_string(), "3/4↓");
    assert_eq!(game(vec![integer(1)], vec![integer(-1)]).to_string(), "{1 | -1}");
    let tiny = game(vec![integer(0)], vec![game(vec![integer(0)], vec![integer(-2)])]);
    assert_eq!(tiny.to_string(), "{0 | {0 | -2}}");
    let two_left = game(vec![integer(3), game(vec![integer(5)], vec![integer(2)])], vec![integer(-4)]);
    assert_eq!(two_left.to_string(), "{3, {5 | 2} | -4}");
}
