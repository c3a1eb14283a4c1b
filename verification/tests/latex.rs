use cgt::latex::rank;
use cgt::latex::reaches;
use cgt::latex::table;
use cgt::latex::Entry;
use cgt::numeric::dyadic_rational_number::DyadicRationalNumber;
use cgt::numeric::rational::Rational;

fn entry(image: &str, temperature: (i64, u32), degree: usize, fitness: (i64, i64)) -> Entry {
    Entry {
        image: image.to_string(),
        temperature: DyadicRationalNumber::new(temperature.0, temperature.1),
        degree,
        fitness: Rational::new(fitness.0, fitness.1).unwrap(),
    }
}

fn images(entries: &Vec<Entry>) -> Vec<String> {
    entries.iter().map(|entry| entry.image.clone()).collect()
}

#[test]
fn table_of_three_entries_in_two_columns() {
    let entries = vec![
        entry("out0.svg", (5, 1), 3, (7, 1)),
        entry("out1.svg", (2, 0), 4, (13, 2)),
        entry("out2.svg", (1, 0), 2, (6, 1)),
    ];
    let text = table(&entries, 2, "4cm");
    let expected = "\\begin{longtabu}{m{4cm} m{0.75cm} m{0.75cm} m{1.25cm}|m{4cm} m{0.75cm} m{0.75cm} m{1.25cm}} \n\
\\hline Position & Temp. & Degree & Fitness& Position & Temp. & Degree & Fitness\\\\ \\hline \\endhead\n\
\\includegraphics[width=4cm]{out0.svg} & $5/2$ & $3$ & $7$ & \\includegraphics[width=4cm]{out1.svg} & $2$ & $4$ & $13/2$ \\\\\n\
\\includegraphics[width=4cm]{out2.svg} & $1$ & $2$ & $6$ \\\\\n\
\\end{longtabu}\n";
    assert_eq!(text, expected);
}

#[test]
fn table_without_entries() {
    let text = table(&vec![], 1, "2cm");
    assert_eq!(
        text,
        "\\begin{longtabu}{m{2cm} m{0.75cm} m{0.75cm} m{1.25cm}} \n\\hline Position & Temp. & Degree & Fitness\\\\ \\hline \\endhead\n\\end{longtabu}\n"
    );
}

#[test]
fn table_with_full_rows() {
    let entries = vec![entry("a", (1, 0), 2, (3, 1)), entry("b", (4, 0), 5, (6, 1))];
    let text = table(&entries, 1, "1cm");
    assert!(text.contains("{a} & $1$ & $2$ & $3$ \\\\\n\\includegraphics[width=1cm]{b} & $4$ & $5$ & $6$ \\\\\n\\end{longtabu}\n"));
}

#[test]
fn table_with_negative_numbers() {
    let entries = vec![entry("a", (-3, 2), 10, (-5, 3))];
    let text = table(&entries, 3, "1cm");
    assert!(text.contains("\\includegraphics[width=1cm]{a} & $-3/4$ & $10$ & $-5/3$ \\\\\n"));
}

#[test]
fn higher_fitness_comes_first() {
    let entries = vec![
        entry("a", (0, 0), 1, (1, 2)),
        entry("b", (0, 0), 1, (3, 1)),
        entry("c", (0, 0), 1, (-2, 1)),
        entry("d", (0, 0), 1, (2, 3)),
    ];
    assert_eq!(images(&rank(entries)), vec!["b", "d", "a", "c"]);
}

#[test]
fn of_the_same_fitness_the_later_one_comes_first() {
    let entries = vec![
        entry("a", (0, 0), 1, (1, 2)),
        entry("b", (0, 0), 1, (5, 1)),
        entry("c", (0, 0), 1, (2, 4)),
        entry("d", (0, 0), 1, (1, 2)),
    ];
    assert_eq!(images(&rank(entries)), vec!["b", "d", "c", "a"]);
    assert!(rank(vec![]).is_empty());
}

#[test]
fn fitness_at_the_bound_is_wanted() {
    let half = Rational::new(1, 2).unwrap();
    let third = Rational::new(1, 3).unwrap();
    assert!(reaches(&half, &None));
    assert!(reaches(&half, &Some(third)));
    assert!(reaches(&half, &Some(half)));
    assert!(!reaches(&third, &Some(half)));
}

#[test]
fn rationals_in_lowest_terms() {
    let x = Rational::new(6, -4).unwrap();
    assert_eq!(x.numerator(), -3);
    assert_eq!(x.denominator(), 2);
    assert_eq!(x.to_string(), "-3/2");
    assert_eq!(Rational::new(0, 5).unwrap(), Rational::new_integer(0));
    assert_eq!(Rational::new(0, -5).unwrap().to_string(), "0");
    assert_eq!(Rational::new(-8, -2).unwrap().to_string(), "4");
    assert_eq!(Rational::new(i64::MAX, i64::MAX).unwrap(), Rational::new_integer(1));
    assert_eq!(Rational::new(21, 14), Rational::new(3, 2));
    assert!(Rational::new(1, 0).is_none());
    assert!(Rational::new(i64::MIN, 1).is_none());
    assert!(Rational::new(1, i64::MIN).is_none());
}

#[test]
fn order_of_rationals() {
    let minus_half = Rational::new(-1, 2).unwrap();
    let third = Rational::new(1, 3).unwrap();
    let half = Rational::new(1, 2).unwrap();
    let large = Rational::new(i64::MAX, 1).unwrap();
    let small = Rational::new(1, i64::MAX).unwrap();
    assert!(minus_half.lt(&third) && third.lt(&half) && half.lt(&large));
    assert!(!half.lt(&half) && half.le(&half) && half.equals(&half));
    assert!(!half.lt(&third) && !half.le(&third) && !half.equals(&third));
    assert!(small.lt(&large) && !large.lt(&small) && small.lt(&third));
}

#[test]
fn dyadic_numbers_as_text() {
    assert_eq!(DyadicRationalNumber::new(-6, 3).to_string(), "-3/4");
    assert_eq!(DyadicRationalNumber::new(12, 2).to_string(), "3");
    assert_eq!(DyadicRationalNumber::new(0, 7).to_string(), "0");
}
