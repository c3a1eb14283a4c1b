use cgt::short::partizan::canonical_form::CanonicalForm;
use cgt::short::partizan::canonical_form::Moves;

/// A board of Domineering: `cells[y][x]` says whether the cell is free.
fn value(cells: &Vec<Vec<bool>>) -> CanonicalForm {
    let height = cells.len();
    let width = if height == 0 { 0 } else { cells[0].len() };
    let mut left = Vec::new();
    let mut right = Vec::new();
    for y in 0..height {
        for x in 0..width {
            // Left places vertical dominoes
            if y + 1 < height && cells[y][x] && cells[y + 1][x] {
                let mut next = cells.clone();
                next[y][x] = false;
                next[y + 1][x] = false;
                left.push(value(&next));
            }
            // Right places horizontal dominoes
            if x + 1 < width && cells[y][x] && cells[y][x + 1] {
                let mut next = cells.clone();
                next[y][x] = false;
                next[y][x + 1] = false;
                right.push(value(&next));
            }
        }
    }
    CanonicalForm::from_moves(Moves { left, right })
}

#[test]
fn domineering_two_by_two_is_a_switch() {
    let board = vec![vec![true, true], vec![true, true]];
    let switch = CanonicalForm::from_moves(Moves {
        left: vec![CanonicalForm::new_integer(1)],
        right: vec![CanonicalForm::new_integer(-1)],
    });
    assert_eq!(value(&board), switch);
    assert_eq!(switch.left_options(), vec![CanonicalForm::new_integer(1)]);
    assert_eq!(switch.right_options(), vec![CanonicalForm::new_integer(-1)]);
    assert_eq!(switch.to_nus(), None);
}

#[test]
fn domineering_small_boards() {
    // a column of two cells is worth one move to Left
    assert_eq!(value(&vec![vec![true], vec![true]]), CanonicalForm::new_integer(1));
    assert_eq!(value(&vec![vec![true, true]]), CanonicalForm::new_integer(-1));
    assert_eq!(value(&vec![vec![true]]), CanonicalForm::new_integer(0));
    // a column of four cells: one move in the middle, or two
    assert_eq!(
        value(&vec![vec![true], vec![true], vec![true], vec![true]]),
        CanonicalForm::new_integer(2)
    );
}
