use cgt::graph::undirected::UndirectedGraph;
use cgt::graph::Graph;
use cgt::numeric::dyadic_rational_number::DyadicRationalNumber;
use cgt::numeric::nimber::Nimber;
use cgt::short::partizan::canonical_form::CanonicalForm;
use cgt::short::partizan::canonical_form::Nus;
use cgt::short::partizan::games::snort::Position;
use cgt::short::partizan::games::snort::VertexColor;
use cgt::short::partizan::partizan_game::canonical_form_of;
use cgt::short::partizan::transposition_table::TranspositionTable;

#[test]
fn decomposition_works() {
    assert_eq!(
        Position::new(UndirectedGraph::from_edges(3, &[(0, 1), (0, 2), (1, 2)])).decompositions(),
        vec![Position::new(UndirectedGraph::from_edges(
            3,
            &[(0, 1), (0, 2), (1, 2)]
        ))]
    );
}

#[test]
fn no_moves() {
    let position = Position::new(UndirectedGraph::empty(0));
    assert_eq!(position.left_moves(), vec![]);
    assert_eq!(position.right_moves(), vec![]);
}

#[test]
fn decomposition_of_two_components() {
    assert_eq!(
        Position::new(UndirectedGraph::from_edges(5, &[(0, 1), (0, 2), (1, 2), (3, 4)]))
            .decompositions(),
        vec![
            Position::new(UndirectedGraph::from_edges(3, &[(0, 1), (0, 2), (1, 2)])),
            Position::new(UndirectedGraph::from_edges(2, &[(0, 1)]))
        ]
    );
}

#[test]
fn decomposition_lists_vertices_in_search_order() {
    // path 0 - 2 - 1: the search from 0 finds 2 before 1
    let position = Position::new(UndirectedGraph::from_edges(3, &[(0, 2), (2, 1)]));
    let parts = position.decompositions();
    assert_eq!(
        parts,
        vec![Position::new(UndirectedGraph::from_edges(3, &[(0, 1), (1, 2)]))]
    );
    // a component falls into no further components
    assert_eq!(parts[0].decompositions(), parts);
}

#[test]
fn decomposition_leaves_taken_vertices_out() {
    let graph = UndirectedGraph::from_edges(3, &[(0, 1)]);
    let colors = vec![VertexColor::Empty, VertexColor::TintLeft, VertexColor::Taken];
    let position = Position::with_colors(colors, graph).unwrap();
    let parts = position.decompositions();
    assert_eq!(parts.len(), 1);
    assert_eq!(parts[0].vertices, vec![VertexColor::Empty, VertexColor::TintLeft]);
}

#[test]
fn with_colors_rejects_wrong_size() {
    let colors = vec![VertexColor::Empty, VertexColor::TintLeft];
    assert_eq!(Position::with_colors(colors, UndirectedGraph::empty(3)), None);
}

#[test]
fn move_tints_neighbours() {
    // path 0 - 1 - 2, vertex 2 tinted for Right
    let graph = UndirectedGraph::from_edges(3, &[(0, 1), (1, 2)]);
    let colors = vec![VertexColor::Empty, VertexColor::Empty, VertexColor::TintRight];
    let position = Position::with_colors(colors, graph).unwrap();
    let moves = position.left_moves();
    assert_eq!(moves.len(), 2);
    // Left takes 0: vertex 1 is tinted for Left
    assert_eq!(
        moves[0].vertices,
        vec![VertexColor::Taken, VertexColor::TintLeft, VertexColor::TintRight]
    );
    assert!(!moves[0].graph.are_adjacent(0, 1));
    assert!(moves[0].graph.are_adjacent(1, 2));
    // Left takes 1: vertex 0 is tinted for Left, vertex 2 is lost
    assert_eq!(
        moves[1].vertices,
        vec![VertexColor::TintLeft, VertexColor::Taken, VertexColor::Taken]
    );
    assert_eq!(moves[1].graph, UndirectedGraph::empty(3));
    let right = position.right_moves();
    assert_eq!(right.len(), 3);
}

#[test]
fn path_tinted_left_and_right() {
    let graph = UndirectedGraph::from_edges(2, &[(0, 1)]);
    let colors = vec![VertexColor::TintLeft, VertexColor::TintRight];
    let position = Position::with_colors(colors, graph).unwrap();
    let left = position.left_moves();
    let right = position.right_moves();
    assert_eq!(left.len(), 1);
    assert_eq!(right.len(), 1);
    // whoever moves takes one vertex and spoils the other one
    let over = Position::with_colors(
        vec![VertexColor::Taken, VertexColor::Taken],
        UndirectedGraph::empty(2),
    )
    .unwrap();
    assert_eq!(left[0], over);
    assert_eq!(right[0], over);
    let mut cache = TranspositionTable::new();
    assert_eq!(over.canonical_form(&mut cache), CanonicalForm::new_integer(0));
    // one move for each player to a position without moves: {0 | 0}
    let star = CanonicalForm::new_nimber(DyadicRationalNumber::new_integer(0), Nimber::new(1));
    assert_eq!(position.canonical_form(&mut cache), star);
}

#[test]
fn three_tinted_vertices_are_one_star() {
    let mut graph = UndirectedGraph::empty(3);
    graph.connect(1, 2, true);
    let colors = vec![
        VertexColor::TintLeft,
        VertexColor::TintRight,
        VertexColor::TintLeft,
    ];
    let position = Position::with_colors(colors, graph).unwrap();
    assert_eq!(position.left_moves().len(), 2);
    assert_eq!(position.right_moves().len(), 1);
    let mut cache = TranspositionTable::new();
    let game = position.canonical_form(&mut cache);
    let one_star = CanonicalForm::new_nus(Nus::new(
        DyadicRationalNumber::new_integer(1),
        0,
        Nimber::new(1),
    ));
    assert_eq!(game, one_star);
    assert_eq!(game.to_string(), "1*");
}

#[test]
fn table_does_not_change_the_canonical_form() {
    let position = Position::new(UndirectedGraph::from_edges(
        5,
        &[(0, 1), (1, 2), (2, 3), (3, 4)],
    ));
    let mut fresh = TranspositionTable::new();
    let first = position.canonical_form(&mut fresh);
    assert!(fresh.len() > 1);
    // again with the filled table, and with a table that was cleared
    let second = position.canonical_form(&mut fresh);
    fresh.clear();
    assert_eq!(fresh.len(), 0);
    let third = canonical_form_of(&position, &mut fresh);
    assert_eq!(first, second);
    assert_eq!(first, third);
    // a symmetric position that is empty has value zero or is its own negative
    assert_eq!(first.neg(), first);
}

#[test]
fn position_is_the_sum_of_its_components() {
    let whole = Position::new(UndirectedGraph::from_edges(5, &[(0, 1), (0, 2), (1, 2), (3, 4)]));
    let mut cache = TranspositionTable::new();
    let value = whole.canonical_form(&mut cache);
    let mut sum = CanonicalForm::zero();
    for part in whole.decompositions() {
        let mut other = TranspositionTable::new();
        sum = CanonicalForm::sum(&sum, &part.canonical_form(&mut other));
    }
    assert_eq!(value, sum);
}

#[test]
fn single_vertices() {
    let mut cache = TranspositionTable::new();
    let empty = Position::new(UndirectedGraph::empty(1));
    assert_eq!(empty.canonical_form(&mut cache), CanonicalForm::new_nimber(
        DyadicRationalNumber::new_integer(0),
        Nimber::new(1),
    ));
    let blue = Position::with_colors(vec![VertexColor::TintLeft], UndirectedGraph::empty(1)).unwrap();
    assert_eq!(blue.canonical_form(&mut cache), CanonicalForm::new_integer(1));
    let red = Position::with_colors(vec![VertexColor::TintRight], UndirectedGraph::empty(1)).unwrap();
    assert_eq!(red.canonical_form(&mut cache), CanonicalForm::new_integer(-1));
    let taken = Position::with_colors(vec![VertexColor::Taken], UndirectedGraph::empty(1)).unwrap();
    assert_eq!(taken.canonical_form(&mut cache), CanonicalForm::new_integer(0));
    assert_eq!(cache.get(&blue), Some(CanonicalForm::new_integer(1)));
}

#[test]
fn graphviz_text() {
    let mut graph = UndirectedGraph::empty(3);
    graph.connect(1, 2, true);
    let colors = vec![
        VertexColor::TintLeft,
        VertexColor::TintRight,
        VertexColor::Empty,
    ];
    let position = Position::with_colors(colors, graph).unwrap();
    assert_eq!(
        position.to_graphviz(),
        "graph G {0 [fillcolor=blue, style=filled, shape=circle, fixedsize=true, width=1, height=1, fontsize=24];1 [fillcolor=red, style=filled, shape=circle, fixedsize=true, width=1, height=1, fontsize=24];2 [fillcolor=white, style=filled, shape=circle, fixedsize=true, width=1, height=1, fontsize=24];1 -- 2;}"
    );
    let big = Position::new(UndirectedGraph::from_edges(12, &[(10, 11)]));
    assert!(big.to_graphviz().ends_with("10 -- 11;}"));
    let taken = Position::with_colors(vec![VertexColor::Taken], UndirectedGraph::empty(1)).unwrap();
    assert_eq!(taken.to_graphviz(), "graph G {}");
}

#[test]
fn table_counts_each_position_once() {
    let mut table: TranspositionTable<Position> = TranspositionTable::new();
    let first = Position::new(UndirectedGraph::from_edges(2, &[(0, 1)]));
    let second = Position::new(UndirectedGraph::empty(2));
    assert_eq!(table.len(), 0);
    table.insert(first.clone(), CanonicalForm::new_integer(1));
    assert_eq!(table.len(), 1);
    table.insert(second.clone(), CanonicalForm::new_integer(2));
    assert_eq!(table.len(), 2);
    // a position that is there: the count stays, the last form is kept
    table.insert(first.clone(), CanonicalForm::new_integer(3));
    assert_eq!(table.len(), 2);
    assert_eq!(table.get(&first), Some(CanonicalForm::new_integer(3)));
    assert_eq!(table.get(&second), Some(CanonicalForm::new_integer(2)));
    // the same once more changes nothing
    table.insert(first.clone(), CanonicalForm::new_integer(3));
    assert_eq!(table.len(), 2);
    assert_eq!(table.get(&first), Some(CanonicalForm::new_integer(3)));
}

#[test]
fn components_part_the_vertices_that_are_not_taken() {
    // two edges, a vertex alone and a taken vertex alone
    let graph = UndirectedGraph::from_edges(6, &[(0, 3), (1, 4)]);
    let colors = vec![
        VertexColor::Empty,
        VertexColor::TintLeft,
        VertexColor::Empty,
        VertexColor::TintRight,
        VertexColor::Empty,
        VertexColor::Taken,
    ];
    let position = Position::with_colors(colors, graph).unwrap();
    let components = position.decompositions();
    let sizes: Vec<usize> = components.iter().map(|c| c.vertices.len()).collect();
    assert_eq!(sizes, vec![2, 2, 1]);
    assert_eq!(sizes.iter().sum::<usize>(), 5);
    for component in &components {
        assert!(component.graph.is_connected());
        assert_eq!(component.decompositions(), vec![component.clone()]);
    }
    assert_eq!(components[0].vertices, vec![VertexColor::Empty, VertexColor::TintRight]);
    assert_eq!(components[1].vertices, vec![VertexColor::TintLeft, VertexColor::Empty]);
}

#[test]
fn exchanged_colors_exchange_the_moves() {
    let graph = UndirectedGraph::from_edges(4, &[(0, 1), (1, 2), (2, 3)]);
    let colors = vec![
        VertexColor::TintLeft,
        VertexColor::Empty,
        VertexColor::TintRight,
        VertexColor::Empty,
    ];
    let exchanged: Vec<VertexColor> = colors
        .iter()
        .map(|color| match color {
            VertexColor::TintLeft => VertexColor::TintRight,
            VertexColor::TintRight => VertexColor::TintLeft,
            other => *other,
        })
        .collect();
    let position = Position::with_colors(colors, graph.clone()).unwrap();
    let other = Position::with_colors(exchanged, graph).unwrap();
    assert_eq!(position.left_moves().len(), other.right_moves().len());
    assert_eq!(position.right_moves().len(), other.left_moves().len());
    let mut table = TranspositionTable::new();
    let value = position.canonical_form(&mut table);
    let mirrored = other.canonical_form(&mut table);
    assert_eq!(mirrored, value.neg());
}
