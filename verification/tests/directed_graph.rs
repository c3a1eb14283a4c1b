use cgt::graph::directed::DirectedGraph;

/// ```text
/// 1 -> 3 -> 2
///  \   |
///   \  v
///    > 0
/// ```
fn test_matrix() -> DirectedGraph {
    let mut m = DirectedGraph::empty(4);
    m.connect(3, 0, true);
    m.connect(3, 2, true);
    m.connect(1, 3, true);
    m.connect(1, 0, true);
    m
}

#[test]
fn adds_new_vertex() {
    let mut g = test_matrix();
    assert_eq!(
        &g.to_string(),
        "0101\n\
	 0000\n\
	 0001\n\
	 0100\n"
    );

    // adds one empty row and column to previous matrix
    g.add_vertex();
    assert_eq!(
        &g.to_string(),
        "01010\n\
	 00000\n\
	 00010\n\
	 01000\n\
         00000\n"
    );

    g.remove_vertex(1);
    assert_eq!(
        &g.to_string(),
        "0010\n\
	 0010\n\
	 0000\n\
         0000\n"
    );
}

#[test]
fn set_adjacency_matrix() {
    let m = test_matrix();
    assert_eq!(
        m,
        DirectedGraph::from_vec(
            4,
            vec![
                false, true, false, true, false, false, false, false, false, false, false, true,
                false, true, false, false
            ]
        )
        .unwrap()
    );
}

#[test]
fn test_adjacency() {
    let m = test_matrix();
    assert_eq!(m.adjacent_to(0).collect(), vec![]);
    assert_eq!(m.adjacent_to(1).collect(), vec![0, 3]);
    assert_eq!(m.adjacent_to(2).collect(), vec![]);
    assert_eq!(m.adjacent_to(3).collect(), vec![0, 2]);
}

#[test]
fn test_edges() {
    let m = test_matrix();
    assert_eq!(m.edges().collect(), vec![(1, 0), (3, 0), (3, 2), (1, 3)]);
}

#[test]
fn from_vec_rejects_wrong_length() {
    assert!(DirectedGraph::from_vec(2, vec![false; 3]).is_none());
    assert!(DirectedGraph::from_vec(usize::MAX, vec![]).is_none());
    assert!(DirectedGraph::from_vec(0, vec![]).is_some());
}

#[test]
fn from_matrix_reads_rows() {
    let g = DirectedGraph::from_matrix(2, &[vec![false, true], vec![false, false]]).unwrap();
    assert!(g.are_adjacent(1, 0));
    assert!(!g.are_adjacent(0, 1));
    assert_eq!(g.size(), 2);
    assert!(DirectedGraph::from_matrix(2, &[vec![false, true]]).is_none());
}

#[test]
fn iterators_step_by_step() {
    let m = test_matrix();
    let mut it = m.adjacent_to(3);
    assert_eq!(it.next(), Some(0));
    assert_eq!(it.next(), Some(2));
    assert_eq!(it.next(), None);
    assert_eq!(it.next(), None);
    let mut edges = m.edges();
    assert_eq!(edges.next(), Some((1, 0)));
    assert_eq!(edges.next(), Some((3, 0)));
    assert_eq!(m.vertices(), 0..4);
    let copy = m.clone();
    assert_eq!(copy, m);
}
