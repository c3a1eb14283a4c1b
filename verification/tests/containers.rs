use cgt::graph::undirected::UndirectedGraph;
use cgt::graph::Graph;
use cgt::numeric::dyadic_rational_number::DyadicRationalNumber;
use cgt::numeric::nimber::Nimber;
use cgt::rw_hash_map::RwHashMap;
use cgt::short::partizan::game_form::Order;

#[test]
fn hash_map_keeps_what_it_is_given() {
    let mut map: RwHashMap<u64, u32> = RwHashMap::new();
    assert_eq!(map.len(), 0);
    assert_eq!(map.get(&7), None);
    map.insert(7, 1);
    map.insert(8, 2);
    assert_eq!(map.get(&7), Some(1));
    assert_eq!(map.len(), 2);
    map.insert(7, 3);
    assert_eq!(map.get(&7), Some(3));
    assert_eq!(map.len(), 2);
    map.clear();
    assert_eq!(map.len(), 0);
    assert_eq!(map.get(&8), None);
}

#[test]
fn undirected_graph_connects_both_ways() {
    let mut g = UndirectedGraph::empty(3);
    g.connect(0, 2, true);
    assert!(g.are_adjacent(0, 2));
    assert!(g.are_adjacent(2, 0));
    assert!(!g.are_adjacent(0, 1));
    assert_eq!(g.adjacent_to(2), vec![0]);
    assert_eq!(g.edges(), vec![(0, 2)]);
    assert_eq!(g.degrees(), vec![1, 0, 1]);
    assert_eq!(g.degree(), 1);
    assert!(!g.is_connected());
    g.connect(1, 2, true);
    assert!(g.is_connected());
    assert_eq!(g.size(), 3);
    assert_eq!(g.vertices(), 0..3);
    assert_eq!(g.to_string(), "001\n001\n110\n");
    assert_eq!(g.add_vertex(), 3);
    assert!(!g.is_connected());
    g.remove_vertex(0);
    assert_eq!(g.to_string(), "010\n100\n000\n");
    assert!(UndirectedGraph::empty(0).is_connected());
    assert_eq!(UndirectedGraph::empty(0).degree(), 0);
}

#[test]
fn graph_from_matrix() {
    let g = UndirectedGraph::from_flat_matrix(2, &[false, true, true, false]).unwrap();
    assert!(g.are_adjacent(0, 1));
    assert!(UndirectedGraph::from_flat_matrix(2, &[false, true, true]).is_none());
    let rows: [&[bool]; 2] = [&[false, true], &[true, false]];
    let h = UndirectedGraph::from_matrix(2, &rows).unwrap();
    assert_eq!(g, h);
    assert_eq!(g, UndirectedGraph::from_edges(2, &[(0, 1)]));
}

#[test]
fn dyadic_rationals() {
    let half = DyadicRationalNumber::new(4, 3);
    assert_eq!(half.numerator(), 1);
    assert_eq!(half.denominator_exponent(), 1);
    assert_eq!(half, DyadicRationalNumber::new(1, 1));
    let quarter = DyadicRationalNumber::new(1, 2);
    assert_eq!(half.checked_add(&quarter), Some(DyadicRationalNumber::new(3, 2)));
    assert_eq!(half.checked_add(&half), Some(DyadicRationalNumber::new_integer(1)));
    assert_eq!(half.checked_sub(&quarter), Some(quarter));
    assert_eq!(half.checked_mean(&quarter), Some(DyadicRationalNumber::new(3, 3)));
    assert_eq!(half.neg(), DyadicRationalNumber::new(-1, 1));
    assert!(quarter.lt(&half));
    assert!(quarter.le(&half));
    assert!(!half.le(&quarter));
    assert!(half.le(&half));
    assert!(!half.lt(&half));
    assert!(!half.is_integer());
    assert_eq!(half.to_integer(), None);
    assert_eq!(DyadicRationalNumber::new(6, 1).to_integer(), Some(3));
    let large = DyadicRationalNumber::new_integer(i64::MAX);
    assert_eq!(large.checked_add(&large), None);
    assert_eq!(large.checked_add(&half), None);
    assert!(half.equals(&DyadicRationalNumber::new(2, 2)));
    assert_eq!(DyadicRationalNumber::new(0, 5), DyadicRationalNumber::new_integer(0));
}

#[test]
fn nimbers() {
    assert_eq!(Nimber::new(2).add(&Nimber::new(3)), Nimber::new(1));
    assert_eq!(Nimber::new(5).neg(), Nimber::new(5));
    assert_eq!(Nimber::new(5).value(), 5);
    assert_eq!(Nimber::mex(&[]), 0);
    assert_eq!(Nimber::mex(&[0, 1, 3]), 2);
    assert_eq!(Nimber::mex(&[1, 2]), 0);
    assert_eq!(Nimber::mex(&[2, 0, 1, 0]), 3);
    assert_eq!(Nimber::mex(&[7, 7, 7]), 0);
}

#[test]
fn dyadic_order_and_rounding() {
    let half = DyadicRationalNumber::new(1, 1);
    let minus_three_halves = DyadicRationalNumber::new(-3, 1);
    assert_eq!(half.compare(&minus_three_halves), Order::Greater);
    assert_eq!(minus_three_halves.compare(&half), Order::Less);
    assert_eq!(half.compare(&DyadicRationalNumber::new(2, 2)), Order::Equal);
    assert_eq!(half.floor(), 0);
    assert_eq!(half.ceil(), 1);
    assert_eq!(minus_three_halves.floor(), -2);
    assert_eq!(minus_three_halves.ceil(), -1);
    assert_eq!(DyadicRationalNumber::new_integer(-4).floor(), -4);
    assert_eq!(DyadicRationalNumber::new_integer(-4).ceil(), -4);
    assert_eq!(DyadicRationalNumber::new(7, 2).floor(), 1);
    assert_eq!(half.add(&half), DyadicRationalNumber::new_integer(1));
    assert_eq!(half.sub(&minus_three_halves), DyadicRationalNumber::new_integer(2));
}

#[test]
fn simplest_number_between() {
    let d = |p: i64, q: u32| DyadicRationalNumber::new(p, q);
    let between = |lo: DyadicRationalNumber, hi: DyadicRationalNumber| {
        DyadicRationalNumber::simplest_between(&lo, &hi)
    };
    assert_eq!(between(d(-1, 0), d(1, 0)), Some(d(0, 0)));
    assert_eq!(between(d(0, 0), d(1, 0)), Some(d(1, 1)));
    assert_eq!(between(d(2, 0), d(7, 0)), Some(d(3, 0)));
    assert_eq!(between(d(-7, 0), d(-2, 0)), Some(d(-3, 0)));
    assert_eq!(between(d(1, 2), d(1, 0)), Some(d(1, 1)));
    assert_eq!(between(d(1, 2), d(3, 3)), Some(d(5, 4)));
    assert_eq!(between(d(5, 3), d(7, 3)), Some(d(3, 2)));
    assert_eq!(between(d(-3, 2), d(-1, 1)), Some(d(-5, 3)));
    assert_eq!(between(d(1, 1), d(5, 0)), Some(d(1, 0)));
    assert_eq!(between(d(-1, 1), d(1, 3)), Some(d(0, 0)));
    // the simplest number between does not fit
    assert_eq!(between(d(0, 0), d(1, 62)), None);
    assert_eq!(between(d(i64::MAX - 1, 0), d(i64::MAX, 0)), None);
}

#[test]
fn hash_map_counts_each_key_once() {
    let mut map: RwHashMap<u64, u32> = RwHashMap::new();
    for (key, value) in [(1u64, 10u32), (2, 20), (1, 30), (3, 40), (1, 30)] {
        let before = map.len();
        let has = map.get(&key).is_some();
        let others: Vec<Option<u32>> = (0..5u64).filter(|k| *k != key).map(|k| map.get(&k)).collect();
        map.insert(key, value);
        assert_eq!(map.len(), before + if has { 0 } else { 1 });
        assert_eq!(map.get(&key), Some(value));
        let after: Vec<Option<u32>> = (0..5u64).filter(|k| *k != key).map(|k| map.get(&k)).collect();
        assert_eq!(others, after);
    }
    assert_eq!(map.len(), 3);
}

#[test]
fn undirected_graph_of_symmetric_arcs_only() {
    use_directed();
}

fn use_directed() {
    let symmetric = cgt::graph::directed::DirectedGraph::from_vec(
        2,
        vec![false, true, true, false],
    )
    .unwrap();
    let graph = UndirectedGraph::from_directed(symmetric).unwrap();
    assert_eq!(graph, UndirectedGraph::from_edges(2, &[(0, 1)]));
    assert_eq!(graph.size(), 2);
    let one_way = cgt::graph::directed::DirectedGraph::from_vec(
        2,
        vec![false, true, false, false],
    )
    .unwrap();
    assert!(UndirectedGraph::from_directed(one_way).is_none());
    let none = cgt::graph::directed::DirectedGraph::from_vec(0, vec![]).unwrap();
    assert_eq!(UndirectedGraph::from_directed(none), Some(UndirectedGraph::empty(0)));
}
