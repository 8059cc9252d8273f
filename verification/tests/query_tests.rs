//! Depth queries, common-ancestor queries, and orbit traversal.

use collatz_graph::graph::Collatz;
use collatz_graph::node::NodeData;
use collatz_graph::CollatzError;

#[test]
fn common_ancestor() {
    let mut collatz = Collatz::default();
    collatz.generate_down(22).unwrap();
    collatz.generate_down(69).unwrap();
    collatz.generate_down(70).unwrap();
    assert_eq!(collatz.find_common_ancestor(69, 70).unwrap(), 40);
    assert_eq!(collatz.find_common_ancestor(22, 69).unwrap(), 52);
    assert_eq!(collatz.find_common_ancestor(69, 69).unwrap(), 69);
}

#[test]
fn get_depth() {
    let mut collatz = Collatz::default();
    collatz.generate_down(69).unwrap();
    collatz.generate_down(420).unwrap();
    assert_eq!(collatz.get_depth(69).unwrap(), 14);
    assert_eq!(collatz.get_depth(420).unwrap(), 40);
}

#[test]
fn common_ancestor_symmetric() {
    let mut collatz = Collatz::default();
    collatz.generate_down(22).unwrap();
    collatz.generate_down(69).unwrap();
    assert_eq!(
        collatz.find_common_ancestor(22, 69).unwrap(),
        collatz.find_common_ancestor(69, 22).unwrap()
    );
}

#[test]
fn common_ancestor_of_value_with_itself() {
    let mut collatz = Collatz::default();
    collatz.generate_fill_down(10).unwrap();
    for n in 1u64..=10 {
        assert_eq!(collatz.find_common_ancestor(n, n).unwrap(), n);
    }
}

#[test]
fn queries_fail_before_construction() {
    let collatz = Collatz::default();
    assert_eq!(collatz.get_depth(6), Err(CollatzError::NotGenerated));
    assert_eq!(
        collatz.find_common_ancestor(1, 6),
        Err(CollatzError::NotGenerated)
    );
    assert_eq!(
        collatz.find_common_ancestor(6, 1),
        Err(CollatzError::NotGenerated)
    );
    assert!(collatz.iter_orbit(6).is_err());
}

#[test]
fn orbit_of_six() {
    let mut collatz = Collatz::default();
    collatz.generate_down(6).unwrap();
    let expected: Vec<NodeData> = vec![
        (8, 6, 16).into(),
        (7, 3, 16).into(),
        (6, 10, 16).into(),
        (5, 5, 16).into(),
        (4, 16, 16).into(),
        (3, 8, 8).into(),
        (2, 4, 4).into(),
        (1, 2, 2).into(),
    ];
    assert_eq!(collatz.iter_orbit(6).unwrap(), expected);
}

#[test]
fn orbit_of_root_is_empty() {
    let collatz = Collatz::default();
    assert_eq!(collatz.iter_orbit(1).unwrap(), Vec::<NodeData>::new());
}

#[test]
fn traversal_is_restartable() {
    let mut collatz = Collatz::default();
    collatz.generate_down(80).unwrap();
    collatz.generate_up(16);
    let first = collatz.iter();
    let second = collatz.iter();
    assert_eq!(first, second);
    let orbit_once = collatz.iter_orbit(80).unwrap();
    let orbit_again = collatz.iter_orbit(80).unwrap();
    assert_eq!(orbit_once, orbit_again);
}
