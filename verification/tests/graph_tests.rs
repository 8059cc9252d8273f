//! Descending and ascending construction, and the breadth-first
//! enumeration order.

use collatz_graph::graph::Collatz;
use collatz_graph::kind::CollatzKind;
use collatz_graph::node::NodeData;
use collatz_graph::CollatzError;

#[test]
fn generate_single_down() {
    let mut collatz = Collatz::default();
    collatz.generate_down(6).unwrap();
    let expected: Vec<NodeData> = vec![
        (0, 1, 1).into(),
        (1, 2, 2).into(),
        (2, 4, 4).into(),
        (3, 8, 8).into(),
        (4, 16, 16).into(),
        (5, 5, 16).into(),
        (6, 10, 16).into(),
        (7, 3, 16).into(),
        (8, 6, 16).into(),
    ];
    assert_eq!(collatz.iter(), expected);
    assert_eq!(collatz.iter(), expected);
}

#[test]
fn generate_multiple_down() {
    let mut collatz = Collatz::default();
    collatz.generate_down(6).unwrap();
    collatz.generate_down(80).unwrap();
    let expected: Vec<NodeData> = vec![
        (0, 1, 1).into(),
        (1, 2, 2).into(),
        (2, 4, 4).into(),
        (3, 8, 8).into(),
        (4, 16, 16).into(),
        (5, 5, 16).into(),
        (6, 10, 16).into(),
        (7, 3, 16).into(),
        (7, 20, 20).into(),
        (8, 6, 16).into(),
        (8, 40, 40).into(),
        (9, 80, 80).into(),
    ];
    assert_eq!(collatz.iter(), expected);
}

#[test]
fn generate_fill_down() {
    let mut collatz = Collatz::default();
    collatz.generate_fill_down(10).unwrap();
    let expected: Vec<NodeData> = vec![
        (0, 1, 1).into(),
        (1, 2, 2).into(),
        (2, 4, 4).into(),
        (3, 8, 8).into(),
        (4, 16, 16).into(),
        (5, 5, 16).into(),
        (6, 10, 16).into(),
        (7, 20, 20).into(),
        (7, 3, 16).into(),
        (8, 40, 40).into(),
        (8, 6, 16).into(),
        (9, 13, 40).into(),
        (10, 26, 40).into(),
        (11, 52, 52).into(),
        (12, 17, 52).into(),
        (13, 34, 52).into(),
        (14, 11, 52).into(),
        (15, 22, 52).into(),
        (16, 7, 52).into(),
        (17, 14, 52).into(),
        (18, 28, 52).into(),
        (19, 9, 52).into(),
    ];
    assert_eq!(collatz.iter(), expected);
}

#[test]
fn generate_single_up() {
    let mut collatz = Collatz::default();
    collatz.generate_up(32);
    let expected: Vec<NodeData> = vec![
        (0, 1, 1).into(),
        (1, 2, 2).into(),
        (2, 4, 4).into(),
        (3, 8, 8).into(),
        (4, 16, 16).into(),
        (5, 32, 32).into(),
        (5, 5, 16).into(),
        (6, 10, 16).into(),
        (7, 20, 20).into(),
        (7, 3, 16).into(),
        (8, 6, 16).into(),
        (9, 12, 16).into(),
        (10, 24, 24).into(),
    ];
    assert_eq!(collatz.iter(), expected);
}

#[test]
fn generate_mixed() {
    let mut collatz = Collatz::default();
    collatz.generate_down(80).unwrap();
    collatz.generate_up(16);
    let expected: Vec<NodeData> = vec![
        (0, 1, 1).into(),
        (1, 2, 2).into(),
        (2, 4, 4).into(),
        (3, 8, 8).into(),
        (4, 16, 16).into(),
        (5, 5, 16).into(),
        (6, 10, 16).into(),
        (7, 20, 20).into(),
        (7, 3, 16).into(),
        (8, 40, 40).into(),
        (8, 6, 16).into(),
        (9, 80, 80).into(),
        (9, 12, 16).into(),
    ];
    assert_eq!(collatz.iter(), expected);
}

#[test]
fn generate_up_bounded_throttles() {
    let mut collatz = Collatz::default();
    collatz.generate_up_bounded(32, 5);
    let expected: Vec<NodeData> = vec![
        (0, 1, 1).into(),
        (1, 2, 2).into(),
        (2, 4, 4).into(),
        (3, 8, 8).into(),
        (4, 16, 16).into(),
        (5, 32, 32).into(),
        (5, 5, 16).into(),
    ];
    assert_eq!(collatz.iter(), expected);
}

#[test]
fn generate_up_with_no_budget_changes_nothing() {
    let mut collatz = Collatz::default();
    collatz.generate_up_bounded(32, 0);
    assert_eq!(collatz.len(), 1);
}

#[test]
fn fresh_graph_root_only() {
    for kind in [
        CollatzKind::Full,
        CollatzKind::Short,
        CollatzKind::Odd,
        CollatzKind::Compact,
    ] {
        let collatz = Collatz::new(kind);
        assert_eq!(collatz.kind(), kind);
        assert_eq!(collatz.len(), 1);
        let root: Vec<NodeData> = vec![(0, 1, 1).into()];
        assert_eq!(collatz.iter(), root);
    }
}

#[test]
fn generate_down_idempotent() {
    let mut collatz = Collatz::default();
    collatz.generate_down(27).unwrap();
    let first = collatz.iter();
    let len = collatz.len();
    collatz.generate_down(27).unwrap();
    assert_eq!(collatz.len(), len);
    assert_eq!(collatz.iter(), first);
}

#[test]
fn generate_down_reaches_tree() {
    let mut collatz = Collatz::default();
    assert!(!collatz.contains(&27));
    collatz.generate_down(27).unwrap();
    assert!(collatz.contains(&27));
    assert_eq!(collatz.get_depth(27).unwrap(), 111);
}

#[test]
fn generate_down_rejects_out_of_domain() {
    let mut collatz = Collatz::new(CollatzKind::Odd);
    assert_eq!(collatz.generate_down(4), Err(CollatzError::InvalidDomain));
    assert_eq!(collatz.len(), 1);
    let mut compact = Collatz::new(CollatzKind::Compact);
    assert_eq!(compact.generate_down(9), Err(CollatzError::InvalidDomain));
    let mut full = Collatz::default();
    assert_eq!(full.generate_down(0), Err(CollatzError::InvalidDomain));
}

#[test]
fn generate_down_overflow() {
    let mut collatz = Collatz::default();
    assert_eq!(collatz.generate_down(u64::MAX), Err(CollatzError::Overflow));
    assert_eq!(collatz.len(), 1);
}

#[test]
fn fill_down_odd_variant() {
    let mut collatz = Collatz::new(CollatzKind::Odd);
    collatz.generate_fill_down(10).unwrap();
    assert_eq!(collatz.len(), 8);
    assert!(collatz.contains(&9));
    assert!(collatz.contains(&17));
    assert_eq!(collatz.get_depth(9).unwrap(), 7);
    assert_eq!(collatz.get_depth(5).unwrap(), 1);
}

#[test]
fn fill_down_short_variant() {
    let mut collatz = Collatz::new(CollatzKind::Short);
    collatz.generate_fill_down(10).unwrap();
    assert_eq!(collatz.len(), 16);
    assert_eq!(collatz.get_depth(9).unwrap(), 13);
    assert_eq!(collatz.get_depth(6).unwrap(), 6);
    assert_eq!(collatz.get_depth(10).unwrap(), 5);
}

#[test]
fn fill_down_compact_variant() {
    let mut collatz = Collatz::new(CollatzKind::Compact);
    collatz.generate_fill_down(10).unwrap();
    assert_eq!(collatz.len(), 6);
    assert_eq!(collatz.get_depth(7).unwrap(), 5);
    assert_eq!(collatz.get_depth(5).unwrap(), 1);
    assert!(collatz.contains(&13));
    assert!(collatz.contains(&17));
}

#[test]
fn refill_with_smaller_bound_changes_nothing() {
    let mut collatz = Collatz::default();
    collatz.generate_fill_down(10).unwrap();
    let before = collatz.iter();
    collatz.generate_fill_down(4).unwrap();
    assert_eq!(collatz.iter(), before);
    assert!(collatz.contains(&9));
    assert!(collatz.contains(&7));
}

#[test]
fn fill_down_then_contains() {
    let mut collatz = Collatz::default();
    collatz.generate_fill_down(10).unwrap();
    for n in 1u64..=10 {
        assert!(collatz.contains(&n));
    }
    assert!(collatz.contains(&52));
    assert!(!collatz.contains(&15));
}

#[test]
fn depth_and_highest_laws_along_orbit() {
    let mut collatz = Collatz::default();
    collatz.generate_down(6).unwrap();
    let orbit = collatz.iter_orbit(6).unwrap();
    for w in orbit.windows(2) {
        assert_eq!(w[0].depth, w[1].depth + 1);
        assert!(w[0].highest_point >= w[0].value);
        assert!(w[0].highest_point >= w[1].highest_point);
    }
}
