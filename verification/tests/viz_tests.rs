//! The per-variant graph store and the chart point computations.

use collatz_graph::kind::CollatzKind;
use collatz_graph::viz::CollatzViz;

#[test]
fn length_string_starts_empty() {
    let viz = CollatzViz::new();
    assert_eq!(viz.get_length_string(), "0 0 0 0");
}

#[test]
fn length_string_counts_nodes() {
    let mut viz = CollatzViz::new();
    viz.orbit_length_points(CollatzKind::Full, 10).unwrap();
    assert_eq!(viz.get_length_string(), "22 0 0 0");
    viz.orbit_length_points(CollatzKind::Odd, 10).unwrap();
    assert_eq!(viz.get_length_string(), "22 0 8 0");
}

#[test]
fn orbit_length_points_full() {
    let mut viz = CollatzViz::new();
    let points = viz.orbit_length_points(CollatzKind::Full, 10).unwrap();
    let expected: Vec<(u64, usize)> = vec![
        (2, 1),
        (3, 7),
        (4, 2),
        (5, 5),
        (6, 8),
        (7, 16),
        (8, 3),
        (9, 19),
        (10, 6),
    ];
    assert_eq!(points, expected);
}

#[test]
fn orbit_length_points_reuses_graph() {
    let mut viz = CollatzViz::new();
    let first = viz.orbit_length_points(CollatzKind::Full, 10).unwrap();
    let again = viz.orbit_length_points(CollatzKind::Full, 10).unwrap();
    assert_eq!(first, again);
}

#[test]
fn fraction_above_points_full() {
    let mut viz = CollatzViz::new();
    let points = viz.fraction_above_points(CollatzKind::Full, 4).unwrap();
    let expected: Vec<(u64, usize, usize)> = vec![(2, 0, 1), (3, 5, 7), (4, 0, 2)];
    assert_eq!(points, expected);
}

#[test]
fn common_ancestor_dist_points_full() {
    let mut viz = CollatzViz::new();
    let points = viz
        .common_ancestor_dist_points(CollatzKind::Full, 4)
        .unwrap();
    let expected: Vec<(usize, usize)> = vec![(0, 1), (0, 6), (5, 0)];
    assert_eq!(points, expected);
}

#[test]
fn points_per_variant_are_independent() {
    let mut viz = CollatzViz::new();
    let full = viz.orbit_length_points(CollatzKind::Full, 10).unwrap();
    let odd = viz.orbit_length_points(CollatzKind::Odd, 10).unwrap();
    assert_eq!(full.len(), 9);
    let expected_odd: Vec<(u64, usize)> = vec![(3, 2), (5, 1), (7, 6), (9, 7)];
    assert_eq!(odd, expected_odd);
}
