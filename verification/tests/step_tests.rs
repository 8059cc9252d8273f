//! Single forward and inverse steps for each reduction variant.

use collatz_graph::graph::Collatz;
use collatz_graph::kind::CollatzKind;

#[test]
fn single_down_full() {
    let collatz = Collatz::default();
    assert_eq!(collatz.down(1), 4);
    assert_eq!(collatz.down(2), 1);
    assert_eq!(collatz.down(3), 10);
    assert_eq!(collatz.down(4), 2);
}

#[test]
fn single_down_short() {
    let collatz = Collatz::new(CollatzKind::Short);
    assert_eq!(collatz.down(1), 2);
    assert_eq!(collatz.down(2), 1);
    assert_eq!(collatz.down(3), 5);
    assert_eq!(collatz.down(4), 2);
}

#[test]
fn single_down_odd() {
    let collatz = Collatz::new(CollatzKind::Odd);
    assert_eq!(collatz.down(1), 1);
    assert_eq!(collatz.down(3), 5);
    assert_eq!(collatz.down(5), 1);
    assert_eq!(collatz.down(7), 11);
}

#[test]
fn single_down_compact() {
    let collatz = Collatz::new(CollatzKind::Compact);
    assert_eq!(collatz.down(1), 1);
    assert_eq!(collatz.down(5), 1);
    assert_eq!(collatz.down(7), 11);
    assert_eq!(collatz.down(11), 17);
}

#[test]
fn single_up_full() {
    let collatz = Collatz::default();
    assert_eq!(collatz.up(1), (2, None));
    assert_eq!(collatz.up(2), (4, None));
    assert_eq!(collatz.up(3), (6, None));
    assert_eq!(collatz.up(4), (8, Some(1)));
    assert_eq!(collatz.up(5), (10, None));
    assert_eq!(collatz.up(6), (12, None));
    assert_eq!(collatz.up(10), (20, Some(3)));
    assert_eq!(collatz.up(16), (32, Some(5)));
    assert_eq!(collatz.up(22), (44, Some(7)));
}

#[test]
fn single_up_short() {
    let collatz = Collatz::new(CollatzKind::Short);
    assert_eq!(collatz.up(1), (2, None));
    assert_eq!(collatz.up(2), (4, Some(1)));
    assert_eq!(collatz.up(3), (6, None));
    assert_eq!(collatz.up(4), (8, None));
    assert_eq!(collatz.up(5), (10, Some(3)));
    assert_eq!(collatz.up(11), (22, Some(7)));
}

#[test]
fn single_up_odd() {
    let collatz = Collatz::new(CollatzKind::Odd);
    assert_eq!(collatz.up(1), (5, Some(1)));
    assert_eq!(collatz.up(3), (13, None));
    assert_eq!(collatz.up(5), (21, Some(3)));
    assert_eq!(collatz.up(7), (29, Some(9)));
    assert_eq!(collatz.up(9), (37, None));
}

#[test]
fn single_up_compact() {
    let collatz = Collatz::new(CollatzKind::Compact);
    assert_eq!(collatz.up(1), (5, Some(1)));
    assert_eq!(collatz.up(5), (85, Some(13)));
    assert_eq!(collatz.up(7), (29, Some(37)));
    assert_eq!(collatz.up(11), (181, Some(7)));
    assert_eq!(collatz.up(13), (53, Some(17)));
    assert_eq!(collatz.up(17), (277, Some(11)));
}

#[test]
fn up_then_down_returns_full() {
    let collatz = Collatz::default();
    for n in 1u64..=50 {
        let (first, second) = collatz.up(n);
        assert_eq!(collatz.down(first), n);
        if let Some(w) = second {
            assert_eq!(collatz.down(w), n);
        }
    }
}

#[test]
fn up_then_down_returns_compact() {
    let collatz = Collatz::new(CollatzKind::Compact);
    for n in 1u64..=120 {
        if n % 2 == 1 && n % 3 != 0 {
            let (first, second) = collatz.up(n);
            assert_eq!(collatz.down(first), n);
            if let Some(w) = second {
                assert_eq!(collatz.down(w), n);
            }
        }
    }
}

#[test]
fn kind_from_code() {
    assert_eq!(CollatzKind::from(0), CollatzKind::Full);
    assert_eq!(CollatzKind::from(1), CollatzKind::Short);
    assert_eq!(CollatzKind::from(2), CollatzKind::Odd);
    assert_eq!(CollatzKind::from(3), CollatzKind::Compact);
    assert_eq!(CollatzKind::from(-7), CollatzKind::Full);
    assert_eq!(CollatzKind::from(9), CollatzKind::Full);
}
