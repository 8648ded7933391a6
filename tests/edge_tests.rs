use povu::{Edge, Orientation};

#[test]
fn test_edge_creation() {
    let edge = Edge::new(1, Orientation::Forward, 2, Orientation::Reverse);
    assert_eq!(edge.from_id, 1);
    assert_eq!(edge.to_id, 2);
    assert!(!edge.is_self_loop());
}

#[test]
fn edge_test_self_loop() {
    let edge = Edge::new(1, Orientation::Forward, 1, Orientation::Reverse);
    assert!(edge.is_self_loop());
}

#[test]
fn test_edge_reverse() {
    let edge = Edge::new(1, Orientation::Forward, 2, Orientation::Reverse);
    let rev = edge.reverse();
    assert_eq!(rev.from_id, 2);
    assert_eq!(rev.to_id, 1);
    assert_eq!(rev.from_orientation, Orientation::Forward);
    assert_eq!(rev.to_orientation, Orientation::Reverse);
}

#[test]
fn test_edge_operations() {
    let edge = Edge::new(1, Orientation::Forward, 2, Orientation::Reverse);
    assert!(!edge.is_self_loop());

    let rev = edge.reverse();
    assert_eq!(rev.from_id, 2);
    assert_eq!(rev.to_id, 1);

    let self_loop = Edge::new(5, Orientation::Forward, 5, Orientation::Reverse);
    assert!(self_loop.is_self_loop());
}

#[test]
fn edge_reverse_twice_gives_the_edge() {
    let combos = [
        (Orientation::Forward, Orientation::Forward),
        (Orientation::Forward, Orientation::Reverse),
        (Orientation::Reverse, Orientation::Forward),
        (Orientation::Reverse, Orientation::Reverse),
    ];
    for (a, b) in combos {
        let e = Edge::new(7, a, 9, b);
        assert_eq!(e.reverse().reverse(), e);
        assert_ne!(e.reverse(), e);
    }
}

#[test]
fn edge_reverse_flips_both_orientations() {
    let e = Edge::new(3, Orientation::Reverse, 4, Orientation::Reverse);
    let r = e.reverse();
    assert_eq!(r, Edge::new(4, Orientation::Forward, 3, Orientation::Forward));
}
