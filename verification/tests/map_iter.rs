use zoc::types::MapPos;
use zoc::map::{ring_iter, spiral_iter};

fn ring(radius: i32) -> Vec<(i32, i32)> {
    let start_pos = MapPos { x: 0, y: 0 };
    let mut it = ring_iter(&start_pos, radius);
    let mut out = Vec::new();
    while let Some(p) = it.next() {
        out.push((p.x, p.y));
    }
    out
}

fn spiral(radius: i32) -> Vec<(i32, i32)> {
    let start_pos = MapPos { x: 0, y: 0 };
    let mut it = spiral_iter(&start_pos, radius);
    let mut out = Vec::new();
    while let Some(p) = it.next() {
        out.push((p.x, p.y));
    }
    out
}

#[test]
fn test_ring_1() {
    let expected = [(0, -1), (1, -1), (1, 0), (1, 1), (0, 1), (-1, 0)];
    let mut expected = expected.iter();
    for p in ring(1) {
        let expected = expected.next().expect("Can not get next element from expected vector");
        assert_eq!(*expected, p);
    }
    assert!(expected.next().is_none());
}

#[test]
fn test_ring_2() {
    let expected = [
        (-1, -1),
        (-1, -2),
        (0, -2),
        (1, -2),
        (2, -1),
        (2, 0),
        (2, 1),
        (1, 2),
        (0, 2),
        (-1, 2),
        (-1, 1),
        (-2, 0),
    ];
    let mut expected = expected.iter();
    for p in ring(2) {
        let expected = expected.next().expect("Can not get next element from expected vector");
        assert_eq!(*expected, p);
    }
    assert!(expected.next().is_none());
}

#[test]
fn test_spiral_1() {
    let expected = [
        // ring 1
        (0, -1),
        (1, -1),
        (1, 0),
        (1, 1),
        (0, 1),
        (-1, 0),
        // ring 2
        (-1, -1),
        (-1, -2),
        (0, -2),
        (1, -2),
        (2, -1),
        (2, 0),
        (2, 1),
        (1, 2),
        (0, 2),
        (-1, 2),
        (-1, 1),
        (-2, 0),
    ];
    let mut expected = expected.iter();
    for p in spiral(2) {
        let expected = expected.next().expect("Can not get next element from expected vector");
        assert_eq!(*expected, p);
    }
    assert!(expected.next().is_none());
}

#[test]
fn ring_of_radius_three_has_eighteen_tiles() {
    assert_eq!(ring(3).len(), 18);
    assert_eq!(spiral(3).len(), 6 + 12 + 18);
}
