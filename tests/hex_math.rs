use hexdefense::hex::{is_within, neighbors, ring, HexCoord};

fn steps(a: HexCoord, b: HexCoord) -> i32 {
    let dx = a.x - b.x;
    let dy = a.y - b.y;
    dx.abs().max(dy.abs()).max((dx + dy).abs())
}

#[test]
fn neighbors_in_fixed_order() {
    let c = HexCoord::new(2, -1);
    let n = neighbors(c);
    let expected = [(3, -2), (2, -2), (1, -1), (1, 0), (2, 0), (3, -1)];
    for (got, want) in n.iter().zip(expected.iter()) {
        assert_eq!((got.x, got.y), *want);
    }
}

#[test]
fn neighbors_are_one_step_away() {
    let c = HexCoord::new(-4, 7);
    for n in neighbors(c).iter() {
        assert_eq!(steps(c, *n), 1);
    }
}

#[test]
fn ring_negative_radius_is_empty() {
    assert!(ring(HexCoord::origin(), -1).is_empty());
}

#[test]
fn ring_zero_is_center() {
    let c = HexCoord::new(3, 1);
    assert_eq!(ring(c, 0), vec![c]);
}

#[test]
fn ring_two_has_twelve_cells_at_distance_two() {
    let c = HexCoord::new(1, 1);
    let r = ring(c, 2);
    assert_eq!(r.len(), 12);
    for h in r.iter() {
        assert_eq!(steps(c, *h), 2);
    }
    for i in 0..r.len() {
        for j in (i + 1)..r.len() {
            assert_ne!(r[i], r[j]);
        }
    }
}

#[test]
fn within_radius() {
    let o = HexCoord::origin();
    assert!(is_within(o, 2, HexCoord::new(2, -2)));
    assert!(is_within(o, 2, HexCoord::new(1, 1)));
    assert!(!is_within(o, 2, HexCoord::new(2, 1)));
    assert!(!is_within(o, 1, HexCoord::new(-2, 0)));
}
