use hexdefense::distance::UNREACHABLE;
use hexdefense::grid::{GridError, HexGrid};
use hexdefense::hex::HexCoord;
use hexdefense::pathing::{best_steps, next_step, PathError};

fn h(x: i32, y: i32) -> HexCoord {
    HexCoord::new(x, y)
}

fn dist(g: &HexGrid, x: i32, y: i32) -> u32 {
    g.get(h(x, y)).unwrap().distance
}

fn flagged(g: &HexGrid, x: i32, y: i32) -> bool {
    g.get(h(x, y)).unwrap().non_constructible
}

fn map_coords(radius: i32) -> Vec<HexCoord> {
    let mut out = Vec::new();
    for x in -radius..=radius {
        for y in -radius..=radius {
            if (x + y).abs() <= radius {
                out.push(h(x, y));
            }
        }
    }
    out
}

/// A grid whose only open cells are `open` (the goal included): every other
/// cell is walled before the first refresh, so no flag stands in the way.
fn walled_grid(radius: u32, open: &[(i32, i32)]) -> HexGrid {
    let mut g = HexGrid::new(radius);
    let mut handle = 100;
    for c in map_coords(radius as i32) {
        if c != HexCoord::origin() && !open.contains(&(c.x, c.y)) {
            assert_eq!(g.set_occupant(c, handle), Ok(()));
            handle += 1;
        }
    }
    g.refresh();
    g
}

#[test]
fn new_grid_has_one_cell_per_coordinate_in_radius() {
    let g = HexGrid::new(2);
    assert_eq!(map_coords(2).len(), 19);
    for c in map_coords(2) {
        let cell = g.get(c).unwrap();
        assert_eq!(cell.coord, c);
        assert_eq!(cell.occupant, None);
        assert_eq!(cell.distance, UNREACHABLE);
        assert!(!cell.non_constructible);
    }
    assert!(g.get(h(3, 0)).is_none());
    assert!(g.get(h(2, 1)).is_none());
    assert!(g.get(h(-2, -1)).is_none());
    assert!(g.get(h(i32::MAX, 0)).is_none());
}

#[test]
fn open_grid_distances_are_hex_steps() {
    let mut g = HexGrid::new(3);
    g.refresh();
    for c in map_coords(3) {
        let expected = c.x.abs().max(c.y.abs()).max((c.x + c.y).abs()) as u32;
        assert_eq!(dist(&g, c.x, c.y), expected);
        assert!(!flagged(&g, c.x, c.y));
    }
}

#[test]
fn walls_are_unreachable_and_detours_counted() {
    let mut g = HexGrid::new(2);
    g.refresh();
    assert_eq!(g.build(h(1, 0), 1), Ok(()));
    assert_eq!(dist(&g, 1, 0), UNREACHABLE);
    assert_eq!(dist(&g, 2, 0), 3);
    assert_eq!(g.build(h(1, -1), 2), Ok(()));
    assert_eq!(g.build(h(0, 1), 3), Ok(()));
    assert_eq!(dist(&g, 2, 0), 5);
    assert_eq!(dist(&g, 1, -1), UNREACHABLE);
    assert_eq!(dist(&g, 0, 1), UNREACHABLE);
}

#[test]
fn bridge_cell_is_flagged_before_being_occupied() {
    let mut g = walled_grid(2, &[(1, 0), (2, 0)]);
    assert_eq!(dist(&g, 0, 0), 0);
    assert_eq!(dist(&g, 1, 0), 1);
    assert_eq!(dist(&g, 2, 0), 2);
    assert!(flagged(&g, 1, 0));
    assert!(!flagged(&g, 2, 0));
    assert!(!flagged(&g, 0, 0));
    assert_eq!(g.build(h(1, 0), 7), Err(GridError::WouldDisconnectGrid));
    assert_eq!(g.get(h(1, 0)).unwrap().occupant, None);
    assert_eq!(dist(&g, 2, 0), 2);
}

#[test]
fn force_occupied_bridge_cuts_off_the_far_cell() {
    let mut g = HexGrid::new(2);
    let mut handle = 100;
    for c in map_coords(2) {
        if c != HexCoord::origin() && c != h(2, 0) {
            assert_eq!(g.set_occupant(c, handle), Ok(()));
            handle += 1;
        }
    }
    g.refresh();
    assert_eq!(g.get(h(2, 0)).unwrap().occupant, None);
    assert_eq!(dist(&g, 2, 0), UNREACHABLE);
    assert!(!flagged(&g, 2, 0));
}

#[test]
fn corridor_interior_cells_are_flagged() {
    let g = walled_grid(3, &[(1, 0), (2, 0), (3, 0)]);
    assert!(flagged(&g, 1, 0));
    assert!(flagged(&g, 2, 0));
    assert!(!flagged(&g, 3, 0));
    assert!(!flagged(&g, 0, 0));
    assert_eq!(dist(&g, 3, 0), 3);
}

#[test]
fn bent_corridor_interior_cells_are_flagged() {
    let g = walled_grid(3, &[(0, -1), (1, -2), (2, -2), (2, -1)]);
    assert!(flagged(&g, 0, -1));
    assert!(flagged(&g, 1, -2));
    assert!(flagged(&g, 2, -2));
    assert!(!flagged(&g, 2, -1));
    assert_eq!(dist(&g, 2, -1), 4);
}

#[test]
fn goal_with_two_branches_is_flagged() {
    let g = walled_grid(2, &[(1, 0), (-1, 0)]);
    assert!(flagged(&g, 0, 0));
    assert!(!flagged(&g, 1, 0));
    assert!(!flagged(&g, -1, 0));
}

#[test]
fn refreshing_twice_changes_nothing() {
    let mut g = walled_grid(3, &[(1, 0), (2, 0), (2, -1), (0, 1), (0, 2), (-1, 2)]);
    let before: Vec<_> = map_coords(3).into_iter().map(|c| g.get(c).unwrap()).collect();
    g.refresh();
    let after: Vec<_> = map_coords(3).into_iter().map(|c| g.get(c).unwrap()).collect();
    assert_eq!(before, after);
}

#[test]
fn stale_flag_cleared_after_removal() {
    let mut g = walled_grid(2, &[(1, 0), (2, 0)]);
    assert!(flagged(&g, 1, 0));
    assert!(g.remove(h(2, -1)).unwrap().is_some());
    assert!(flagged(&g, 1, 0));
    assert!(g.remove(h(1, -1)).unwrap().is_some());
    assert!(!flagged(&g, 1, 0));
    assert!(!flagged(&g, 2, -1));
    assert!(!flagged(&g, 1, -1));
    assert_eq!(dist(&g, 2, -1), 2);
}

#[test]
fn unflagged_build_keeps_every_other_cell_reachable() {
    let mut g = walled_grid(3, &[(1, 0), (2, 0), (2, -1), (1, -1), (0, 1), (0, 2)]);
    for c in map_coords(3) {
        let cell = g.get(c).unwrap();
        if c == HexCoord::origin() || cell.occupant.is_some() || cell.non_constructible {
            continue;
        }
        let mut trial = walled_grid(3, &[(1, 0), (2, 0), (2, -1), (1, -1), (0, 1), (0, 2)]);
        assert_eq!(trial.build(c, 9), Ok(()));
        for other in map_coords(3) {
            if other != c && g.get(other).unwrap().distance != UNREACHABLE {
                assert_ne!(trial.get(other).unwrap().distance, UNREACHABLE);
            }
        }
    }
    assert_eq!(g.build(h(0, 1), 5), Err(GridError::WouldDisconnectGrid));
    assert_eq!(g.build(h(2, 0), 5), Ok(()));
}

#[test]
fn build_errors() {
    let mut g = HexGrid::new(2);
    g.refresh();
    assert_eq!(g.build(h(3, 0), 1), Err(GridError::OutOfBounds));
    assert_eq!(g.build(h(0, 0), 1), Err(GridError::WouldDisconnectGrid));
    assert_eq!(g.build(h(1, 1), 1), Ok(()));
    assert_eq!(g.build(h(1, 1), 2), Err(GridError::AlreadyOccupied));
    assert_eq!(g.get(h(1, 1)).unwrap().occupant, Some(1));
    assert_eq!(g.set_occupant(h(-3, 1), 4), Err(GridError::OutOfBounds));
}

#[test]
fn remove_returns_occupant() {
    let mut g = HexGrid::new(2);
    g.refresh();
    assert_eq!(g.build(h(-1, 2), 42), Ok(()));
    assert_eq!(dist(&g, -1, 2), UNREACHABLE);
    assert_eq!(g.remove(h(-1, 2)), Ok(Some(42)));
    assert_eq!(dist(&g, -1, 2), 2);
    assert_eq!(g.remove(h(-1, 2)), Ok(None));
    assert_eq!(g.remove(h(5, 5)), Err(GridError::OutOfBounds));
    assert_eq!(g.clear_occupant(h(0, 3)), Err(GridError::OutOfBounds));
}

#[test]
fn enemy_steps_toward_goal() {
    let mut g = HexGrid::new(2);
    g.refresh();
    assert_eq!(best_steps(&g, h(2, 0)), Ok(vec![h(1, 0)]));
    assert_eq!(next_step(&g, h(2, 0)), Ok(h(1, 0)));
    assert_eq!(best_steps(&g, h(1, 1)), Ok(vec![h(1, 0), h(0, 1)]));
    let step = next_step(&g, h(1, 1)).unwrap();
    assert!(step == h(1, 0) || step == h(0, 1));
    assert_eq!(best_steps(&g, h(1, 0)), Ok(vec![h(0, 0)]));
}

#[test]
fn enemy_avoids_walls() {
    let mut g = HexGrid::new(2);
    g.refresh();
    assert_eq!(g.build(h(1, 0), 1), Ok(()));
    assert_eq!(best_steps(&g, h(2, 0)), Ok(vec![h(2, -1), h(1, 1)]));
}

#[test]
fn enemy_with_no_open_neighbour() {
    let g = walled_grid(2, &[(1, 0), (2, 0)]);
    assert_eq!(best_steps(&g, h(-2, 1)), Err(PathError::UnreachableTarget));
    assert_eq!(next_step(&g, h(-2, 1)), Err(PathError::UnreachableTarget));
    assert_eq!(best_steps(&g, h(5, 5)), Err(PathError::UnreachableTarget));
}

#[test]
fn radius_zero_grid_is_the_goal_alone() {
    let mut g = HexGrid::new(0);
    g.refresh();
    assert_eq!(dist(&g, 0, 0), 0);
    assert!(!flagged(&g, 0, 0));
    assert!(g.get(h(1, 0)).is_none());
    assert_eq!(g.build(h(0, 0), 1), Err(GridError::WouldDisconnectGrid));
    assert_eq!(best_steps(&g, h(0, 0)), Err(PathError::UnreachableTarget));
}

#[test]
fn largest_grid_bounds() {
    let g = HexGrid::new(hexdefense::model::MAX_RADIUS);
    assert_eq!(g.radius(), 1000);
    assert!(g.get(h(1000, -1000)).is_some());
    assert!(g.get(h(-1000, 0)).is_some());
    assert!(g.get(h(1000, 1)).is_none());
    assert!(g.get(h(1001, 0)).is_none());
    assert_eq!(g.get(h(0, 1000)).unwrap().distance, UNREACHABLE);
}
