//! Properties of a refreshed grid, and of what one build does to it.
use vstd::prelude::*;
use crate::constructibility::{cuts_off, goal_separates};
use crate::distance::{distances_correct, is_shortest_distance, UNREACHABLE};
use crate::grid::HexGrid;
use crate::model::{goal, passable, reaches, slot_count, walk_to};

verus! {

/// A slot has a finite distance exactly when some walk from the goal reaches it.
proof fn lemma_finite_iff_reaches(radius: int, blocked: Seq<bool>, dist: Seq<u32>, v: int)
    requires
        distances_correct(radius, blocked, dist),
        0 <= v < dist.len(),
    ensures
        (dist[v] != UNREACHABLE) == reaches(radius, blocked, v),
{
    if dist[v] != UNREACHABLE {
        assert(is_shortest_distance(radius, blocked, v, dist[v] as int));
        let p = choose|p: Seq<int>| #[trigger] walk_to(radius, blocked, p, v) && p.len() == dist[v] + 1;
    }
}

/// Occupied cells are walls: a refreshed grid gives each of them the
/// distance `UNREACHABLE`.
pub proof fn lemma_occupied_cells_unreachable(g: HexGrid, i: int)
    requires
        g.refreshed(),
        0 <= i < slot_count(g.spec_radius()),
        g.occupancy()[i].is_some(),
    ensures
        g.distances()[i] == UNREACHABLE,
{
    if g.distances()[i] != UNREACHABLE {
        lemma_finite_iff_reaches(g.spec_radius(), g.blocked(), g.distances(), i);
        let p = choose|p: Seq<int>| walk_to(g.spec_radius(), g.blocked(), p, i);
        assert(passable(g.spec_radius(), g.blocked(), p[p.len() - 1]));
    }
}

/// Building on a cell that is not flagged, other than the goal, and
/// refreshing makes no other cell unreachable: every cell but the built one
/// that had a finite distance before has one after.
pub proof fn lemma_unflagged_build_keeps_cells_reachable(
    before: HexGrid,
    after: HexGrid,
    c: int,
    occupant: u64,
)
    requires
        before.refreshed(),
        after.refreshed(),
        after.spec_radius() == before.spec_radius(),
        0 <= c < slot_count(before.spec_radius()),
        c != goal(before.spec_radius()),
        !before.flags()[c],
        after.occupancy() == before.occupancy().update(c, Some(occupant)),
    ensures
        forall|w: int|
            0 <= w < slot_count(before.spec_radius()) && w != c && before.distances()[w]
                != UNREACHABLE ==> #[trigger] after.distances()[w] != UNREACHABLE,
{
    let r = before.spec_radius();
    assert(after.blocked() =~= before.blocked().update(c, true));
    assert forall|w: int|
        0 <= w < slot_count(r) && w != c && before.distances()[w] != UNREACHABLE implies #[trigger] after.distances()[w]
            != UNREACHABLE by {
        lemma_finite_iff_reaches(r, before.blocked(), before.distances(), w);
        assert(!cuts_off(r, before.blocked(), c, w));
        lemma_finite_iff_reaches(r, after.blocked(), after.distances(), w);
    }
}

/// A cell other than the goal whose occupation would cut some other
/// reachable cell off from the goal is flagged. On a grid shaped as a single
/// corridor from the goal, every cell strictly between the goal and the far
/// end is such a cell.
pub proof fn lemma_separating_cells_flagged(g: HexGrid, c: int, w: int)
    requires
        g.refreshed(),
        0 <= c < slot_count(g.spec_radius()),
        c != goal(g.spec_radius()),
        w != c,
        reaches(g.spec_radius(), g.blocked(), w),
        !reaches(g.spec_radius(), g.blocked().update(c, true), w),
    ensures
        g.flags()[c],
{
    assert(cuts_off(g.spec_radius(), g.blocked(), c, w));
}

/// A refreshed grid's distances and flags are determined by its radius and
/// occupancy alone: two refreshed grids that agree on these hold the same
/// distances and the same flags. So refreshing twice with no change in
/// between changes nothing.
pub proof fn lemma_refreshed_grids_agree(g1: HexGrid, g2: HexGrid)
    requires
        g1.refreshed(),
        g2.refreshed(),
        g1.spec_radius() == g2.spec_radius(),
        g1.occupancy() == g2.occupancy(),
    ensures
        g1.distances() == g2.distances(),
        g1.flags() == g2.flags(),
{
    let r = g1.spec_radius();
    let b = g1.blocked();
    let d1 = g1.distances();
    let d2 = g2.distances();
    assert forall|v: int| 0 <= v < d1.len() implies d1[v] == d2[v] by {
        lemma_finite_iff_reaches(r, b, d1, v);
        lemma_finite_iff_reaches(r, b, d2, v);
        if d1[v] != UNREACHABLE {
            assert(is_shortest_distance(r, b, v, d1[v] as int));
            assert(is_shortest_distance(r, b, v, d2[v] as int));
            let walk1 = choose|p: Seq<int>| #[trigger] walk_to(r, b, p, v) && p.len() == d1[v] + 1;
            let walk2 = choose|p: Seq<int>| #[trigger] walk_to(r, b, p, v) && p.len() == d2[v] + 1;
        }
    }
    assert(d1 =~= d2);
    assert forall|c: int| 0 <= c < g1.flags().len() implies g1.flags()[c] == g2.flags()[c] by {
        lemma_flag_iff_separates(g1, c);
        lemma_flag_iff_separates(g2, c);
    }
    assert(g1.flags() =~= g2.flags());
}

/// A refreshed grid flags a cell other than the goal exactly when occupying
/// it would cut some other reachable cell off from the goal, and the goal
/// exactly when occupying it would separate two reachable cells. Flags thus
/// follow the current occupancy: one that a removal made redundant is gone
/// after the refresh.
pub proof fn lemma_flag_iff_separates(g: HexGrid, c: int)
    requires
        g.refreshed(),
        0 <= c < slot_count(g.spec_radius()),
    ensures
        c != goal(g.spec_radius()) ==> (g.flags()[c] <==> exists|w: int| w != c && #[trigger] cuts_off(
            g.spec_radius(),
            g.blocked(),
            c,
            w,
        )),
        c == goal(g.spec_radius()) ==> g.flags()[c] == goal_separates(g.spec_radius(), g.blocked()),
{
}

/// A refreshed grid flags only cells that are unoccupied and reachable from
/// the goal.
pub proof fn lemma_flags_only_on_reachable_cells(g: HexGrid, i: int)
    requires
        g.refreshed(),
        0 <= i < slot_count(g.spec_radius()),
        g.flags()[i],
    ensures
        g.occupancy()[i].is_none(),
        g.distances()[i] != UNREACHABLE,
{
    let r = g.spec_radius();
    assert(reaches(r, g.blocked(), i));
    let p = choose|p: Seq<int>| walk_to(r, g.blocked(), p, i);
    assert(passable(r, g.blocked(), p[p.len() - 1]));
    lemma_finite_iff_reaches(r, g.blocked(), g.distances(), i);
}

} // verus!
