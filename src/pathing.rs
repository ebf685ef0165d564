//! Enemy pathing: from a cell, step to a neighbour of least finite distance.
use vstd::prelude::*;
use crate::distance::UNREACHABLE;
use crate::grid::{coord_in_map, slot_at, HexGrid};
use crate::hex::{in_range, neighbor_at, neighbor_seq, neighbors, HexCoord};

verus! {

/// No neighbour of the enemy's cell leads toward the goal.
#[derive(Clone, Copy, Debug, PartialEq, Eq, Structural)]
pub enum PathError {
    UnreachableTarget,
}

/// Distance stored for map coordinate `c`.
pub open spec fn distance_at(g: HexGrid, c: HexCoord) -> u32 {
    g.distances()[slot_at(g.spec_radius(), c)]
}

/// An enemy may step onto `c`: a map cell, unoccupied, reachable from the goal.
pub open spec fn steppable(g: HexGrid, c: HexCoord) -> bool {
    &&& coord_in_map(g.spec_radius(), c)
    &&& g.occupancy()[slot_at(g.spec_radius(), c)].is_none()
    &&& distance_at(g, c) != UNREACHABLE
}

/// `c` is a steppable neighbour of `from` with the least distance among them.
pub open spec fn best_step(g: HexGrid, from: HexCoord, c: HexCoord) -> bool {
    &&& neighbor_seq(from).contains(c)
    &&& steppable(g, c)
    &&& forall|k: int| 0 <= k < 6 && steppable(g, #[trigger] neighbor_at(from, k)) ==> distance_at(g, c) <= distance_at(g, neighbor_at(from, k))
}

/// The neighbours of `from` that an enemy may step onto with the least
/// distance from the goal, in neighbour order; `UnreachableTarget` when none
/// is steppable.
pub fn best_steps(grid: &HexGrid, from: HexCoord) -> (r: Result<Vec<HexCoord>, PathError>)
    requires
        grid.wf(),
        in_range(from),
    ensures
        r.is_err() == (forall|k: int| 0 <= k < 6 ==> !steppable(*grid, #[trigger] neighbor_at(from, k))),
        r.is_ok() ==> {
            let v = r.unwrap()@;
            &&& v.len() > 0
            &&& v.no_duplicates()
            &&& forall|i: int| 0 <= i < v.len() ==> best_step(*grid, from, #[trigger] v[i])
            &&& forall|k: int| 0 <= k < 6 && best_step(*grid, from, #[trigger] neighbor_at(from, k)) ==> v.contains(neighbor_at(from, k))
        },
{
    let nb = neighbors(from);
    let mut best: u32 = UNREACHABLE;
    let mut k: usize = 0;
    while k < 6
        invariant
            grid.wf(),
            nb@ == neighbor_seq(from),
            k <= 6,
            forall|j: int| 0 <= j < k && steppable(*grid, #[trigger] neighbor_at(from, j)) ==> best <= distance_at(*grid, neighbor_at(from, j)),
            best != UNREACHABLE ==> exists|j: int| 0 <= j < k && steppable(*grid, #[trigger] neighbor_at(from, j)) && distance_at(*grid, neighbor_at(from, j)) == best,
        decreases 6 - k,
    {
        if let Some(cell) = grid.get(nb[k]) {
            if cell.occupant.is_none() && cell.distance < best {
                best = cell.distance;
            }
        }
        k += 1;
    }
    if best == UNREACHABLE {
        return Err(PathError::UnreachableTarget);
    }
    let mut steps: Vec<HexCoord> = Vec::new();
    let ghost mut picked: Seq<int> = Seq::empty();
    let mut k: usize = 0;
    while k < 6
        invariant
            grid.wf(),
            nb@ == neighbor_seq(from),
            k <= 6,
            best != UNREACHABLE,
            forall|j: int| 0 <= j < 6 && steppable(*grid, #[trigger] neighbor_at(from, j)) ==> best <= distance_at(*grid, neighbor_at(from, j)),
            exists|j: int| 0 <= j < 6 && steppable(*grid, #[trigger] neighbor_at(from, j)) && distance_at(*grid, neighbor_at(from, j)) == best,
            picked.len() == steps@.len(),
            forall|i: int| 0 <= i < steps@.len() ==> 0 <= #[trigger] picked[i] < k && steps@[i] == neighbor_at(from, picked[i]) && steppable(*grid, neighbor_at(from, picked[i])) && distance_at(*grid, neighbor_at(from, picked[i])) == best,
            forall|j: int| 0 <= j < k && steppable(*grid, #[trigger] neighbor_at(from, j)) && distance_at(*grid, neighbor_at(from, j)) == best ==> steps@.contains(neighbor_at(from, j)),
            steps@.no_duplicates(),
        decreases 6 - k,
    {
        let c = nb[k];
        if let Some(cell) = grid.get(c) {
            if cell.occupant.is_none() && cell.distance == best {
                proof {
                    assert forall|i: int| 0 <= i < steps@.len() implies steps@[i] != c by {
                        let j = picked[i];
                        assert(neighbor_at(from, j) != neighbor_at(from, k as int));
                    }
                }
                let ghost before = steps@;
                steps.push(c);
                proof {
                    picked = picked.push(k as int);
                    assert(steps@[before.len() as int] == neighbor_at(from, k as int));
                    assert forall|j: int| 0 <= j < k + 1 && steppable(*grid, #[trigger] neighbor_at(from, j)) && distance_at(*grid, neighbor_at(from, j)) == best implies steps@.contains(neighbor_at(from, j)) by {
                        if j == k {
                            assert(steps@[before.len() as int] == c);
                        } else {
                            assert(before.contains(neighbor_at(from, j)));
                            let i = before.index_of(neighbor_at(from, j));
                            assert(steps@[i] == before[i]);
                        }
                    }
                }
            }
        }
        k += 1;
    }
    proof {
        assert forall|i: int| 0 <= i < steps@.len() implies best_step(*grid, from, #[trigger] steps@[i]) by {
            let j = picked[i];
            assert(neighbor_seq(from)[j] == steps@[i]);
        }
        let j = choose|j: int| 0 <= j < 6 && steppable(*grid, #[trigger] neighbor_at(from, j)) && distance_at(*grid, neighbor_at(from, j)) == best;
        assert(steps@.contains(neighbor_at(from, j)));
    }
    Ok(steps)
}

/// Relies on `rand::Rng::gen_range` over `rand::thread_rng()`: a value in
/// `0..n`, which must not be empty.
#[verifier::external_body]
fn random_below(n: usize) -> (r: usize)
    requires
        n > 0,
    ensures
        r < n,
{
    rand::Rng::gen_range(&mut rand::thread_rng(), 0..n)
}

/// The cell an enemy on `from` moves to next: one of the best steps, picked
/// at random among equals.
pub fn next_step(grid: &HexGrid, from: HexCoord) -> (r: Result<HexCoord, PathError>)
    requires
        grid.wf(),
        in_range(from),
    ensures
        r.is_err() == (forall|k: int| 0 <= k < 6 ==> !steppable(*grid, #[trigger] neighbor_at(from, k))),
        r.is_ok() ==> best_step(*grid, from, r.unwrap()),
{
    let steps = best_steps(grid, from)?;
    let i = random_below(steps.len());
    Ok(steps[i])
}

} // verus!
