//! The grid store: one cell per coordinate of the hex disk around the goal.
use vstd::prelude::*;
use crate::constructibility::{flags_correct, non_constructible_cells};
use crate::distance::{blocked_of, distances_correct, shortest_distances, UNREACHABLE};
use crate::hex::{hex_distance, hex_length, in_range, is_within, HexCoord};
use crate::model::{
    goal, in_map, in_square, lemma_coord_slot, lemma_goal_in_map, lemma_slot_coord, radius_ok, slot_count, slot_of,
    slot_x, slot_y, MAX_RADIUS,
};

verus! {

/// The coordinate stored in slot `i` of a grid of this radius.
pub(crate) fn coord_at(radius: u32, i: usize) -> (r: HexCoord)
    requires
        radius_ok(radius as int),
        i < slot_count(radius as int),
    ensures
        r.x == slot_x(radius as int, i as int),
        r.y == slot_y(radius as int, i as int),
        in_square(radius as int, r.x as int, r.y as int),
{
    proof {
        lemma_slot_coord(radius as int, i as int);
    }
    let s: usize = 2 * (radius as usize) + 1;
    let x: i32 = (i / s) as i32 - radius as i32;
    let y: i32 = (i % s) as i32 - radius as i32;
    HexCoord { x, y }
}

/// The slot of `c` when `c` is a cell of the map, `None` otherwise.
pub(crate) fn slot_in_map(radius: u32, c: HexCoord) -> (r: Option<usize>)
    requires
        radius_ok(radius as int),
        in_range(c),
    ensures
        r.is_some() == (in_square(radius as int, c.x as int, c.y as int)
            && hex_length(c.x as int, c.y as int) <= radius),
        r.is_some() ==> {
            let w = r.unwrap() as int;
            &&& w == slot_of(radius as int, c.x as int, c.y as int)
            &&& in_map(radius as int, w)
            &&& slot_x(radius as int, w) == c.x
            &&& slot_y(radius as int, w) == c.y
        },
{
    let rad = radius as i32;
    if c.x < -rad || c.x > rad || c.y < -rad || c.y > rad {
        return None;
    }
    let origin = HexCoord { x: 0, y: 0 };
    if !is_within(origin, radius, c) {
        return None;
    }
    proof {
        lemma_coord_slot(radius as int, c.x as int, c.y as int);
        assert(hex_distance(origin, c) == hex_length(c.x as int, c.y as int));
    }
    let s: usize = 2 * (radius as usize) + 1;
    let a: usize = (c.x + rad) as usize;
    let b: usize = (c.y + rad) as usize;
    assert(a * s + b < 4_100_000) by (nonlinear_arith)
        requires a <= 2 * radius, b <= 2 * radius, s == 2 * radius + 1, radius <= 1000;
    Some(a * s + b)
}

/// The storage slot of the goal.
pub(crate) fn goal_slot(radius: u32) -> (g: usize)
    requires
        radius_ok(radius as int),
    ensures
        g == goal(radius as int),
        g < slot_count(radius as int),
{
    let rad = radius as usize;
    assert(rad * (2 * rad + 1) + rad < (2 * rad + 1) * (2 * rad + 1)) by (nonlinear_arith)
        requires rad <= 1000;
    assert(rad * (2 * rad + 1) + rad <= 4_004_001) by (nonlinear_arith)
        requires rad <= 1000;
    rad * (2 * rad + 1) + rad
}

/// `c` is a coordinate of the map of this radius: within `radius` steps of the goal.
pub open spec fn coord_in_map(radius: int, c: HexCoord) -> bool {
    in_square(radius, c.x as int, c.y as int) && hex_length(c.x as int, c.y as int) <= radius
}

/// The storage slot of map coordinate `c`.
pub open spec fn slot_at(radius: int, c: HexCoord) -> int {
    slot_of(radius, c.x as int, c.y as int)
}

/// Why an occupancy change was refused. None of them changes the grid.
#[derive(Clone, Copy, Debug, PartialEq, Eq, Structural)]
pub enum GridError {
    /// The coordinate lies outside the map.
    OutOfBounds,
    /// The cell already holds an occupant.
    AlreadyOccupied,
    /// Occupying the cell could cut cells off from the goal, or the cell is the goal.
    WouldDisconnectGrid,
}

/// A snapshot of one map cell.
#[derive(Clone, Copy, Debug, PartialEq, Eq, Structural)]
pub struct Cell {
    pub coord: HexCoord,
    /// Hex steps from the goal, or `UNREACHABLE`.
    pub distance: u32,
    /// Opaque handle of the building on the cell, if any.
    pub occupant: Option<u64>,
    /// Occupying the cell could cut cells off from the goal.
    pub non_constructible: bool,
}

/// The map: one cell per coordinate within `radius` of the goal at the
/// origin, with its occupant, its distance from the goal and its
/// constructibility flag. Cells are stored in a square of side
/// `2 * radius + 1`; the slots outside the disk are never occupied.
pub struct HexGrid {
    radius: u32,
    occupants: Vec<Option<u64>>,
    distances: Vec<u32>,
    flags: Vec<bool>,
}

impl HexGrid {
    pub closed spec fn spec_radius(&self) -> int {
        self.radius as int
    }

    /// Occupant of each storage slot.
    pub closed spec fn occupancy(&self) -> Seq<Option<u64>> {
        self.occupants@
    }

    /// Distance stored for each slot.
    pub closed spec fn distances(&self) -> Seq<u32> {
        self.distances@
    }

    /// Constructibility flag stored for each slot.
    pub closed spec fn flags(&self) -> Seq<bool> {
        self.flags@
    }

    pub open spec fn blocked(&self) -> Seq<bool> {
        blocked_of(self.occupancy())
    }

    /// Same radius, occupants, distances and flags.
    pub open spec fn same_state(&self, other: HexGrid) -> bool {
        &&& self.spec_radius() == other.spec_radius()
        &&& self.occupancy() == other.occupancy()
        &&& self.distances() == other.distances()
        &&& self.flags() == other.flags()
    }

    /// Storage has one slot per coordinate of the square, only map cells are
    /// occupied, and the goal never is.
    pub open spec fn wf(&self) -> bool {
        let r = self.spec_radius();
        &&& radius_ok(r)
        &&& self.occupancy().len() == slot_count(r)
        &&& self.distances().len() == slot_count(r)
        &&& self.flags().len() == slot_count(r)
        &&& forall|i: int| 0 <= i < slot_count(r) && !in_map(r, i) ==> #[trigger] self.occupancy()[i].is_none()
        &&& self.occupancy()[goal(r)].is_none()
    }

    /// Distances and flags are those of the current occupancy: the state in
    /// which the mutation protocol leaves the grid.
    pub open spec fn refreshed(&self) -> bool {
        &&& self.wf()
        &&& distances_correct(self.spec_radius(), self.blocked(), self.distances())
        &&& flags_correct(self.spec_radius(), self.blocked(), self.flags())
    }

    /// An empty map of the given radius. Distances read `UNREACHABLE` and no
    /// cell is flagged until the first `refresh`.
    pub fn new(radius: u32) -> (g: HexGrid)
        requires
            radius <= MAX_RADIUS,
        ensures
            g.wf(),
            g.spec_radius() == radius,
            forall|i: int| 0 <= i < slot_count(radius as int) ==> #[trigger] g.occupancy()[i].is_none(),
            forall|i: int| 0 <= i < slot_count(radius as int) ==> #[trigger] g.distances()[i] == UNREACHABLE,
            forall|i: int| 0 <= i < slot_count(radius as int) ==> !#[trigger] g.flags()[i],
    {
        let side: usize = 2 * (radius as usize) + 1;
        assert(side * side <= 4_004_001) by (nonlinear_arith)
            requires side == 2 * radius + 1, radius <= 1000;
        let n: usize = side * side;
        let mut occupants: Vec<Option<u64>> = Vec::new();
        let mut distances: Vec<u32> = Vec::new();
        let mut flags: Vec<bool> = Vec::new();
        let mut i: usize = 0;
        while i < n
            invariant
                i <= n,
                occupants@.len() == i,
                distances@.len() == i,
                flags@.len() == i,
                forall|j: int| 0 <= j < i ==> occupants@[j].is_none(),
                forall|j: int| 0 <= j < i ==> distances@[j] == UNREACHABLE,
                forall|j: int| 0 <= j < i ==> !flags@[j],
            decreases n - i,
        {
            occupants.push(None);
            distances.push(UNREACHABLE);
            flags.push(false);
            i += 1;
        }
        let g = goal_slot(radius);
        HexGrid { radius, occupants, distances, flags }
    }

    pub fn radius(&self) -> (r: u32)
        ensures
            r == self.spec_radius(),
    {
        self.radius
    }

    /// The storage slot of `c`, or `None` when `c` is outside the map.
    fn locate(&self, c: HexCoord) -> (r: Option<usize>)
        requires
            self.wf(),
        ensures
            r.is_some() == coord_in_map(self.spec_radius(), c),
            r.is_some() ==> r.unwrap() == slot_at(self.spec_radius(), c) && in_map(
                self.spec_radius(),
                r.unwrap() as int,
            ) && slot_x(self.spec_radius(), r.unwrap() as int) == c.x && slot_y(
                self.spec_radius(),
                r.unwrap() as int,
            ) == c.y,
    {
        let rad = self.radius as i32;
        if c.x < -rad || c.x > rad || c.y < -rad || c.y > rad {
            return None;
        }
        slot_in_map(self.radius, c)
    }

    /// The cell at `c`, or `None` when `c` is outside the map.
    pub fn get(&self, c: HexCoord) -> (r: Option<Cell>)
        requires
            self.wf(),
        ensures
            r.is_some() == coord_in_map(self.spec_radius(), c),
            r.is_some() ==> {
                let i = slot_at(self.spec_radius(), c);
                &&& r.unwrap().coord == c
                &&& r.unwrap().distance == self.distances()[i]
                &&& r.unwrap().occupant == self.occupancy()[i]
                &&& r.unwrap().non_constructible == self.flags()[i]
            },
    {
        match self.locate(c) {
            Some(i) => Some(
                Cell {
                    coord: c,
                    distance: self.distances[i],
                    occupant: self.occupants[i],
                    non_constructible: self.flags[i],
                },
            ),
            None => None,
        }
    }

    /// Places `occupant` on `c`, without recomputing anything: the cell must
    /// lie in the map, be empty, be neither the goal nor flagged.
    pub fn set_occupant(&mut self, c: HexCoord, occupant: u64) -> (r: Result<(), GridError>)
        requires
            old(self).wf(),
        ensures
            final(self).wf(),
            final(self).spec_radius() == old(self).spec_radius(),
            final(self).distances() == old(self).distances(),
            final(self).flags() == old(self).flags(),
            ({
                let rad = old(self).spec_radius();
                let i = slot_at(rad, c);
                if !coord_in_map(rad, c) {
                    r == Err::<(), GridError>(GridError::OutOfBounds) && final(self).occupancy() == old(self).occupancy()
                } else if old(self).occupancy()[i].is_some() {
                    r == Err::<(), GridError>(GridError::AlreadyOccupied) && final(self).occupancy() == old(self).occupancy()
                } else if i == goal(rad) || old(self).flags()[i] {
                    r == Err::<(), GridError>(GridError::WouldDisconnectGrid) && final(self).occupancy() == old(self).occupancy()
                } else {
                    r == Ok::<(), GridError>(()) && final(self).occupancy() == old(self).occupancy().update(
                        i,
                        Some(occupant),
                    )
                }
            }),
    {
        let i = match self.locate(c) {
            Some(i) => i,
            None => return Err(GridError::OutOfBounds),
        };
        if self.occupants[i].is_some() {
            return Err(GridError::AlreadyOccupied);
        }
        let g = goal_slot(self.radius);
        if i == g || self.flags[i] {
            return Err(GridError::WouldDisconnectGrid);
        }
        let ghost before = self.occupants@;
        self.occupants.set(i, Some(occupant));
        proof {
            assert forall|j: int| 0 <= j < slot_count(self.radius as int) && !in_map(self.radius as int, j)
                implies #[trigger] self.occupancy()[j].is_none() by {
                assert(before[j].is_none());
            }
        }
        Ok(())
    }

    /// Removes and returns the occupant of `c`, without recomputing anything.
    /// Removal is always permitted: an empty cell gives `Ok(None)`.
    pub fn clear_occupant(&mut self, c: HexCoord) -> (r: Result<Option<u64>, GridError>)
        requires
            old(self).wf(),
        ensures
            final(self).wf(),
            final(self).spec_radius() == old(self).spec_radius(),
            final(self).distances() == old(self).distances(),
            final(self).flags() == old(self).flags(),
            ({
                let rad = old(self).spec_radius();
                let i = slot_at(rad, c);
                if !coord_in_map(rad, c) {
                    r == Err::<Option<u64>, GridError>(GridError::OutOfBounds) && final(self).occupancy()
                        == old(self).occupancy()
                } else {
                    r == Ok::<Option<u64>, GridError>(old(self).occupancy()[i]) && final(self).occupancy()
                        == old(self).occupancy().update(i, None)
                }
            }),
    {
        let i = match self.locate(c) {
            Some(i) => i,
            None => return Err(GridError::OutOfBounds),
        };
        let previous = self.occupants[i];
        let ghost before = self.occupants@;
        proof {
            lemma_goal_in_map(self.radius as int);
        }
        self.occupants.set(i, None);
        proof {
            assert forall|j: int| 0 <= j < slot_count(self.radius as int) && !in_map(self.radius as int, j)
                implies #[trigger] self.occupancy()[j].is_none() by {
                assert(before[j].is_none());
            }
        }
        Ok(previous)
    }

    /// Resets every constructibility flag.
    fn clear_flags(&mut self)
        requires
            old(self).wf(),
        ensures
            final(self).wf(),
            final(self).spec_radius() == old(self).spec_radius(),
            final(self).occupancy() == old(self).occupancy(),
            final(self).distances() == old(self).distances(),
            forall|i: int| 0 <= i < final(self).flags().len() ==> !#[trigger] final(self).flags()[i],
    {
        let n = self.flags.len();
        let ghost before = *self;
        let mut i: usize = 0;
        while i < n
            invariant
                i <= n,
                n == self.flags@.len(),
                self.radius == before.radius,
                self.occupants@ == before.occupants@,
                self.distances@ == before.distances@,
                forall|j: int| 0 <= j < i ==> !#[trigger] self.flags@[j],
            decreases n - i,
        {
            self.flags.set(i, false);
            i += 1;
        }
    }

    /// Runs the recomputation phases of the mutation protocol: clears the
    /// flags, recomputes every distance from the goal, then flags the cells
    /// whose occupation could cut cells off from the goal.
    pub fn refresh(&mut self)
        requires
            old(self).wf(),
        ensures
            final(self).refreshed(),
            final(self).spec_radius() == old(self).spec_radius(),
            final(self).occupancy() == old(self).occupancy(),
    {
        self.clear_flags();
        self.distances = shortest_distances(self.radius, &self.occupants);
        self.flags = non_constructible_cells(self.radius, &self.occupants);
    }

    /// Player build: places `occupant` on `c` and refreshes the grid. A
    /// refused build (outside the map, occupied, flagged or the goal) leaves
    /// the grid as it was.
    pub fn build(&mut self, c: HexCoord, occupant: u64) -> (r: Result<(), GridError>)
        requires
            old(self).wf(),
        ensures
            final(self).wf(),
            final(self).spec_radius() == old(self).spec_radius(),
            ({
                let rad = old(self).spec_radius();
                let i = slot_at(rad, c);
                if !coord_in_map(rad, c) {
                    r == Err::<(), GridError>(GridError::OutOfBounds) && final(self).same_state(*old(self))
                } else if old(self).occupancy()[i].is_some() {
                    r == Err::<(), GridError>(GridError::AlreadyOccupied) && final(self).same_state(*old(self))
                } else if i == goal(rad) || old(self).flags()[i] {
                    r == Err::<(), GridError>(GridError::WouldDisconnectGrid) && final(self).same_state(*old(self))
                } else {
                    &&& r == Ok::<(), GridError>(())
                    &&& final(self).occupancy() == old(self).occupancy().update(i, Some(occupant))
                    &&& final(self).refreshed()
                }
            }),
    {
        let ghost before = *self;
        match self.set_occupant(c, occupant) {
            Ok(()) => {
                self.refresh();
                Ok(())
            },
            Err(e) => {
                proof {
                    assert(self.occupants@ =~= before.occupants@);
                    assert(self.distances@ =~= before.distances@);
                    assert(self.flags@ =~= before.flags@);
                }
                Err(e)
            },
        }
    }

    /// Player removal: takes the occupant off `c`, if any, and refreshes the
    /// grid. Only a coordinate outside the map is refused.
    pub fn remove(&mut self, c: HexCoord) -> (r: Result<Option<u64>, GridError>)
        requires
            old(self).wf(),
        ensures
            final(self).wf(),
            final(self).spec_radius() == old(self).spec_radius(),
            ({
                let rad = old(self).spec_radius();
                let i = slot_at(rad, c);
                if !coord_in_map(rad, c) {
                    r == Err::<Option<u64>, GridError>(GridError::OutOfBounds) && final(self).same_state(*old(self))
                } else {
                    &&& r == Ok::<Option<u64>, GridError>(old(self).occupancy()[i])
                    &&& final(self).occupancy() == old(self).occupancy().update(i, None)
                    &&& final(self).refreshed()
                }
            }),
    {
        let ghost before = *self;
        match self.clear_occupant(c) {
            Ok(previous) => {
                self.refresh();
                Ok(previous)
            },
            Err(e) => {
                proof {
                    assert(self.occupants@ =~= before.occupants@);
                    assert(self.distances@ =~= before.distances@);
                    assert(self.flags@ =~= before.flags@);
                }
                Err(e)
            },
        }
    }
}

} // verus!
