//! Axial hexagonal coordinates and the coordinate math the grid relies on.
use vstd::prelude::*;

verus! {

/// Largest absolute value of a coordinate component that the hex math accepts.
pub const COORD_LIMIT: i32 = 0x1000_0000;

/// An axial hexagonal coordinate `(x, y)`; the implicit cubic third axis is `-x - y`.
#[derive(Clone, Copy, Debug, PartialEq, Eq, Hash, Structural)]
pub struct HexCoord {
    pub x: i32,
    pub y: i32,
}

pub open spec fn abs(v: int) -> int {
    if v < 0 { -v } else { v }
}

/// Number of hex steps from the origin to `(x, y)`.
pub open spec fn hex_length(x: int, y: int) -> int {
    let (a, b, c) = (abs(x), abs(y), abs(x + y));
    if a >= b && a >= c { a } else if b >= c { b } else { c }
}

/// Number of hex steps between two coordinates.
pub open spec fn hex_distance(a: HexCoord, b: HexCoord) -> int {
    hex_length(a.x - b.x, a.y - b.y)
}

/// Both components lie within `COORD_LIMIT`, so that neighbours and distances
/// are computed without overflow.
pub open spec fn in_range(c: HexCoord) -> bool {
    -COORD_LIMIT <= c.x <= COORD_LIMIT && -COORD_LIMIT <= c.y <= COORD_LIMIT
}

/// The offset of the `k`-th neighbour, in the fixed neighbour order.
pub open spec fn neighbor_dx(k: int) -> int {
    if k == 0 { 1 } else if k == 1 { 0 } else if k == 2 { -1 }
    else if k == 3 { -1 } else if k == 4 { 0 } else { 1 }
}

pub open spec fn neighbor_dy(k: int) -> int {
    if k == 0 { -1 } else if k == 1 { -1 } else if k == 2 { 0 }
    else if k == 3 { 1 } else if k == 4 { 1 } else { 0 }
}

/// The `k`-th neighbour of `c` (`0 <= k < 6`).
pub open spec fn neighbor_at(c: HexCoord, k: int) -> HexCoord {
    HexCoord { x: (c.x + neighbor_dx(k)) as i32, y: (c.y + neighbor_dy(k)) as i32 }
}

/// The six neighbours of `c`, in the fixed order used by every traversal.
pub open spec fn neighbor_seq(c: HexCoord) -> Seq<HexCoord> {
    Seq::new(6, |k: int| neighbor_at(c, k))
}

/// Number of coordinates on the ring of the given radius.
pub open spec fn ring_len(radius: int) -> int {
    if radius < 0 { 0 } else if radius == 0 { 1 } else { 6 * radius }
}

/// Relies on `hexx::Hex::all_neighbors`: the center plus each of
/// `Hex::NEIGHBORS_COORDS`, i.e. (1,-1), (0,-1), (-1,0), (-1,1), (0,1), (1,0).
#[verifier::external_body]
fn hexx_all_neighbors(c: HexCoord) -> (r: [HexCoord; 6])
    requires
        in_range(c),
    ensures
        r@ == neighbor_seq(c),
{
    hexx::Hex::new(c.x, c.y).all_neighbors().map(|h| HexCoord { x: h.x, y: h.y })
}

/// Relies on `hexx::HexBounds::is_in_bounds`: the unsigned hex distance from
/// the bounds' center is at most the bounds' radius.
#[verifier::external_body]
fn hexx_is_in_bounds(center: HexCoord, radius: u32, c: HexCoord) -> (r: bool)
    requires
        in_range(center),
        in_range(c),
    ensures
        r == (hex_distance(center, c) <= radius),
{
    hexx::HexBounds::new(hexx::Hex::new(center.x, center.y), radius).is_in_bounds(
        hexx::Hex::new(c.x, c.y),
    )
}

/// Relies on `hexx::Hex::ring`: `6 * radius` coordinates (just the center for
/// radius 0), each `radius` steps away from the center.
#[verifier::external_body]
fn hexx_ring(center: HexCoord, radius: u32) -> (r: Vec<HexCoord>)
    requires
        in_range(center),
        radius <= COORD_LIMIT,
    ensures
        r@.len() == ring_len(radius as int),
        forall|i: int| 0 <= i < r@.len() ==> hex_distance(center, #[trigger] r@[i]) == radius,
{
    hexx::Hex::new(center.x, center.y).ring(radius).map(|h| HexCoord { x: h.x, y: h.y }).collect()
}

impl HexCoord {
    /// The goal cell at the center of every grid.
    pub fn origin() -> (r: HexCoord)
        ensures
            r.x == 0,
            r.y == 0,
    {
        HexCoord { x: 0, y: 0 }
    }

    pub fn new(x: i32, y: i32) -> (r: HexCoord)
        ensures
            r.x == x,
            r.y == y,
    {
        HexCoord { x, y }
    }
}

/// The six neighbours of `c`, always in the same order.
pub fn neighbors(c: HexCoord) -> (r: [HexCoord; 6])
    requires
        in_range(c),
    ensures
        r@ == neighbor_seq(c),
{
    hexx_all_neighbors(c)
}

/// Whether `c` lies within `radius` hex steps of `center`.
pub fn is_within(center: HexCoord, radius: u32, c: HexCoord) -> (r: bool)
    requires
        in_range(center),
        in_range(c),
    ensures
        r == (hex_distance(center, c) <= radius),
{
    hexx_is_in_bounds(center, radius, c)
}

/// All coordinates at exactly `radius` steps from `center`: none for a
/// negative radius, the center alone for radius 0.
pub fn ring(center: HexCoord, radius: i32) -> (r: Vec<HexCoord>)
    requires
        in_range(center),
        radius <= COORD_LIMIT,
    ensures
        r@.len() == ring_len(radius as int),
        forall|i: int| 0 <= i < r@.len() ==> hex_distance(center, #[trigger] r@[i]) == radius,
{
    if radius < 0 {
        Vec::new()
    } else {
        hexx_ring(center, radius as u32)
    }
}

} // verus!
