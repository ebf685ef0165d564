//! The mathematical model of a grid: cells stored in a square of side
//! `2 * radius + 1`, the hex disk of the given radius inside it, adjacency,
//! walks through passable cells, and reachability from the goal.
use vstd::prelude::*;
use vstd::arithmetic::div_mod::{
    lemma_fundamental_div_mod, lemma_fundamental_div_mod_converse, lemma_mod_pos_bound,
    lemma_div_pos_is_pos,
};
use crate::hex::{hex_length, neighbor_dx, neighbor_dy};

verus! {

/// Largest grid radius accepted by the grid store.
pub const MAX_RADIUS: u32 = 1000;

/// Side of the square of storage slots that holds a grid of this radius.
pub open spec fn side(radius: int) -> int {
    2 * radius + 1
}

/// Number of storage slots of a grid of this radius.
pub open spec fn slot_count(radius: int) -> int {
    side(radius) * side(radius)
}

/// Axial `x` of the coordinate stored in slot `i`.
pub open spec fn slot_x(radius: int, i: int) -> int {
    i / side(radius) - radius
}

/// Axial `y` of the coordinate stored in slot `i`.
pub open spec fn slot_y(radius: int, i: int) -> int {
    i % side(radius) - radius
}

/// The slot that stores coordinate `(x, y)`.
pub open spec fn slot_of(radius: int, x: int, y: int) -> int {
    (x + radius) * side(radius) + (y + radius)
}

/// `(x, y)` lies in the square of stored coordinates.
pub open spec fn in_square(radius: int, x: int, y: int) -> bool {
    -radius <= x <= radius && -radius <= y <= radius
}

/// Slot `i` holds a cell of the map: a coordinate within `radius` of the goal.
pub open spec fn in_map(radius: int, i: int) -> bool {
    0 <= i < slot_count(radius) && hex_length(slot_x(radius, i), slot_y(radius, i)) <= radius
}

/// The slot of the goal cell, the origin.
pub open spec fn goal(radius: int) -> int {
    slot_of(radius, 0, 0)
}

/// Slot `i` is a map cell that is not occupied.
pub open spec fn passable(radius: int, blocked: Seq<bool>, i: int) -> bool {
    in_map(radius, i) && !blocked[i]
}

/// Slot `v` holds the `k`-th neighbour of the coordinate in slot `u`.
pub open spec fn step(radius: int, u: int, v: int, k: int) -> bool {
    slot_x(radius, v) == slot_x(radius, u) + neighbor_dx(k) && slot_y(radius, v) == slot_y(
        radius,
        u,
    ) + neighbor_dy(k)
}

/// Slots `u` and `v` hold coordinates one hex step apart.
pub open spec fn adjacent(radius: int, u: int, v: int) -> bool {
    exists|k: int| 0 <= k < 6 && #[trigger] step(radius, u, v, k)
}

/// `p` is a walk: a non-empty sequence of passable cells, each adjacent to the next.
pub open spec fn is_walk(radius: int, blocked: Seq<bool>, p: Seq<int>) -> bool {
    &&& p.len() > 0
    &&& forall|i: int| 0 <= i < p.len() ==> passable(radius, blocked, #[trigger] p[i])
    &&& forall|i: int| 0 <= i < p.len() - 1 ==> adjacent(radius, #[trigger] p[i], p[i + 1])
}

/// `p` is a walk from the goal to `v`.
pub open spec fn walk_to(radius: int, blocked: Seq<bool>, p: Seq<int>, v: int) -> bool {
    is_walk(radius, blocked, p) && p[0] == goal(radius) && p.last() == v
}

/// Some walk through passable cells leads from the goal to `v`.
pub open spec fn reaches(radius: int, blocked: Seq<bool>, v: int) -> bool {
    exists|p: Seq<int>| walk_to(radius, blocked, p, v)
}

/// Storage of a grid of this radius fits the machine.
pub open spec fn radius_ok(radius: int) -> bool {
    0 <= radius <= MAX_RADIUS
}

/// Slot `i` of the square holds coordinate `(slot_x, slot_y)`, which lies in
/// the square; and slot and coordinate determine each other.
pub proof fn lemma_slot_coord(radius: int, i: int)
    requires
        radius_ok(radius),
        0 <= i < slot_count(radius),
    ensures
        in_square(radius, slot_x(radius, i), slot_y(radius, i)),
        slot_of(radius, slot_x(radius, i), slot_y(radius, i)) == i,
{
    let s = side(radius);
    lemma_fundamental_div_mod(i, s);
    lemma_mod_pos_bound(i, s);
    lemma_div_pos_is_pos(i, s);
    let q = i / s;
    let r = i % s;
    assert(i == s * q + r);
    assert(q < s) by (nonlinear_arith)
        requires i == s * q + r, 0 <= r, i < s * s, s > 0;
    assert(((q - radius) + radius) * s + ((r - radius) + radius) == i) by (nonlinear_arith)
        requires i == s * q + r;
}

/// A coordinate of the square is stored in exactly one slot, which gives it back.
pub proof fn lemma_coord_slot(radius: int, x: int, y: int)
    requires
        radius_ok(radius),
        in_square(radius, x, y),
    ensures
        0 <= slot_of(radius, x, y) < slot_count(radius),
        slot_x(radius, slot_of(radius, x, y)) == x,
        slot_y(radius, slot_of(radius, x, y)) == y,
{
    let s = side(radius);
    let i = slot_of(radius, x, y);
    assert(0 <= i < s * s) by (nonlinear_arith)
        requires i == (x + radius) * s + (y + radius), s == 2 * radius + 1,
            -radius <= x <= radius, -radius <= y <= radius;
    lemma_fundamental_div_mod_converse(i, s, x + radius, y + radius);
}

/// Adjacency is symmetric.
pub proof fn lemma_adjacent_symmetric(radius: int, u: int, v: int)
    requires
        adjacent(radius, u, v),
    ensures
        adjacent(radius, v, u),
{
    let k = choose|k: int| 0 <= k < 6 && #[trigger] step(radius, u, v, k);
    let j = if k < 3 { k + 3 } else { k - 3 };
    assert(step(radius, v, u, j));
}

/// The reverse of a walk is a walk.
pub proof fn lemma_walk_reverse(radius: int, blocked: Seq<bool>, p: Seq<int>)
    requires
        is_walk(radius, blocked, p),
    ensures
        is_walk(radius, blocked, p.reverse()),
{
    let q = p.reverse();
    assert forall|i: int| 0 <= i < q.len() - 1 implies adjacent(radius, #[trigger] q[i], q[i + 1]) by {
        let j = p.len() - 2 - i;
        assert(adjacent(radius, p[j], p[j + 1]));
        lemma_adjacent_symmetric(radius, p[j], p[j + 1]);
    }
    assert forall|i: int| 0 <= i < q.len() implies passable(radius, blocked, #[trigger] q[i]) by {
        assert(passable(radius, blocked, p[p.len() - 1 - i]));
    }
}

/// Two walks that meet at a cell join into one walk.
pub proof fn lemma_walk_join(radius: int, blocked: Seq<bool>, p: Seq<int>, q: Seq<int>)
    requires
        is_walk(radius, blocked, p),
        is_walk(radius, blocked, q),
        p.last() == q[0],
    ensures
        is_walk(radius, blocked, p + q.drop_first()),
        (p + q.drop_first())[0] == p[0],
        (p + q.drop_first()).last() == q.last(),
{
    let r = p + q.drop_first();
    assert forall|i: int| 0 <= i < r.len() implies passable(radius, blocked, #[trigger] r[i]) by {
        if i < p.len() {
            assert(r[i] == p[i]);
        } else {
            assert(r[i] == q[i - p.len() + 1]);
        }
    }
    assert forall|i: int| 0 <= i < r.len() - 1 implies adjacent(radius, #[trigger] r[i], r[i + 1]) by {
        if i < p.len() - 1 {
            assert(r[i] == p[i] && r[i + 1] == p[i + 1]);
        } else if i == p.len() - 1 {
            assert(r[i] == q[0] && r[i + 1] == q[1]);
        } else {
            assert(r[i] == q[i - p.len() + 1] && r[i + 1] == q[i - p.len() + 2]);
        }
    }
    if q.len() == 1 {
        assert(r =~= p);
    } else {
        assert(r.last() == q[q.len() - 1]);
    }
}

/// Extending a walk by an adjacent passable cell gives a walk.
pub proof fn lemma_walk_push(radius: int, blocked: Seq<bool>, p: Seq<int>, w: int)
    requires
        is_walk(radius, blocked, p),
        passable(radius, blocked, w),
        adjacent(radius, p.last(), w),
    ensures
        is_walk(radius, blocked, p.push(w)),
        p.push(w)[0] == p[0],
        p.push(w).last() == w,
        p.push(w).len() == p.len() + 1,
{
    let q = p.push(w);
    assert forall|i: int| 0 <= i < q.len() implies passable(radius, blocked, #[trigger] q[i]) by {
        if i < p.len() {
            assert(q[i] == p[i]);
        }
    }
    assert forall|i: int| 0 <= i < q.len() - 1 implies adjacent(radius, #[trigger] q[i], q[i + 1]) by {
        if i < p.len() - 1 {
            assert(q[i] == p[i] && q[i + 1] == p[i + 1]);
        }
    }
}

/// A walk of two or more cells without its last cell is a walk.
pub proof fn lemma_walk_drop_last(radius: int, blocked: Seq<bool>, p: Seq<int>)
    requires
        is_walk(radius, blocked, p),
        p.len() > 1,
    ensures
        is_walk(radius, blocked, p.drop_last()),
        p.drop_last()[0] == p[0],
        adjacent(radius, p.drop_last().last(), p.last()),
{
    let q = p.drop_last();
    assert forall|i: int| 0 <= i < q.len() implies passable(radius, blocked, #[trigger] q[i]) by {
        assert(q[i] == p[i]);
    }
    assert forall|i: int| 0 <= i < q.len() - 1 implies adjacent(radius, #[trigger] q[i], q[i + 1]) by {
        assert(q[i] == p[i] && q[i + 1] == p[i + 1]);
    }
    assert(adjacent(radius, p[p.len() - 2], p[p.len() - 1]));
}

/// The slot stepped to is determined by the slot stepped from and the direction.
pub proof fn lemma_coord_of_step(radius: int, u: int, w: int, k: int)
    requires
        radius_ok(radius),
        0 <= w < slot_count(radius),
        step(radius, u, w, k),
    ensures
        w == slot_of(radius, slot_x(radius, u) + neighbor_dx(k), slot_y(radius, u) + neighbor_dy(k)),
{
    lemma_slot_coord(radius, w);
}

/// The goal is a cell of the map.
pub proof fn lemma_goal_in_map(radius: int)
    requires
        radius_ok(radius),
    ensures
        0 <= goal(radius) < slot_count(radius),
        in_map(radius, goal(radius)),
        slot_x(radius, goal(radius)) == 0,
        slot_y(radius, goal(radius)) == 0,
{
    lemma_coord_slot(radius, 0, 0);
}

} // verus!
