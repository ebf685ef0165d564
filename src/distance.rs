//! The distance field: breadth-first search from the goal through the
//! unoccupied cells of the map.
use vstd::prelude::*;
use vstd::set_lib::{lemma_len_subset, lemma_int_range, set_int_range};
use crate::hex::{neighbor_seq, neighbors, HexCoord};
use crate::grid::{coord_at, slot_in_map};
use crate::model::{
    adjacent, goal, is_walk, lemma_walk_drop_last, lemma_walk_push, passable, radius_ok,
    reaches, slot_count, slot_x, slot_y, step, walk_to, lemma_coord_of_step, in_square,
};

verus! {

/// Distance of a cell that no walk from the goal reaches (occupied or cut off).
pub const UNREACHABLE: u32 = 0xFFFF_FFFF;

/// Which slots are occupied.
pub open spec fn blocked_of(occupants: Seq<Option<u64>>) -> Seq<bool> {
    Seq::new(occupants.len(), |i: int| occupants[i].is_some())
}

/// Every walk from the goal to `v` visits at least `len` cells.
pub open spec fn no_shorter_walk(radius: int, blocked: Seq<bool>, v: int, len: int) -> bool {
    forall|p: Seq<int>| #[trigger] walk_to(radius, blocked, p, v) ==> p.len() >= len
}

/// `d` is the number of hex steps of a shortest walk from the goal to `v`.
pub open spec fn is_shortest_distance(radius: int, blocked: Seq<bool>, v: int, d: int) -> bool {
    &&& exists|p: Seq<int>| #[trigger] walk_to(radius, blocked, p, v) && p.len() == d + 1
    &&& no_shorter_walk(radius, blocked, v, d + 1)
}

/// `dist` holds, for every slot, the shortest hex-step count from the goal
/// under the given occupancy, or `UNREACHABLE` when no walk reaches the slot.
pub open spec fn distances_correct(radius: int, blocked: Seq<bool>, dist: Seq<u32>) -> bool {
    &&& dist.len() == slot_count(radius)
    &&& forall|v: int|
        0 <= v < dist.len() ==> if #[trigger] dist[v] == UNREACHABLE {
            !reaches(radius, blocked, v)
        } else {
            is_shortest_distance(radius, blocked, v, dist[v] as int)
        }
}

/// `p` witnesses that slot `v` lies `d` steps from the goal: it is a walk of
/// `d + 1` cells from the goal to `v`, and no shorter walk reaches `v`.
#[verifier::opaque]
spec fn label_ok(radius: int, blocked: Seq<bool>, v: int, d: int, p: Seq<int>) -> bool {
    &&& walk_to(radius, blocked, p, v)
    &&& p.len() == d + 1
    &&& no_shorter_walk(radius, blocked, v, d + 1)
}

/// Every walk from the goal of at most `len` cells ends on a labelled slot.
#[verifier::opaque]
spec fn short_walks_labelled(radius: int, blocked: Seq<bool>, dist: Seq<u32>, len: int) -> bool {
    forall|p: Seq<int>|
        #[trigger] is_walk(radius, blocked, p) && p[0] == goal(radius) && p.len() <= len
            ==> dist[p.last()] != UNREACHABLE
}

/// Labels are closed under stepping to a passable neighbour, from every label below `bound`.
spec fn closed_below(radius: int, blocked: Seq<bool>, dist: Seq<u32>, bound: int) -> bool {
    forall|v: int, w: int|
        0 <= v < dist.len() && dist[v] != UNREACHABLE && dist[v] < bound && passable(
            radius,
            blocked,
            w,
        ) && #[trigger] adjacent(radius, v, w) ==> dist[w] != UNREACHABLE
}

/// When labels are closed under stepping to passable neighbours and the goal
/// is labelled, every walk from the goal ends on a label.
proof fn lemma_closed_labels_cover_walks(
    radius: int,
    blocked: Seq<bool>,
    dist: Seq<u32>,
    p: Seq<int>,
)
    requires
        dist.len() == slot_count(radius),
        is_walk(radius, blocked, p),
        p[0] == goal(radius),
        dist[goal(radius)] != UNREACHABLE,
        closed_below(radius, blocked, dist, UNREACHABLE as int),
    ensures
        dist[p.last()] != UNREACHABLE,
    decreases p.len(),
{
    if p.len() > 1 {
        lemma_walk_drop_last(radius, blocked, p);
        lemma_closed_labels_cover_walks(radius, blocked, dist, p.drop_last());
        assert(passable(radius, blocked, p[p.len() - 1]));
        assert(adjacent(radius, p.drop_last().last(), p.last()));
    }
}

/// Recomputes the distance of every slot from scratch: breadth-first search
/// from the goal, level by level, never expanding through occupied cells.
#[verifier::rlimit(100)]
pub fn shortest_distances(radius: u32, occupants: &Vec<Option<u64>>) -> (dist: Vec<u32>)
    requires
        radius_ok(radius as int),
        occupants@.len() == slot_count(radius as int),
    ensures
        distances_correct(radius as int, blocked_of(occupants@), dist@),
{
    let ghost r = radius as int;
    let ghost b = blocked_of(occupants@);
    let n = occupants.len();
    let mut dist: Vec<u32> = Vec::new();
    let mut i: usize = 0;
    while i < n
        invariant
            i <= n,
            dist@.len() == i,
            forall|j: int| 0 <= j < i ==> dist@[j] == UNREACHABLE,
        decreases n - i,
    {
        dist.push(UNREACHABLE);
        i += 1;
    }
    assert(n <= 4_004_001) by (nonlinear_arith)
        requires n == (2 * r + 1) * (2 * r + 1), 0 <= r <= 1000;
    let g = slot_in_map(radius, HexCoord { x: 0, y: 0 }).unwrap();
    assert(g == goal(r));
    if occupants[g].is_some() {
        assert forall|v: int| 0 <= v < n implies !reaches(r, b, v) by {
            if reaches(r, b, v) {
                let p = choose|p: Seq<int>| walk_to(r, b, p, v);
                assert(passable(r, b, p[0]));
            }
        }
        return dist;
    }
    dist.set(g, 0);
    let ghost mut paths: Map<int, Seq<int>> = map![g as int => seq![g as int]];
    let ghost mut visited: Set<int> = set![g as int];
    let mut frontier: Vec<usize> = vec![g];
    let mut level: u32 = 0;
    proof {
        assert(walk_to(r, b, seq![g as int], g as int));
        assert(label_ok(r, b, g as int, 0, seq![g as int])) by {
            reveal(label_ok);
        }
        assert(short_walks_labelled(r, b, dist@, 1)) by {
            reveal(short_walks_labelled);
            assert forall|p: Seq<int>| #[trigger] is_walk(r, b, p) && p[0] == goal(r) && p.len() <= 1
                implies dist@[p.last()] != UNREACHABLE by {
                assert(p.last() == p[0]);
            }
        }
        assert(visited =~= Set::new(|v: int| 0 <= v < n && dist@[v] != UNREACHABLE));
        lemma_int_range(0, n as int);
        lemma_len_subset(visited, set_int_range(0, n as int));
    }
    while frontier.len() > 0
        invariant
            r == radius,
            radius_ok(r),
            b == blocked_of(occupants@),
            n == occupants@.len(),
            n == slot_count(r),
            n <= 4_004_001,
            dist@.len() == n,
            g == goal(r),
            g < n,
            dist@[g as int] == 0,
            forall|v: int|
                0 <= v < n && #[trigger] dist@[v] != UNREACHABLE ==> dist@[v] <= level && paths.contains_key(v) && label_ok(r, b, v, dist@[v] as int, paths[v]),
            closed_below(r, b, dist@, level as int),
            short_walks_labelled(r, b, dist@, level + 1),
            forall|j: int|
                0 <= j < frontier@.len() ==> #[trigger] frontier@[j] < n && dist@[frontier@[j] as int]
                    == level,
            forall|v: int| 0 <= v < n && #[trigger] dist@[v] == level ==> frontier@.contains(v as usize),
            visited == Set::new(|v: int| 0 <= v < n && dist@[v] != UNREACHABLE),
            visited.finite(),
            visited.len() <= n,
            level <= visited.len(),
            frontier@.len() > 0 ==> level < visited.len(),
        decreases n - visited.len() + if frontier@.len() > 0 { 1int } else { 0int },
    {
        let ghost dist0 = dist@;
        let ghost visited0 = visited;
        let mut next: Vec<usize> = Vec::new();
        let mut fi: usize = 0;
        assert forall|v: int| 0 <= v < n && #[trigger] dist@[v] == level + 1 implies next@.contains(
            v as usize,
        ) by {
            assert(dist@[v] != UNREACHABLE);
        }
        while fi < frontier.len()
            invariant
                r == radius,
                radius_ok(r),
                b == blocked_of(occupants@),
                n == occupants@.len(),
                n == slot_count(r),
                dist@.len() == n,
                g == goal(r),
                g < n,
                dist@[g as int] == 0,
                level < visited0.len(),
                visited0.len() <= n,
                n <= 4_004_001,
                fi <= frontier@.len(),
                forall|j: int|
                    0 <= j < frontier@.len() ==> #[trigger] frontier@[j] < n && dist0[frontier@[j] as int]
                        == level,
                forall|v: int|
                    0 <= v < n && dist0[v] != UNREACHABLE ==> #[trigger] dist@[v] == dist0[v],
                forall|v: int|
                    0 <= v < n && #[trigger] dist@[v] != UNREACHABLE ==> (dist0[v] != UNREACHABLE
                        || dist@[v] == level + 1) && paths.contains_key(v) && label_ok(r, b, v, dist@[v] as int, paths[v]),
                forall|v: int| 0 <= v < n && dist0[v] != UNREACHABLE ==> dist0[v] <= level,
                short_walks_labelled(r, b, dist0, level + 1),
                forall|j: int, w: int|
                    0 <= j < fi && passable(r, b, w) && #[trigger] adjacent(r, frontier@[j] as int, w)
                        ==> dist@[w] != UNREACHABLE,
                forall|j: int|
                    0 <= j < next@.len() ==> #[trigger] next@[j] < n && dist@[next@[j] as int] == level
                        + 1,
                forall|v: int|
                    0 <= v < n && #[trigger] dist@[v] == level + 1 ==> next@.contains(v as usize),
                visited == Set::new(|v: int| 0 <= v < n && dist@[v] != UNREACHABLE),
                visited.finite(),
                visited.len() == visited0.len() + next@.len(),
            decreases frontier@.len() - fi,
        {
            let u = frontier[fi];
            let cu = coord_at(radius, u);
            let nb = neighbors(cu);
            let mut k: usize = 0;
            while k < 6
                invariant
                    r == radius,
                    radius_ok(r),
                    b == blocked_of(occupants@),
                    n == occupants@.len(),
                    n == slot_count(r),
                    dist@.len() == n,
                    g == goal(r),
                    g < n,
                    dist@[g as int] == 0,
                    level < visited0.len(),
                    visited0.len() <= n,
                    n <= 4_004_001,
                    fi < frontier@.len(),
                    u == frontier@[fi as int],
                    u < n,
                    dist0[u as int] == level,
                    cu.x == slot_x(r, u as int),
                    cu.y == slot_y(r, u as int),
                    in_square(r, cu.x as int, cu.y as int),
                    nb@ == neighbor_seq(cu),
                    k <= 6,
                    forall|v: int|
                        0 <= v < n && dist0[v] != UNREACHABLE ==> #[trigger] dist@[v] == dist0[v],
                    forall|v: int|
                        0 <= v < n && #[trigger] dist@[v] != UNREACHABLE ==> (dist0[v] != UNREACHABLE
                            || dist@[v] == level + 1) && paths.contains_key(v) && label_ok(r, b, v, dist@[v] as int, paths[v]),
                    short_walks_labelled(r, b, dist0, level + 1),
                    forall|j: int, w: int|
                        0 <= j < fi && passable(r, b, w) && #[trigger] adjacent(
                            r,
                            frontier@[j] as int,
                            w,
                        ) ==> dist@[w] != UNREACHABLE,
                    forall|j: int, w: int|
                        0 <= j < k && passable(r, b, w) && #[trigger] step(r, u as int, w, j)
                            ==> dist@[w] != UNREACHABLE,
                    forall|j: int|
                        0 <= j < next@.len() ==> #[trigger] next@[j] < n && dist@[next@[j] as int]
                            == level + 1,
                    forall|v: int|
                        0 <= v < n && #[trigger] dist@[v] == level + 1 ==> next@.contains(v as usize),
                    visited == Set::new(|v: int| 0 <= v < n && dist@[v] != UNREACHABLE),
                    visited.finite(),
                    visited.len() == visited0.len() + next@.len(),
                decreases 6 - k,
            {
                let c = nb[k];
                if let Some(w) = slot_in_map(radius, c) {
                    if occupants[w].is_none() && dist[w] == UNREACHABLE {
                        proof {
                            assert(step(r, u as int, w as int, k as int));
                            assert(adjacent(r, u as int, w as int));
                            assert(passable(r, b, w as int));
                            assert(dist@[u as int] == level);
                            assert(dist@[u as int] != UNREACHABLE);
                            assert(paths.contains_key(u as int) && label_ok(
                                r,
                                b,
                                u as int,
                                dist@[u as int] as int,
                                paths[u as int],
                            ));
                            let pu = paths[u as int];
                            assert(label_ok(r, b, u as int, level as int, pu));
                            assert(walk_to(r, b, pu, u as int) && pu.len() == level + 1) by {
                                reveal(label_ok);
                            }
                            lemma_walk_push(r, b, pu, w as int);
                            assert(label_ok(r, b, w as int, level + 1, pu.push(w as int))) by {
                                reveal(label_ok);
                                reveal(short_walks_labelled);
                                assert forall|p: Seq<int>| #[trigger]
                                    walk_to(r, b, p, w as int) implies p.len() >= level + 2 by {
                                    if p.len() <= level + 1 {
                                        assert(is_walk(r, b, p));
                                    }
                                }
                            }
                            lemma_int_range(0, n as int);
                            lemma_len_subset(visited, set_int_range(0, n as int));
                        }
                        let ghost old_dist = dist@;
                        let ghost old_next = next@;
                        dist.set(w, level + 1);
                        next.push(w);
                        proof {
                            paths = paths.insert(w as int, paths[u as int].push(w as int));
                            visited = visited.insert(w as int);
                            assert(visited =~= Set::new(
                                |v: int| 0 <= v < n && dist@[v] != UNREACHABLE,
                            ));
                            assert forall|v: int|
                                0 <= v < n && #[trigger] dist@[v] != UNREACHABLE implies (dist0[v]
                                    != UNREACHABLE || dist@[v] == level + 1) && paths.contains_key(v) && label_ok(r, b, v, dist@[v] as int, paths[v]) by {
                                if v != w {
                                    assert(old_dist[v] != UNREACHABLE);
                                }
                            }
                            assert forall|v: int|
                                0 <= v < n && #[trigger] dist@[v] == level + 1 implies next@.contains(
                                v as usize,
                            ) by {
                                if v != w {
                                    assert(old_dist[v] == level + 1);
                                    assert(old_next.contains(v as usize));
                                    let i = old_next.index_of(v as usize);
                                    assert(next@[i] == v as usize);
                                } else {
                                    assert(next@[next@.len() - 1] == w);
                                }
                            }
                        }
                    }
                }
                proof {
                    assert forall|j: int, w: int|
                        0 <= j < k + 1 && passable(r, b, w) && #[trigger] step(r, u as int, w, j)
                            implies dist@[w] != UNREACHABLE by {
                        if j == k {
                            lemma_coord_of_step(r, u as int, w, j);
                        }
                    }
                }
                k += 1;
            }
            proof {
                assert forall|j: int, w: int|
                    0 <= j < fi + 1 && passable(r, b, w) && #[trigger] adjacent(
                        r,
                        frontier@[j] as int,
                        w,
                    ) implies dist@[w] != UNREACHABLE by {
                    if j == fi {
                        let kk = choose|kk: int| 0 <= kk < 6 && #[trigger] step(r, u as int, w, kk);
                    }
                }
            }
            fi += 1;
        }
        proof {
            assert forall|v: int, w: int|
                0 <= v < dist@.len() && dist@[v] != UNREACHABLE && dist@[v] < level + 1 && passable(
                    r,
                    b,
                    w,
                ) && #[trigger] adjacent(r, v, w) implies dist@[w] != UNREACHABLE by {
                assert(dist0[v] != UNREACHABLE);
                if dist0[v] < level {
                    assert(dist0[w] != UNREACHABLE);
                } else {
                    assert(frontier@.contains(v as usize));
                    let j = frontier@.index_of(v as usize);
                    assert(adjacent(r, frontier@[j] as int, w));
                }
            }
            reveal(short_walks_labelled);
            assert forall|p: Seq<int>|
                #[trigger] is_walk(r, b, p) && p[0] == goal(r) && p.len() <= level + 2
                    implies dist@[p.last()] != UNREACHABLE by {
                if p.len() <= level + 1 {
                    assert(dist0[p.last()] != UNREACHABLE);
                } else {
                    lemma_walk_drop_last(r, b, p);
                    let q = p.drop_last();
                    assert(is_walk(r, b, q));
                    assert(dist0[q.last()] != UNREACHABLE);
                    assert(passable(r, b, p[p.len() - 1]));
                }
            }
            lemma_int_range(0, n as int);
            lemma_len_subset(visited, set_int_range(0, n as int));
        }
        frontier = next;
        level = level + 1;
    }
    proof {
        assert forall|v: int, w: int|
            0 <= v < dist@.len() && dist@[v] != UNREACHABLE && dist@[v] < UNREACHABLE && passable(
                r,
                b,
                w,
            ) && #[trigger] adjacent(r, v, w) implies dist@[w] != UNREACHABLE by {
            if dist@[v] == level {
                assert(frontier@.contains(v as usize));
            }
        }
        assert forall|v: int| 0 <= v < dist@.len() implies if #[trigger] dist@[v] == UNREACHABLE {
            !reaches(r, b, v)
        } else {
            is_shortest_distance(r, b, v, dist@[v] as int)
        } by {
            if dist@[v] == UNREACHABLE {
                if reaches(r, b, v) {
                    let p = choose|p: Seq<int>| walk_to(r, b, p, v);
                    lemma_closed_labels_cover_walks(r, b, dist@, p);
                }
            } else {
                assert(paths.contains_key(v) && label_ok(r, b, v, dist@[v] as int, paths[v]));
                reveal(label_ok);
                assert(walk_to(r, b, paths[v], v));
            }
        }
    }
    dist
}

} // verus!
