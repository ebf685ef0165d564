//! The constructibility analyzer's guarantee: which cells it flags, and why
//! a finished depth-first search meets it (the search itself is in
//! `search`).
use vstd::prelude::*;
use crate::model::{
    adjacent, goal, is_walk, lemma_walk_drop_last, lemma_walk_join,
    lemma_walk_reverse, passable, reaches, slot_count, walk_to,
};

pub use crate::search::non_constructible_cells;

verus! {

/// Occupying slot `c` would leave `w`, which the goal reaches now, cut off from it.
pub open spec fn cuts_off(radius: int, blocked: Seq<bool>, c: int, w: int) -> bool {
    reaches(radius, blocked, w) && !reaches(radius, blocked.update(c, true), w)
}

/// The flags are safe to follow: only cells that the goal reaches are
/// flagged, and occupying any unflagged cell other than the goal leaves every
/// other reachable cell reachable.
pub open spec fn flags_sound(radius: int, blocked: Seq<bool>, flags: Seq<bool>) -> bool {
    &&& flags.len() == slot_count(radius)
    &&& forall|c: int| 0 <= c < flags.len() && #[trigger] flags[c] ==> reaches(radius, blocked, c)
    &&& forall|c: int, w: int|
        0 <= c < flags.len() && c != goal(radius) && !flags[c] && w != c ==> !#[trigger] cuts_off(
            radius,
            blocked,
            c,
            w,
        )
}

/// Only cells that separate are flagged: occupying a flagged cell other than
/// the goal would cut some other reachable cell off from it.
pub open spec fn flags_complete(radius: int, blocked: Seq<bool>, flags: Seq<bool>) -> bool {
    forall|c: int|
        0 <= c < flags.len() && c != goal(radius) && #[trigger] flags[c] ==> exists|w: int|
            w != c && #[trigger] cuts_off(radius, blocked, c, w)
}

/// Some walk through passable cells leads from `u` to `w`.
pub open spec fn connected(radius: int, blocked: Seq<bool>, u: int, w: int) -> bool {
    exists|p: Seq<int>| #[trigger] is_walk(radius, blocked, p) && p[0] == u && p.last() == w
}

/// Occupying the goal would leave two cells other than it, both reachable
/// from it now, with no walk between them.
pub open spec fn goal_separates(radius: int, blocked: Seq<bool>) -> bool {
    exists|u: int, w: int|
        u != goal(radius) && w != goal(radius) && reaches(radius, blocked, u) && reaches(radius, blocked, w)
            && !#[trigger] connected(radius, blocked.update(goal(radius), true), u, w)
}

/// The analyzer's flags: a cell other than the goal is flagged exactly when
/// occupying it would cut some other reachable cell off from the goal; the
/// goal is flagged exactly when occupying it would separate two reachable
/// cells; and only cells that the goal reaches are flagged.
pub open spec fn flags_correct(radius: int, blocked: Seq<bool>, flags: Seq<bool>) -> bool {
    &&& flags_sound(radius, blocked, flags)
    &&& flags_complete(radius, blocked, flags)
    &&& flags[goal(radius)] == goal_separates(radius, blocked)
}

/// No cell of `p` is `c`.
pub open spec fn avoids(p: Seq<int>, c: int) -> bool {
    forall|i: int| 0 <= i < p.len() ==> #[trigger] p[i] != c
}

/// `p` leads from `u` to a visited cell whose discovery number is `low[u]`,
/// through cells discovered no earlier than `u`.
#[verifier::opaque]
pub open spec fn low_walk_ok(
    radius: int,
    blocked: Seq<bool>,
    disc: Seq<usize>,
    low: Seq<usize>,
    u: int,
    p: Seq<int>,
) -> bool {
    &&& is_walk(radius, blocked, p)
    &&& p[0] == u
    &&& 0 <= p.last() < disc.len()
    &&& disc[p.last()] != 0
    &&& disc[p.last()] == low[u]
    &&& forall|i: int| 0 <= i < p.len() - 1 ==> 0 <= #[trigger] p[i] < disc.len() && disc[p[i]] >= disc[u]
}

/// The state of a finished depth-first search from `root`: discovery numbers
/// (0 for never visited), low links with their witness walks, parents, and
/// flags set by the cut-vertex rule.
#[verifier::opaque]
pub open spec fn search_done(
    radius: int,
    blocked: Seq<bool>,
    root: int,
    disc: Seq<usize>,
    low: Seq<usize>,
    parent: Seq<usize>,
    low_walks: Map<int, Seq<int>>,
    flags: Seq<bool>,
) -> bool {
    let n = slot_count(radius);
    &&& disc.len() == n
    &&& low.len() == n
    &&& parent.len() == n
    &&& flags.len() == n
    &&& root == goal(radius)
    &&& 0 <= root < n
    &&& disc[root] != 0
    &&& forall|v: int| 0 <= v < n && #[trigger] disc[v] != 0 ==> passable(radius, blocked, v)
    &&& forall|v: int|
        0 <= v < n && disc[v] != 0 && v != root ==> #[trigger] parent[v] < n && disc[parent[v] as int]
            != 0 && disc[parent[v] as int] < disc[v] && adjacent(radius, v, parent[v] as int)
    &&& forall|v: int|
        0 <= v < n && #[trigger] disc[v] != 0 ==> low_walks.contains_key(v) && low_walk_ok(
            radius,
            blocked,
            disc,
            low,
            v,
            low_walks[v],
        )
    &&& forall|v: int|
        0 <= v < n && #[trigger] disc[v] != 0 && v != root && parent[v] != root && low[v]
            >= disc[parent[v] as int] ==> flags[parent[v] as int]
    &&& forall|v: int| 0 <= v < n && #[trigger] flags[v] ==> disc[v] != 0
    &&& forall|v: int, w: int|
        0 <= v < n && disc[v] != 0 && passable(radius, blocked, w) && #[trigger] adjacent(radius, v, w)
            ==> disc[w] != 0
}

/// What a finished search states of one visited cell.
pub(crate) proof fn lemma_done_at(
    radius: int,
    blocked: Seq<bool>,
    root: int,
    disc: Seq<usize>,
    low: Seq<usize>,
    parent: Seq<usize>,
    low_walks: Map<int, Seq<int>>,
    flags: Seq<bool>,
    v: int,
)
    requires
        search_done(radius, blocked, root, disc, low, parent, low_walks, flags),
        0 <= v < disc.len(),
        disc[v] != 0,
    ensures
        disc.len() == slot_count(radius),
        flags.len() == disc.len(),
        root == goal(radius),
        0 <= root < disc.len(),
        disc[root] != 0,
        passable(radius, blocked, v),
        v != root ==> parent[v] < disc.len() && disc[parent[v] as int] != 0 && disc[parent[v] as int]
            < disc[v] && adjacent(radius, v, parent[v] as int),
        low_walks.contains_key(v),
        low_walk_ok(radius, blocked, disc, low, v, low_walks[v]),
        v != root && parent[v] != root && low[v] >= disc[parent[v] as int] ==> flags[parent[v] as int],
{
    reveal(search_done);
}

/// A finished search visits every passable neighbour of a visited cell, and
/// flags only visited cells.
pub(crate) proof fn lemma_done_closed(
    radius: int,
    blocked: Seq<bool>,
    root: int,
    disc: Seq<usize>,
    low: Seq<usize>,
    parent: Seq<usize>,
    low_walks: Map<int, Seq<int>>,
    flags: Seq<bool>,
)
    requires
        search_done(radius, blocked, root, disc, low, parent, low_walks, flags),
    ensures
        disc.len() == slot_count(radius),
        flags.len() == disc.len(),
        root == goal(radius),
        0 <= root < disc.len(),
        disc[root] != 0,
        forall|v: int, w: int|
            0 <= v < disc.len() && disc[v] != 0 && passable(radius, blocked, w) && #[trigger] adjacent(
                radius,
                v,
                w,
            ) ==> disc[w] != 0,
        forall|v: int| 0 <= v < disc.len() && #[trigger] flags[v] ==> disc[v] != 0,
{
    reveal(search_done);
}

/// Every walk from the goal ends on a cell that the search visited.
pub(crate) proof fn lemma_walk_visited(
    radius: int,
    blocked: Seq<bool>,
    root: int,
    disc: Seq<usize>,
    low: Seq<usize>,
    parent: Seq<usize>,
    low_walks: Map<int, Seq<int>>,
    flags: Seq<bool>,
    p: Seq<int>,
)
    requires
        search_done(radius, blocked, root, disc, low, parent, low_walks, flags),
        is_walk(radius, blocked, p),
        p[0] == goal(radius),
    ensures
        0 <= p.last() < disc.len(),
        disc[p.last()] != 0,
    decreases p.len(),
{
    lemma_done_closed(radius, blocked, root, disc, low, parent, low_walks, flags);
    if p.len() > 1 {
        lemma_walk_drop_last(radius, blocked, p);
        lemma_walk_visited(radius, blocked, root, disc, low, parent, low_walks, flags, p.drop_last());
        assert(passable(radius, blocked, p[p.len() - 1]));
    }
}

/// A walk that avoids `c` stays a walk once `c` is occupied.
pub proof fn lemma_walk_avoiding(radius: int, blocked: Seq<bool>, p: Seq<int>, c: int)
    requires
        is_walk(radius, blocked, p),
        avoids(p, c),
        0 <= c < blocked.len(),
        blocked.len() == slot_count(radius),
    ensures
        is_walk(radius, blocked.update(c, true), p),
{
    let b2 = blocked.update(c, true);
    assert forall|i: int| 0 <= i < p.len() implies passable(radius, b2, #[trigger] p[i]) by {
        assert(passable(radius, blocked, p[i]));
        assert(p[i] != c);
    }
}

/// A finished search visits only cells that the goal reaches.
pub(crate) proof fn lemma_search_done_reaches(
    radius: int,
    blocked: Seq<bool>,
    root: int,
    disc: Seq<usize>,
    low: Seq<usize>,
    parent: Seq<usize>,
    low_walks: Map<int, Seq<int>>,
    flags: Seq<bool>,
    v: int,
)
    requires
        search_done(radius, blocked, root, disc, low, parent, low_walks, flags),
        0 <= v < disc.len(),
        disc[v] != 0,
    ensures
        reaches(radius, blocked, v),
{
    lemma_done_closed(radius, blocked, root, disc, low, parent, low_walks, flags);
    let p = lemma_escape(radius, blocked, root, disc, low, parent, low_walks, flags, -1, v);
    lemma_walk_reverse(radius, blocked, p);
    assert(walk_to(radius, blocked, p.reverse(), v));
}

/// A finished search's flags meet what the analyzer guarantees.
pub proof fn lemma_search_done_sound(
    radius: int,
    blocked: Seq<bool>,
    root: int,
    disc: Seq<usize>,
    low: Seq<usize>,
    parent: Seq<usize>,
    low_walks: Map<int, Seq<int>>,
    flags: Seq<bool>,
)
    requires
        search_done(radius, blocked, root, disc, low, parent, low_walks, flags),
        blocked.len() == slot_count(radius),
    ensures
        flags_sound(radius, blocked, flags),
{
    lemma_done_closed(radius, blocked, root, disc, low, parent, low_walks, flags);
    assert forall|c: int| 0 <= c < flags.len() && #[trigger] flags[c] implies reaches(radius, blocked, c) by {
        let p = lemma_escape(radius, blocked, root, disc, low, parent, low_walks, flags, -1, c);
        lemma_walk_reverse(radius, blocked, p);
        assert(walk_to(radius, blocked, p.reverse(), c));
    }
    assert forall|c: int, w: int|
        0 <= c < flags.len() && c != goal(radius) && !flags[c] && w != c implies !#[trigger] cuts_off(
        radius,
        blocked,
        c,
        w,
    ) by {
        if reaches(radius, blocked, w) {
            let q = choose|q: Seq<int>| walk_to(radius, blocked, q, w);
            lemma_walk_visited(radius, blocked, root, disc, low, parent, low_walks, flags, q);
            let p = if disc[c] != 0 {
                lemma_escape(radius, blocked, root, disc, low, parent, low_walks, flags, c, w)
            } else {
                let escape = lemma_escape(radius, blocked, root, disc, low, parent, low_walks, flags, -1, w);
                assert forall|i: int| 0 <= i < escape.len() implies #[trigger] escape[i] != c by {
                    assert(disc[escape[i]] != 0);
                }
                escape
            };
            lemma_walk_reverse(radius, blocked, p);
            let rp = p.reverse();
            assert forall|i: int| 0 <= i < rp.len() implies #[trigger] rp[i] != c by {
                assert(rp[i] == p[p.len() - 1 - i]);
            }
            lemma_walk_avoiding(radius, blocked, rp, c);
            assert(walk_to(radius, blocked.update(c, true), rp, w));
        }
    }
}

/// From every visited cell other than `c` there is a walk to the root that
/// avoids `c` and stays on visited cells, provided `c` is no slot (`-1`) or
/// a visited, unflagged cell other than the root.
proof fn lemma_escape(
    radius: int,
    blocked: Seq<bool>,
    root: int,
    disc: Seq<usize>,
    low: Seq<usize>,
    parent: Seq<usize>,
    low_walks: Map<int, Seq<int>>,
    flags: Seq<bool>,
    c: int,
    w: int,
) -> (p: Seq<int>)
    requires
        search_done(radius, blocked, root, disc, low, parent, low_walks, flags),
        0 <= w < disc.len(),
        disc[w] != 0,
        w != c,
        c == -1 || (0 <= c < disc.len() && disc[c] != 0 && c != root && !flags[c]),
    ensures
        is_walk(radius, blocked, p),
        p[0] == w,
        p.last() == root,
        avoids(p, c),
        forall|i: int| 0 <= i < p.len() ==> 0 <= #[trigger] p[i] < disc.len() && disc[p[i]] != 0,
    decreases disc[w],
{
    lemma_done_at(radius, blocked, root, disc, low, parent, low_walks, flags, w);
    if w == root {
        let p = seq![root];
        p
    } else {
        let pw = parent[w] as int;
        if pw == c {
            let q = low_walks[w];
            let z = q.last();
            reveal(low_walk_ok);
            assert(disc[q[q.len() - 1]] != 0);
            let rest = lemma_escape(radius, blocked, root, disc, low, parent, low_walks, flags, c, z);
            lemma_walk_join(radius, blocked, q, rest);
            let p = q + rest.drop_first();
            assert forall|i: int| 0 <= i < p.len() implies #[trigger] p[i] != c && 0 <= p[i] < disc.len()
                && disc[p[i]] != 0 by {
                if i < q.len() - 1 {
                    assert(p[i] == q[i]);
                } else if i == q.len() - 1 {
                    assert(p[i] == z);
                } else {
                    assert(p[i] == rest[i - q.len() + 1]);
                }
            }
            p
        } else {
            let rest = lemma_escape(radius, blocked, root, disc, low, parent, low_walks, flags, c, pw);
            lemma_done_at(radius, blocked, root, disc, low, parent, low_walks, flags, pw);
            let head = seq![w, pw];
            assert(is_walk(radius, blocked, head)) by {
                assert(head[0] == w && head[1] == pw);
            }
            lemma_walk_join(radius, blocked, head, rest);
            let p = head + rest.drop_first();
            assert forall|i: int| 0 <= i < p.len() implies #[trigger] p[i] != c && 0 <= p[i] < disc.len()
                && disc[p[i]] != 0 by {
                if i == 0 {
                    assert(p[i] == w);
                } else {
                    assert(p[i] == rest[i - 1]);
                }
            }
            p
        }
    }
}

} // verus!
