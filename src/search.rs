//! The iterative depth-first search behind the constructibility analyzer:
//! its state, the invariant it keeps at every step, and the proof that a
//! finished search flags exactly the cells that separate.
use vstd::prelude::*;
use vstd::set_lib::{lemma_len_subset, lemma_int_range, set_int_range};
use crate::constructibility::{
    avoids, connected, cuts_off, flags_correct, goal_separates, lemma_done_at,
    lemma_search_done_reaches, lemma_search_done_sound, lemma_walk_avoiding, lemma_walk_visited,
    low_walk_ok, search_done,
};
use crate::distance::blocked_of;
use crate::grid::{coord_at, slot_in_map};
use crate::hex::{neighbors, HexCoord};
use crate::separation::{
    cut_ok, finished_facts, lemma_cut_discover, lemma_cut_lower, lemma_cut_retreat, lemma_cut_skip,
    lemma_flagged_separates, lemma_goal_children_separated, search_facts,
};
use crate::model::{
    adjacent, goal, is_walk, lemma_adjacent_symmetric, lemma_coord_of_step, lemma_walk_join,
    lemma_walk_reverse, passable, radius_ok, reaches, slot_count, step, walk_to,
};

verus! {

/// What is left to examine on the search stack: each frame `(cell, k)` has
/// `6 - k` neighbours to go, plus the pop of the frame itself.
spec fn frames_left(s: Seq<(usize, usize)>) -> nat
    decreases s.len(),
{
    if s.len() == 0 {
        0
    } else {
        frames_left(s.drop_last()) + (7 - s.last().1) as nat
    }
}

/// Changes to discovery numbers of unvisited cells and to low links of other
/// cells keep a low-link walk valid.
proof fn lemma_low_walk_stable(
    radius: int,
    blocked: Seq<bool>,
    disc: Seq<usize>,
    low: Seq<usize>,
    disc2: Seq<usize>,
    low2: Seq<usize>,
    u: int,
    p: Seq<int>,
)
    requires
        low_walk_ok(radius, blocked, disc, low, u, p),
        0 <= u < disc.len(),
        disc[u] != 0,
        disc2.len() == disc.len(),
        forall|v: int| 0 <= v < disc.len() && #[trigger] disc[v] != 0 ==> disc2[v] == disc[v],
        low2[u] == low[u],
    ensures
        low_walk_ok(radius, blocked, disc2, low2, u, p),
{
    reveal(low_walk_ok);
    assert forall|i: int| 0 <= i < p.len() - 1 implies 0 <= #[trigger] p[i] < disc2.len()
        && disc2[p[i]] >= disc2[u] by {
        assert(disc[p[i]] >= disc[u]);
    }
}

/// Every visited cell but the goal has an adjacent, earlier-discovered parent.
#[verifier::opaque]
spec fn tree_ok(r: int, b: Seq<bool>, g: int, disc: Seq<usize>, parent: Seq<usize>) -> bool {
    forall|v: int|
        0 <= v < b.len() && disc[v] != 0 && v != g ==> #[trigger] parent[v] < b.len() && disc[parent[v] as int]
            != 0 && disc[parent[v] as int] < disc[v] && adjacent(r, v, parent[v] as int)
}

/// Every visited cell's low link has its witness walk.
#[verifier::opaque]
spec fn low_ok(
    r: int,
    b: Seq<bool>,
    disc: Seq<usize>,
    low: Seq<usize>,
    low_walks: Map<int, Seq<int>>,
) -> bool {
    forall|v: int|
        0 <= v < b.len() && #[trigger] disc[v] != 0 ==> low_walks.contains_key(v) && low_walk_ok(
            r,
            b,
            disc,
            low,
            v,
            low_walks[v],
        )
}

/// Finished cells: visited, their passable neighbours visited, and their
/// parents flagged by the cut-vertex rule; flags only on visited cells.
#[verifier::opaque]
spec fn done_ok(
    r: int,
    b: Seq<bool>,
    g: int,
    disc: Seq<usize>,
    low: Seq<usize>,
    parent: Seq<usize>,
    flags: Seq<bool>,
    fin: Seq<bool>,
) -> bool {
    let n = b.len();
    &&& forall|v: int| 0 <= v < n && #[trigger] fin[v] ==> disc[v] != 0
    &&& forall|v: int|
        0 <= v < n && #[trigger] fin[v] && v != g && parent[v] != g && low[v] >= disc[parent[v] as int]
            ==> flags[parent[v] as int]
    &&& forall|v: int| 0 <= v < n && #[trigger] flags[v] ==> disc[v] != 0
    &&& forall|v: int, w: int|
        0 <= v < n && fin[v] && passable(r, b, w) && #[trigger] adjacent(r, v, w) ==> disc[w] != 0
}

/// The stack: a chain of parent and child from the goal with rising
/// discovery numbers, holding every visited cell that is not finished, each
/// frame's examined neighbours visited.
#[verifier::opaque]
spec fn stack_ok(
    r: int,
    b: Seq<bool>,
    g: int,
    disc: Seq<usize>,
    parent: Seq<usize>,
    fin: Seq<bool>,
    stack: Seq<(usize, usize)>,
) -> bool {
    let n = b.len();
    &&& forall|v: int|
        0 <= v < n && #[trigger] disc[v] != 0 && !fin[v] ==> exists|i: int|
            0 <= i < stack.len() && #[trigger] stack[i].0 == v
    &&& forall|i: int|
        0 <= i < stack.len() ==> #[trigger] stack[i].0 < n && disc[stack[i].0 as int] != 0
            && !fin[stack[i].0 as int] && stack[i].1 <= 6
    &&& forall|i: int, j: int, w: int|
        0 <= i < stack.len() && 0 <= j < stack[i].1 && passable(r, b, w) && #[trigger] step(
            r,
            stack[i].0 as int,
            w,
            j,
        ) ==> disc[w] != 0
    &&& stack.len() > 0 ==> stack[0].0 == g
    &&& forall|i: int| 0 < i < stack.len() ==> parent[#[trigger] stack[i].0 as int] == stack[i - 1].0
    &&& forall|i: int, j: int|
        0 <= i < j < stack.len() ==> disc[#[trigger] stack[i].0 as int] < disc[#[trigger] stack[j].0 as int]
}

/// Discovering `w` from `u` keeps the parent structure.
proof fn lemma_discover_tree(
    r: int,
    b: Seq<bool>,
    g: int,
    disc0: Seq<usize>,
    parent0: Seq<usize>,
    disc: Seq<usize>,
    parent: Seq<usize>,
    u: usize,
    w: int,
    t: usize,
)
    requires
        tree_ok(r, b, g, disc0, parent0),
        disc0.len() == b.len(),
        parent0.len() == b.len(),
        u < b.len(),
        0 <= w < b.len(),
        disc0[u as int] != 0,
        disc0[u as int] < t,
        disc0[w] == 0,
        adjacent(r, w, u as int),
        disc == disc0.update(w, t),
        parent == parent0.update(w, u),
    ensures
        tree_ok(r, b, g, disc, parent),
{
    reveal(tree_ok);
    assert forall|v: int| 0 <= v < b.len() && disc[v] != 0 && v != g implies #[trigger] parent[v]
        < b.len() && disc[parent[v] as int] != 0 && disc[parent[v] as int] < disc[v] && adjacent(
        r,
        v,
        parent[v] as int,
    ) by {
        if v != w {
            assert(disc0[v] != 0);
            assert(parent[v] == parent0[v]);
            assert(disc0[parent0[v] as int] != 0);
            assert(parent0[v] != w);
            assert(disc[parent[v] as int] == disc0[parent0[v] as int]);
        } else {
            assert(parent[v] == u);
            assert(u as int != w);
            assert(disc[u as int] == disc0[u as int]);
        }
    }
}

/// Discovering `w` keeps every low-link witness and gives `w` its own.
proof fn lemma_discover_low(
    r: int,
    b: Seq<bool>,
    disc0: Seq<usize>,
    low0: Seq<usize>,
    walks0: Map<int, Seq<int>>,
    disc: Seq<usize>,
    low: Seq<usize>,
    walks: Map<int, Seq<int>>,
    w: int,
    t: usize,
)
    requires
        low_ok(r, b, disc0, low0, walks0),
        disc0.len() == b.len(),
        low0.len() == b.len(),
        0 <= w < b.len(),
        passable(r, b, w),
        disc0[w] == 0,
        t != 0,
        disc == disc0.update(w, t),
        low == low0.update(w, t),
        walks == walks0.insert(w, seq![w]),
    ensures
        low_ok(r, b, disc, low, walks),
{
    reveal(low_ok);
    assert(low_walk_ok(r, b, disc, low, w, seq![w])) by {
        reveal(low_walk_ok);
    }
    assert forall|v: int| 0 <= v < b.len() && #[trigger] disc[v] != 0 implies walks.contains_key(v)
        && low_walk_ok(r, b, disc, low, v, walks[v]) by {
        if v != w {
            assert(disc0[v] != 0);
            lemma_low_walk_stable(r, b, disc0, low0, disc, low, v, walks[v]);
        }
    }
}

/// Discovering `w` keeps what holds of finished cells and flags.
proof fn lemma_discover_done(
    r: int,
    b: Seq<bool>,
    g: int,
    disc0: Seq<usize>,
    low0: Seq<usize>,
    parent0: Seq<usize>,
    disc: Seq<usize>,
    low: Seq<usize>,
    parent: Seq<usize>,
    flags: Seq<bool>,
    fin: Seq<bool>,
    u: int,
    w: int,
    t: usize,
)
    requires
        done_ok(r, b, g, disc0, low0, parent0, flags, fin),
        tree_ok(r, b, g, disc0, parent0),
        disc0.len() == b.len(),
        low0.len() == b.len(),
        parent0.len() == b.len(),
        b.len() == slot_count(r),
        0 <= w < b.len(),
        disc0[w] == 0,
        t != 0,
        disc == disc0.update(w, t),
        low == low0.update(w, t),
        parent == parent0.update(w, u as usize),
    ensures
        done_ok(r, b, g, disc, low, parent, flags, fin),
        !fin[w],
{
    reveal(done_ok);
    reveal(tree_ok);
    assert forall|v: int|
        0 <= v < b.len() && #[trigger] fin[v] && v != g && parent[v] != g && low[v] >= disc[parent[v] as int]
            implies flags[parent[v] as int] by {
        assert(disc0[v] != 0);
        assert(v != w);
        assert(parent[v] == parent0[v]);
        assert(low[v] == low0[v]);
        assert(parent0[v] < b.len());
        assert(disc0[parent0[v] as int] != 0);
        assert(parent0[v] != w);
        assert(disc[parent[v] as int] == disc0[parent0[v] as int]);
    }
    assert forall|v: int| 0 <= v < b.len() && #[trigger] flags[v] implies disc[v] != 0 by {
        assert(disc0[v] != 0);
    }
    assert forall|v: int, x: int|
        0 <= v < b.len() && fin[v] && passable(r, b, x) && #[trigger] adjacent(r, v, x) implies disc[x] != 0 by {
        assert(disc0[x] != 0);
    }
}

/// Discovering `w` as the `k`-th neighbour of the top frame's cell `u`
/// keeps the stack structure once the frame has moved on and `w` is pushed.
proof fn lemma_discover_stack(
    r: int,
    b: Seq<bool>,
    g: int,
    disc0: Seq<usize>,
    parent0: Seq<usize>,
    s0: Seq<(usize, usize)>,
    disc: Seq<usize>,
    parent: Seq<usize>,
    stack: Seq<(usize, usize)>,
    fin: Seq<bool>,
    u: usize,
    k: usize,
    w: usize,
    t: usize,
)
    requires
        stack_ok(r, b, g, disc0, parent0, fin, s0),
        radius_ok(r),
        b.len() == slot_count(r),
        disc0.len() == b.len(),
        parent0.len() == b.len(),
        fin.len() == b.len(),
        forall|v: int| 0 <= v < b.len() && #[trigger] disc0[v] != 0 ==> disc0[v] < t,
        s0.len() > 0,
        s0.last() == (u, k),
        k < 6,
        w < b.len(),
        step(r, u as int, w as int, k as int),
        disc0[w as int] == 0,
        !fin[w as int],
        t != 0,
        disc == disc0.update(w as int, t),
        parent == parent0.update(w as int, u),
        stack == s0.update(s0.len() - 1, (u, (k + 1) as usize)).push((w, 0usize)),
    ensures
        stack_ok(r, b, g, disc, parent, fin, stack),
{
    reveal(stack_ok);
    let top = s0.len() - 1;
    assert forall|v: int|
        0 <= v < b.len() && #[trigger] disc[v] != 0 && !fin[v] implies exists|i: int|
        0 <= i < stack.len() && #[trigger] stack[i].0 == v by {
        if v == w {
            assert(stack[stack.len() - 1].0 == v);
        } else {
            assert(disc0[v] != 0);
            let i = choose|i: int| 0 <= i < s0.len() && #[trigger] s0[i].0 == v;
            assert(stack[i].0 == v);
        }
    }
    assert forall|i: int|
        0 <= i < stack.len() implies #[trigger] stack[i].0 < b.len() && disc[stack[i].0 as int] != 0
            && !fin[stack[i].0 as int] && stack[i].1 <= 6 by {
        if i <= top {
            assert(stack[i].0 == s0[i].0);
        }
    }
    assert forall|i: int, j: int, x: int|
        0 <= i < stack.len() && 0 <= j < stack[i].1 && passable(r, b, x) && #[trigger] step(
            r,
            stack[i].0 as int,
            x,
            j,
        ) implies disc[x] != 0 by {
        if i < top || (i == top && j < k) {
            assert(step(r, s0[i].0 as int, x, j));
            assert(disc0[x] != 0);
        } else if i == top && j == k {
            lemma_coord_of_step(r, u as int, x, j);
            lemma_coord_of_step(r, u as int, w as int, j);
        }
    }
    assert forall|i: int| 0 < i < stack.len() implies parent[#[trigger] stack[i].0 as int] == stack[i
        - 1].0 by {
        if i <= top {
            assert(stack[i].0 == s0[i].0);
            assert(stack[i - 1].0 == s0[i - 1].0);
            assert(disc0[s0[i].0 as int] != 0);
        }
    }
    assert forall|i: int, j: int|
        0 <= i < j < stack.len() implies disc[#[trigger] stack[i].0 as int] < disc[#[trigger] stack[j].0 as int] by {
        assert(stack[i].0 == s0[i].0);
        if j <= top {
            assert(stack[j].0 == s0[j].0);
        }
    }
}

/// Lowering the low link of the top frame's cell `u` to the discovery
/// number of its `k`-th neighbour `w` keeps the witnesses.
proof fn lemma_lower_low(
    r: int,
    b: Seq<bool>,
    disc: Seq<usize>,
    low0: Seq<usize>,
    walks0: Map<int, Seq<int>>,
    low: Seq<usize>,
    walks: Map<int, Seq<int>>,
    u: int,
    w: int,
)
    requires
        low_ok(r, b, disc, low0, walks0),
        disc.len() == b.len(),
        low0.len() == b.len(),
        0 <= u < b.len(),
        0 <= w < b.len(),
        passable(r, b, u),
        passable(r, b, w),
        adjacent(r, u, w),
        disc[w] != 0,
        low == low0.update(u, disc[w]),
        walks == walks0.insert(u, seq![u, w]),
    ensures
        low_ok(r, b, disc, low, walks),
{
    reveal(low_ok);
    let p = seq![u, w];
    assert(low_walk_ok(r, b, disc, low, u, p)) by {
        reveal(low_walk_ok);
        assert(p[0] == u && p[1] == w);
    }
    assert forall|v: int| 0 <= v < b.len() && #[trigger] disc[v] != 0 implies walks.contains_key(v)
        && low_walk_ok(r, b, disc, low, v, walks[v]) by {
        if v != u {
            lemma_low_walk_stable(r, b, disc, low0, disc, low, v, walks[v]);
        }
    }
}

/// Changing the low link of a cell that is not finished keeps what holds of
/// finished cells.
proof fn lemma_unfinished_low_done(
    r: int,
    b: Seq<bool>,
    g: int,
    disc: Seq<usize>,
    low0: Seq<usize>,
    parent: Seq<usize>,
    flags: Seq<bool>,
    fin: Seq<bool>,
    low: Seq<usize>,
    u: int,
)
    requires
        done_ok(r, b, g, disc, low0, parent, flags, fin),
        0 <= u < b.len(),
        !fin[u],
        low0.len() == b.len(),
        low.len() == b.len(),
        forall|v: int| 0 <= v < b.len() && v != u ==> low[v] == low0[v],
    ensures
        done_ok(r, b, g, disc, low, parent, flags, fin),
{
    reveal(done_ok);
    assert forall|v: int|
        0 <= v < b.len() && #[trigger] fin[v] && v != g && parent[v] != g && low[v] >= disc[parent[v] as int]
            implies flags[parent[v] as int] by {
        assert(v != u);
    }
}

/// Moving the top frame past its `k`-th neighbour keeps the stack structure
/// when that neighbour, if passable, is visited.
proof fn lemma_advance_stack(
    r: int,
    b: Seq<bool>,
    g: int,
    disc: Seq<usize>,
    parent: Seq<usize>,
    fin: Seq<bool>,
    s0: Seq<(usize, usize)>,
    stack: Seq<(usize, usize)>,
)
    requires
        stack_ok(r, b, g, disc, parent, fin, s0),
        s0.len() > 0,
        s0.last().1 < 6,
        forall|x: int|
            passable(r, b, x) && #[trigger] step(r, s0.last().0 as int, x, s0.last().1 as int) ==> disc[x]
                != 0,
        stack == s0.update(s0.len() - 1, (s0.last().0, (s0.last().1 + 1) as usize)),
    ensures
        stack_ok(r, b, g, disc, parent, fin, stack),
        frames_left(stack) < frames_left(s0),
{
    reveal(stack_ok);
    let top = s0.len() - 1;
    assert(stack.drop_last() =~= s0.drop_last());
    assert forall|v: int|
        0 <= v < b.len() && #[trigger] disc[v] != 0 && !fin[v] implies exists|i: int|
        0 <= i < stack.len() && #[trigger] stack[i].0 == v by {
        let i = choose|i: int| 0 <= i < s0.len() && #[trigger] s0[i].0 == v;
        assert(stack[i].0 == v);
    }
    assert forall|i: int, j: int, x: int|
        0 <= i < stack.len() && 0 <= j < stack[i].1 && passable(r, b, x) && #[trigger] step(
            r,
            stack[i].0 as int,
            x,
            j,
        ) implies disc[x] != 0 by {
        if i == top && j == s0.last().1 {
        } else {
            assert(step(r, s0[i].0 as int, x, j));
        }
    }
    assert forall|i: int| 0 < i < stack.len() implies parent[#[trigger] stack[i].0 as int] == stack[i
        - 1].0 by {
        assert(stack[i].0 == s0[i].0);
        assert(stack[i - 1].0 == s0[i - 1].0);
    }
    assert forall|i: int, j: int|
        0 <= i < j < stack.len() implies disc[#[trigger] stack[i].0 as int] < disc[#[trigger] stack[j].0 as int] by {
        assert(stack[i].0 == s0[i].0);
        assert(stack[j].0 == s0[j].0);
    }
}

/// The parents that the search recorded are slots.
proof fn lemma_tree_ranges(r: int, b: Seq<bool>, g: int, disc: Seq<usize>, parent: Seq<usize>)
    requires
        tree_ok(r, b, g, disc, parent),
    ensures
        forall|v: int| 0 <= v < b.len() && disc[v] != 0 && v != g ==> #[trigger] parent[v] < b.len(),
{
    reveal(tree_ok);
}

/// A step from `p` to `u` followed by `u`'s low-link witness witnesses the
/// same low link for `p`, when `p` was discovered before `u`.
proof fn lemma_low_walk_prepend(
    r: int,
    b: Seq<bool>,
    disc: Seq<usize>,
    low0: Seq<usize>,
    low: Seq<usize>,
    u: int,
    p: int,
    q: Seq<int>,
)
    requires
        low_walk_ok(r, b, disc, low0, u, q),
        0 <= p < disc.len(),
        passable(r, b, p),
        adjacent(r, p, u),
        disc[p] < disc[u],
        low[p] == low0[u],
    ensures
        low_walk_ok(r, b, disc, low, p, seq![p].add(q)),
{
    reveal(low_walk_ok);
    let pw = seq![p].add(q);
    let h = seq![p, u];
    assert(h[0] == p && h[1] == u);
    assert(is_walk(r, b, h));
    lemma_walk_join(r, b, h, q);
    assert(h + q.drop_first() =~= pw);
    assert forall|i: int| 0 <= i < pw.len() - 1 implies 0 <= #[trigger] pw[i] < disc.len() && disc[pw[i]]
        >= disc[p] by {
        if i > 0 {
            assert(pw[i] == q[i - 1]);
        }
    }
}

/// When finished cell `u` passes a lower low link to its parent `p`, the
/// parent's witness is the step to `u` followed by `u`'s witness.
proof fn lemma_pop_low(
    r: int,
    b: Seq<bool>,
    disc: Seq<usize>,
    low0: Seq<usize>,
    walks0: Map<int, Seq<int>>,
    low: Seq<usize>,
    walks: Map<int, Seq<int>>,
    u: int,
    p: int,
)
    requires
        low_ok(r, b, disc, low0, walks0),
        disc.len() == b.len(),
        low0.len() == b.len(),
        0 <= u < b.len(),
        0 <= p < b.len(),
        disc[u] != 0,
        disc[p] != 0,
        disc[p] < disc[u],
        passable(r, b, p),
        adjacent(r, u, p),
        low == low0.update(p, low0[u]),
        walks == walks0.insert(p, seq![p].add(walks0[u])),
    ensures
        low_ok(r, b, disc, low, walks),
{
    lemma_adjacent_symmetric(r, u, p);
    assert(walks0.contains_key(u) && low_walk_ok(r, b, disc, low0, u, walks0[u])) by {
        reveal(low_ok);
    }
    lemma_low_walk_prepend(r, b, disc, low0, low, u, p, walks0[u]);
    reveal(low_ok);
    assert forall|v: int| 0 <= v < b.len() && #[trigger] disc[v] != 0 implies walks.contains_key(v)
        && low_walk_ok(r, b, disc, low, v, walks[v]) by {
        if v != p {
            lemma_low_walk_stable(r, b, disc, low0, disc, low, v, walks[v]);
        }
    }
}

/// Finishing the top frame's cell `u`, whose every neighbour was examined,
/// and applying the cut-vertex rule to its parent `p` keeps what holds of
/// finished cells.
proof fn lemma_pop_done(
    r: int,
    b: Seq<bool>,
    g: int,
    disc: Seq<usize>,
    parent: Seq<usize>,
    low0: Seq<usize>,
    flags0: Seq<bool>,
    fin0: Seq<bool>,
    low: Seq<usize>,
    flags: Seq<bool>,
    fin: Seq<bool>,
    u: int,
    p: int,
)
    requires
        done_ok(r, b, g, disc, low0, parent, flags0, fin0),
        disc.len() == b.len(),
        low0.len() == b.len(),
        flags0.len() == b.len(),
        fin0.len() == b.len(),
        b.len() == slot_count(r),
        0 <= u < b.len(),
        disc[u] != 0,
        !fin0[u],
        forall|w: int| passable(r, b, w) && #[trigger] adjacent(r, u, w) ==> disc[w] != 0,
        fin == fin0.update(u, true),
        forall|v: int| 0 <= v < b.len() && disc[v] != 0 && v != g ==> #[trigger] parent[v] < b.len(),
        p == -1 || (0 <= p < b.len() && u != g && parent[u] == p && disc[p] != 0 && !fin0[p] && p != u),
        p == -1 ==> low == low0 && flags == flags0 && u == g,
        p != -1 ==> low.len() == b.len() && low[u] == low0[u] && (forall|v: int| 0 <= v < b.len() && v != p ==> low[v] == low0[v]),
        p != -1 ==> flags == (if p != g && low0[u] >= disc[p] { flags0.update(p, true) } else { flags0 }),
    ensures
        done_ok(r, b, g, disc, low, parent, flags, fin),
{
    reveal(done_ok);
    assert forall|v: int|
        0 <= v < b.len() && #[trigger] fin[v] && v != g && parent[v] != g && low[v] >= disc[parent[v] as int]
            implies flags[parent[v] as int] by {
        if v != u {
            assert(fin0[v]);
            assert(v != p);
            assert(low[v] == low0[v]);
        } else {
            assert(p != -1);
            assert(parent[v] == p);
            assert(low[v] == low0[u]);
        }
    }
    assert forall|v: int| 0 <= v < b.len() && #[trigger] flags[v] implies disc[v] != 0 by {
        if v != p {
            assert(flags0[v]);
        }
    }
    assert forall|v: int, x: int|
        0 <= v < b.len() && fin[v] && passable(r, b, x) && #[trigger] adjacent(r, v, x) implies disc[x] != 0 by {
        if v != u {
            assert(fin0[v]);
        }
    }
}

/// Popping the top frame, whose cell `u` is now finished, keeps the stack structure.
proof fn lemma_pop_stack(
    r: int,
    b: Seq<bool>,
    g: int,
    disc: Seq<usize>,
    parent: Seq<usize>,
    fin0: Seq<bool>,
    s0: Seq<(usize, usize)>,
    fin: Seq<bool>,
    stack: Seq<(usize, usize)>,
)
    requires
        stack_ok(r, b, g, disc, parent, fin0, s0),
        s0.len() > 0,
        disc.len() == b.len(),
        fin0.len() == b.len(),
        fin == fin0.update(s0.last().0 as int, true),
        stack == s0.drop_last(),
    ensures
        stack_ok(r, b, g, disc, parent, fin, stack),
{
    reveal(stack_ok);
    let top = s0.len() - 1;
    let u = s0.last().0 as int;
    assert(0 <= u < b.len());
    assert forall|v: int|
        0 <= v < b.len() && #[trigger] disc[v] != 0 && !fin[v] implies exists|i: int|
        0 <= i < stack.len() && #[trigger] stack[i].0 == v by {
        let i = choose|i: int| 0 <= i < s0.len() && #[trigger] s0[i].0 == v;
        assert(i != top);
        assert(stack[i].0 == v);
    }
    assert forall|i: int|
        0 <= i < stack.len() implies #[trigger] stack[i].0 < b.len() && disc[stack[i].0 as int] != 0
            && !fin[stack[i].0 as int] && stack[i].1 <= 6 by {
        assert(stack[i] == s0[i]);
        assert(disc[s0[i].0 as int] < disc[s0[top].0 as int]);
    }
    assert forall|i: int, j: int, x: int|
        0 <= i < stack.len() && 0 <= j < stack[i].1 && passable(r, b, x) && #[trigger] step(
            r,
            stack[i].0 as int,
            x,
            j,
        ) implies disc[x] != 0 by {
        assert(stack[i] == s0[i]);
    }
    assert forall|i: int| 0 < i < stack.len() implies parent[#[trigger] stack[i].0 as int] == stack[i
        - 1].0 by {
        assert(stack[i] == s0[i]);
        assert(stack[i - 1] == s0[i - 1]);
    }
    assert forall|i: int, j: int|
        0 <= i < j < stack.len() implies disc[#[trigger] stack[i].0 as int] < disc[#[trigger] stack[j].0 as int] by {
        assert(stack[i] == s0[i]);
        assert(stack[j] == s0[j]);
    }
}

/// What the stack says of its top frame `(u, 6)`: `u` is a visited cell whose
/// passable neighbours are all visited; the frame below holds `u`'s parent,
/// discovered before it; without such a frame, `u` is the goal.
proof fn lemma_stack_top(
    r: int,
    b: Seq<bool>,
    g: int,
    disc: Seq<usize>,
    parent: Seq<usize>,
    fin: Seq<bool>,
    s0: Seq<(usize, usize)>,
)
    requires
        stack_ok(r, b, g, disc, parent, fin, s0),
        s0.len() > 0,
        s0.last().1 >= 6,
    ensures
        s0.last().0 < b.len(),
        disc[s0.last().0 as int] != 0,
        !fin[s0.last().0 as int],
        frames_left(s0) == frames_left(s0.drop_last()) + 1,
        forall|w: int| passable(r, b, w) && #[trigger] adjacent(r, s0.last().0 as int, w) ==> disc[w] != 0,
        s0.len() == 1 ==> s0.last().0 == g,
        s0.len() > 1 ==> {
            let p = s0[s0.len() - 2].0;
            &&& p < b.len()
            &&& parent[s0.last().0 as int] == p
            &&& disc[p as int] != 0
            &&& !fin[p as int]
            &&& disc[p as int] < disc[s0.last().0 as int]
            &&& s0.last().0 != g
        },
{
    reveal(stack_ok);
    let top = s0.len() - 1;
    let u = s0[top].0 as int;
    assert(s0[top].1 <= 6);
    assert forall|w: int| passable(r, b, w) && #[trigger] adjacent(r, u, w) implies disc[w] != 0 by {
        let j = choose|j: int| 0 <= j < 6 && #[trigger] step(r, u, w, j);
        assert(step(r, s0[top].0 as int, w, j));
    }
    if s0.len() > 1 {
        assert(disc[s0[0].0 as int] < disc[s0[top].0 as int]);
        assert(disc[s0[top - 1].0 as int] < disc[s0[top].0 as int]);
    }
}

/// The goal's search children counted so far, up to two: `kids` lists the
/// first ones to finish, and every finished child of the goal is among them
/// unless two are.
#[verifier::opaque]
spec fn root_ok(
    g: int,
    disc: Seq<usize>,
    parent: Seq<usize>,
    fin: Seq<bool>,
    kids: Seq<int>,
    children: int,
) -> bool {
    let n = disc.len();
    &&& children == kids.len()
    &&& kids.len() <= 2
    &&& forall|i: int|
        0 <= i < kids.len() ==> 0 <= #[trigger] kids[i] < n && fin[kids[i]] && parent[kids[i]] == g && kids[i]
            != g && disc[kids[i]] != 0
    &&& kids.len() == 2 ==> kids[0] != kids[1]
    &&& forall|x: int|
        0 <= x < n && #[trigger] fin[x] && x != g && parent[x] == g ==> kids.len() == 2 || kids.contains(x)
}

/// Discovering a cell keeps the count of the goal's children.
proof fn lemma_root_discover(
    g: int,
    disc0: Seq<usize>,
    parent0: Seq<usize>,
    fin: Seq<bool>,
    kids: Seq<int>,
    children: int,
    disc: Seq<usize>,
    parent: Seq<usize>,
    w: int,
    t: usize,
    u: usize,
)
    requires
        root_ok(g, disc0, parent0, fin, kids, children),
        parent0.len() == disc0.len(),
        fin.len() == disc0.len(),
        0 <= w < disc0.len(),
        disc0[w] == 0,
        !fin[w],
        t != 0,
        disc == disc0.update(w, t),
        parent == parent0.update(w, u),
    ensures
        root_ok(g, disc, parent, fin, kids, children),
{
    reveal(root_ok);
    assert forall|i: int| 0 <= i < kids.len() implies 0 <= #[trigger] kids[i] < disc.len() && fin[kids[i]]
        && parent[kids[i]] == g && kids[i] != g && disc[kids[i]] != 0 by {
        let x = kids[i];
        assert(0 <= x < disc0.len() && fin[x] && parent0[x] == g && x != g && disc0[x] != 0);
        assert(x != w);
        assert(parent[x] == parent0[x]);
        assert(disc[x] == disc0[x]);
    }
}

/// Finishing cell `u`, a child of the goal when `p == g`, keeps the count
/// of the goal's children.
proof fn lemma_root_retreat(
    g: int,
    disc: Seq<usize>,
    parent: Seq<usize>,
    fin0: Seq<bool>,
    kids0: Seq<int>,
    children0: int,
    fin: Seq<bool>,
    kids: Seq<int>,
    children: int,
    u: int,
    p: int,
)
    requires
        root_ok(g, disc, parent, fin0, kids0, children0),
        parent.len() == disc.len(),
        fin0.len() == disc.len(),
        0 <= u < disc.len(),
        disc[u] != 0,
        !fin0[u],
        fin == fin0.update(u, true),
        p == -1 ==> u == g && kids == kids0 && children == children0,
        p != -1 ==> parent[u] == p && u != g,
        p != -1 && p == g && children0 < 2 ==> kids == kids0.push(u) && children == children0 + 1,
        p != -1 && (p != g || children0 >= 2) ==> kids == kids0 && children == children0,
    ensures
        root_ok(g, disc, parent, fin, kids, children),
{
    reveal(root_ok);
    assert forall|i: int| 0 <= i < kids.len() implies 0 <= #[trigger] kids[i] < disc.len() && fin[kids[i]]
        && parent[kids[i]] == g && kids[i] != g && disc[kids[i]] != 0 by {
        if i < kids0.len() {
            assert(kids[i] == kids0[i]);
        }
    }
    if kids.len() == 2 && kids0.len() == 1 {
        assert(kids[0] == kids0[0]);
        assert(fin0[kids0[0]]);
    }
    assert forall|x: int|
        0 <= x < disc.len() && #[trigger] fin[x] && x != g && parent[x] == g implies kids.len() == 2 || kids.contains(x) by {
        if x == u {
            if kids.len() != 2 {
                assert(kids[kids.len() - 1] == u);
            }
        } else {
            assert(fin0[x]);
            if kids0.contains(x) {
                let i = kids0.index_of(x);
                assert(kids[i] == x);
            }
        }
    }
}

/// With at most one search child of the goal counted, every visited cell
/// other than the goal has a walk to that child that avoids the goal.
proof fn lemma_walk_to_kid(
    r: int,
    b: Seq<bool>,
    g: int,
    disc: Seq<usize>,
    low: Seq<usize>,
    parent: Seq<usize>,
    low_walks: Map<int, Seq<int>>,
    flags: Seq<bool>,
    fin: Seq<bool>,
    kids: Seq<int>,
    v: int,
) -> (p: Seq<int>)
    requires
        search_done(r, b, g, disc, low, parent, low_walks, flags),
        root_ok(g, disc, parent, fin, kids, kids.len() as int),
        kids.len() <= 1,
        fin.len() == disc.len(),
        forall|x: int| 0 <= x < disc.len() && #[trigger] disc[x] != 0 ==> fin[x],
        0 <= v < disc.len(),
        disc[v] != 0,
        v != g,
    ensures
        kids.len() == 1,
        is_walk(r, b, p),
        p[0] == v,
        p.last() == kids[0],
        avoids(p, g),
    decreases disc[v],
{
    lemma_done_at(r, b, g, disc, low, parent, low_walks, flags, v);
    let q = parent[v] as int;
    if q == g {
        reveal(root_ok);
        assert(fin[v]);
        assert(kids.contains(v));
        seq![v]
    } else {
        lemma_done_at(r, b, g, disc, low, parent, low_walks, flags, q);
        let rest = lemma_walk_to_kid(r, b, g, disc, low, parent, low_walks, flags, fin, kids, q);
        let head = seq![v, q];
        assert(is_walk(r, b, head)) by {
            assert(head[0] == v && head[1] == q);
        }
        lemma_walk_join(r, b, head, rest);
        let p = head + rest.drop_first();
        assert forall|i: int| 0 <= i < p.len() implies #[trigger] p[i] != g by {
            if i == 0 {
                assert(p[i] == v);
            } else {
                assert(p[i] == rest[i - 1]);
            }
        }
        p
    }
}

/// The state of the iterative depth-first search: per-cell discovery
/// numbers (0 while unvisited), low links, search parents and flags; the
/// stack of frames `(cell, next neighbour to examine)`; and, as ghost state,
/// a witness walk for each low link, the visited set and the finished cells.
struct Search {
    disc: Vec<usize>,
    low: Vec<usize>,
    parent: Vec<usize>,
    flags: Vec<bool>,
    stack: Vec<(usize, usize)>,
    time: usize,
    root_children: usize,
    low_walks: Ghost<Map<int, Seq<int>>>,
    visited: Ghost<Set<int>>,
    fin: Ghost<Seq<bool>>,
    endt: Ghost<Seq<usize>>,
    who: Ghost<Map<int, int>>,
    why: Ghost<Map<int, int>>,
    kids: Ghost<Seq<int>>,
}

impl Search {
    spec fn inv(&self, r: int, b: Seq<bool>, g: int) -> bool {
        let n = b.len();
        let disc = self.disc@;
        &&& radius_ok(r)
        &&& n == slot_count(r)
        &&& n <= 4_004_001
        &&& disc.len() == n
        &&& self.low@.len() == n
        &&& self.parent@.len() == n
        &&& self.flags@.len() == n
        &&& self.fin@.len() == n
        &&& g == goal(r)
        &&& 0 <= g < n
        &&& disc[g] != 0
        &&& self.visited@ == Set::new(|v: int| 0 <= v < n && disc[v] != 0)
        &&& self.visited@.finite()
        &&& self.visited@.len() == self.time
        &&& self.time <= n
        &&& forall|v: int| 0 <= v < n && #[trigger] disc[v] != 0 ==> passable(r, b, v) && disc[v] <= self.time
        &&& tree_ok(r, b, g, disc, self.parent@)
        &&& low_ok(r, b, disc, self.low@, self.low_walks@)
        &&& done_ok(r, b, g, disc, self.low@, self.parent@, self.flags@, self.fin@)
        &&& stack_ok(r, b, g, disc, self.parent@, self.fin@, self.stack@)
        &&& cut_ok(
            r,
            b,
            g,
            disc,
            self.low@,
            self.parent@,
            self.fin@,
            self.endt@,
            self.who@,
            self.flags@,
            self.why@,
            self.time as int,
            self.stack@,
        )
        &&& root_ok(g, disc, self.parent@, self.fin@, self.kids@, self.root_children as int)
    }

    /// The facts that the order lemmas rely on hold in a state with a
    /// non-empty stack.
    proof fn lemma_facts(&self, r: int, b: Seq<bool>, g: int)
        requires
            self.inv(r, b, g),
            self.stack@.len() > 0,
        ensures
            search_facts(
                r,
                b,
                g,
                self.disc@,
                self.low@,
                self.parent@,
                self.fin@,
                self.flags@,
                self.time as int,
                self.stack@,
            ),
    {
        reveal(tree_ok);
        reveal(done_ok);
        reveal(stack_ok);
        let stack = self.stack@;
        let disc = self.disc@;
        let top = stack.len() - 1;
        assert forall|i: int| 0 <= i < stack.len() - 1 implies #[trigger] stack[i].0 != stack.last().0 by {
            assert(disc[stack[i].0 as int] < disc[stack[top].0 as int]);
        }
        assert forall|v: int| 0 <= v < b.len() && #[trigger] disc[v] != 0 && !self.fin@[v] implies disc[v]
            <= disc[stack.last().0 as int] by {
            let i = choose|i: int| 0 <= i < stack.len() && #[trigger] stack[i].0 == v;
            if i < top {
                assert(disc[stack[i].0 as int] < disc[stack[top].0 as int]);
            }
        }
    }

    spec fn measure(&self, n: int) -> int {
        8 * (n - self.time) + frames_left(self.stack@)
    }

    /// The top frame moves past a neighbour that needs no work.
    fn skip(&mut self, Ghost(r): Ghost<int>, Ghost(b): Ghost<Seq<bool>>, Ghost(g): Ghost<int>)
        requires
            old(self).inv(r, b, g),
            old(self).stack@.len() > 0,
            old(self).stack@.last().1 < 6,
            forall|w: int|
                passable(r, b, w) && #[trigger] step(r, old(self).stack@.last().0 as int, w, old(self).stack@.last().1 as int)
                    ==> old(self).disc@[w] != 0 && ((old(self).stack@.last().0 != g && w == old(self).parent@[old(
                    self,
                ).stack@.last().0 as int]) || old(self).low@[old(self).stack@.last().0 as int] <= old(self).disc@[w]),
        ensures
            final(self).inv(r, b, g),
            final(self).measure(b.len() as int) < old(self).measure(b.len() as int),
    {
        let top = self.stack.len() - 1;
        let (u, k) = self.stack[top];
        let ghost s0 = self.stack@;
        self.stack.set(top, (u, k + 1));
        proof {
            lemma_advance_stack(r, b, g, self.disc@, self.parent@, self.fin@, s0, self.stack@);
            lemma_cut_skip(
                r,
                b,
                g,
                self.disc@,
                self.low@,
                self.parent@,
                self.fin@,
                self.endt@,
                self.who@,
                self.flags@,
                self.why@,
                self.time as int,
                s0,
                self.stack@,
            );
        }
    }

    /// The top frame discovers its unvisited `k`-th neighbour `w`, which is
    /// pushed as a new frame.
    fn discover(&mut self, w: usize, Ghost(r): Ghost<int>, Ghost(b): Ghost<Seq<bool>>, Ghost(g): Ghost<int>)
        requires
            old(self).inv(r, b, g),
            old(self).stack@.len() > 0,
            old(self).stack@.last().1 < 6,
            w < b.len(),
            passable(r, b, w as int),
            step(r, old(self).stack@.last().0 as int, w as int, old(self).stack@.last().1 as int),
            old(self).disc@[w as int] == 0,
        ensures
            final(self).inv(r, b, g),
            final(self).measure(b.len() as int) < old(self).measure(b.len() as int),
    {
        let n = self.disc.len();
        let top = self.stack.len() - 1;
        let (u, k) = self.stack[top];
        let ghost s0 = self.stack@;
        let ghost disc0 = self.disc@;
        let ghost low0 = self.low@;
        let ghost parent0 = self.parent@;
        let ghost walks0 = self.low_walks@;
        let ghost who0 = self.who@;
        let ghost time0 = self.time;
        proof {
            self.lemma_facts(r, b, g);
            lemma_int_range(0, n as int);
            lemma_len_subset(self.visited@.insert(w as int), set_int_range(0, n as int));
            assert(adjacent(r, u as int, w as int));
            lemma_adjacent_symmetric(r, u as int, w as int);
            assert(stack_ok(r, b, g, disc0, parent0, self.fin@, s0));
            assert(s0[top as int].0 < n && disc0[u as int] != 0) by {
                reveal(stack_ok);
            }
        }
        self.stack.set(top, (u, k + 1));
        let ghost s1 = self.stack@;
        self.time = self.time + 1;
        self.disc.set(w, self.time);
        self.low.set(w, self.time);
        self.parent.set(w, u);
        self.stack.push((w, 0));
        proof {
            self.visited@ = self.visited@.insert(w as int);
            self.low_walks@ = walks0.insert(w as int, seq![w as int]);
            assert(self.visited@ =~= Set::new(|v: int| 0 <= v < n && self.disc@[v] != 0));
            assert(s1.drop_last() =~= s0.drop_last());
            assert(self.stack@.drop_last() =~= s1);
            assert(frames_left(s0) == frames_left(s0.drop_last()) + (7 - k));
            assert(frames_left(self.stack@) == frames_left(s1) + 7);
            lemma_discover_tree(r, b, g, disc0, parent0, self.disc@, self.parent@, u, w as int, self.time);
            lemma_discover_low(r, b, disc0, low0, walks0, self.disc@, self.low@, self.low_walks@, w as int, self.time);
            lemma_discover_done(r, b, g, disc0, low0, parent0, self.disc@, self.low@, self.parent@, self.flags@, self.fin@, u as int, w as int, self.time);
            lemma_discover_stack(r, b, g, disc0, parent0, s0, self.disc@, self.parent@, self.stack@, self.fin@, u, k, w, self.time);
            self.who@ = who0.insert(self.time as int, w as int);
            assert(!self.fin@[w as int]) by {
                reveal(done_ok);
            }
            lemma_root_discover(g, disc0, parent0, self.fin@, self.kids@, self.root_children as int, self.disc@, self.parent@, w as int, self.time, u);
            lemma_cut_discover(
                r,
                b,
                g,
                disc0,
                low0,
                parent0,
                self.fin@,
                self.endt@,
                who0,
                self.flags@,
                self.why@,
                time0 as int,
                s0,
                self.disc@,
                self.low@,
                self.parent@,
                self.who@,
                self.stack@,
                u,
                k,
                w,
            );
        }
    }

    /// The top frame meets visited, non-parent neighbour `w` whose discovery
    /// number is below its low link, which drops to it.
    fn lower(&mut self, w: usize, Ghost(r): Ghost<int>, Ghost(b): Ghost<Seq<bool>>, Ghost(g): Ghost<int>)
        requires
            old(self).inv(r, b, g),
            old(self).stack@.len() > 0,
            old(self).stack@.last().1 < 6,
            w < b.len(),
            passable(r, b, w as int),
            step(r, old(self).stack@.last().0 as int, w as int, old(self).stack@.last().1 as int),
            old(self).disc@[w as int] != 0,
            old(self).disc@[w as int] < old(self).low@[old(self).stack@.last().0 as int],
        ensures
            final(self).inv(r, b, g),
            final(self).measure(b.len() as int) < old(self).measure(b.len() as int),
    {
        let top = self.stack.len() - 1;
        let (u, k) = self.stack[top];
        let ghost s0 = self.stack@;
        let ghost low0 = self.low@;
        let ghost walks0 = self.low_walks@;
        proof {
            self.lemma_facts(r, b, g);
            assert(adjacent(r, u as int, w as int));
            assert(stack_ok(r, b, g, self.disc@, self.parent@, self.fin@, s0));
            assert(s0[top as int].0 < b.len() && self.disc@[u as int] != 0 && !self.fin@[u as int]) by {
                reveal(stack_ok);
            }
        }
        proof {
            assert forall|x: int|
                passable(r, b, x) && #[trigger] step(r, s0.last().0 as int, x, s0.last().1 as int)
                    implies self.disc@[x] != 0 by {
                lemma_coord_of_step(r, u as int, x, k as int);
                lemma_coord_of_step(r, u as int, w as int, k as int);
            }
        }
        self.stack.set(top, (u, k + 1));
        let d = self.disc[w];
        self.low.set(u, d);
        proof {
            self.low_walks@ = walks0.insert(u as int, seq![u as int, w as int]);
            lemma_lower_low(r, b, self.disc@, low0, walks0, self.low@, self.low_walks@, u as int, w as int);
            lemma_unfinished_low_done(r, b, g, self.disc@, low0, self.parent@, self.flags@, self.fin@, self.low@, u as int);
            lemma_advance_stack(r, b, g, self.disc@, self.parent@, self.fin@, s0, self.stack@);
            lemma_cut_lower(
                r,
                b,
                g,
                self.disc@,
                low0,
                self.parent@,
                self.fin@,
                self.endt@,
                self.who@,
                self.flags@,
                self.why@,
                self.time as int,
                s0,
                self.low@,
                self.stack@,
                u,
                k,
                w,
            );
        }
    }

    /// The top frame has examined all six neighbours: its cell is finished
    /// and popped, and its parent takes over its low link when lower and is
    /// flagged when the cell's low link does not reach above the parent.
    fn retreat(&mut self, Ghost(r): Ghost<int>, Ghost(b): Ghost<Seq<bool>>, g: usize)
        requires
            old(self).inv(r, b, g as int),
            old(self).stack@.len() > 0,
            old(self).stack@.last().1 >= 6,
        ensures
            final(self).inv(r, b, g as int),
            final(self).measure(b.len() as int) < old(self).measure(b.len() as int),
    {
        let top = self.stack.len() - 1;
        let u = self.stack[top].0;
        let ghost s0 = self.stack@;
        let ghost fin0 = self.fin@;
        let ghost low0 = self.low@;
        let ghost flags0 = self.flags@;
        let ghost walks0 = self.low_walks@;
        let ghost endt0 = self.endt@;
        let ghost why0 = self.why@;
        let ghost kids0 = self.kids@;
        let ghost children0 = self.root_children;
        proof {
            self.lemma_facts(r, b, g as int);
            lemma_stack_top(r, b, g as int, self.disc@, self.parent@, fin0, s0);
        }
        self.stack.pop();
        proof {
            self.fin@ = fin0.update(u as int, true);
            self.endt@ = endt0.update(u as int, self.time);
            lemma_pop_stack(r, b, g as int, self.disc@, self.parent@, fin0, s0, self.fin@, self.stack@);
        }
        if self.stack.len() > 0 {
            let p = self.stack[self.stack.len() - 1].0;
            proof {
                assert(self.stack@[self.stack@.len() - 1] == s0[s0.len() - 2]);
                assert(tree_ok(r, b, g as int, self.disc@, self.parent@));
                assert(adjacent(r, u as int, p as int)) by {
                    reveal(tree_ok);
                    assert(self.parent@[u as int] < b.len());
                }
            }
            if self.low[u] < self.low[p] {
                let lu = self.low[u];
                self.low.set(p, lu);
                proof {
                    self.low_walks@ = walks0.insert(p as int, seq![p as int].add(walks0[u as int]));
                    lemma_pop_low(r, b, self.disc@, low0, walks0, self.low@, self.low_walks@, u as int, p as int);
                }
            }
            if p == g {
                if self.root_children < 2 {
                    self.root_children = self.root_children + 1;
                    proof {
                        self.kids@ = kids0.push(u as int);
                    }
                }
            } else if self.low[u] >= self.disc[p] {
                self.flags.set(p, true);
                proof {
                    self.why@ = why0.insert(p as int, u as int);
                }
            }
            proof {
                lemma_tree_ranges(r, b, g as int, self.disc@, self.parent@);
                lemma_pop_done(r, b, g as int, self.disc@, self.parent@, low0, flags0, fin0, self.low@, self.flags@, self.fin@, u as int, p as int);
                lemma_root_retreat(g as int, self.disc@, self.parent@, fin0, kids0, children0 as int, self.fin@, self.kids@, self.root_children as int, u as int, p as int);
                lemma_cut_retreat(
                    r,
                    b,
                    g as int,
                    self.disc@,
                    low0,
                    self.parent@,
                    fin0,
                    endt0,
                    self.who@,
                    flags0,
                    why0,
                    self.time as int,
                    s0,
                    self.low@,
                    self.fin@,
                    self.endt@,
                    self.flags@,
                    self.why@,
                    self.stack@,
                    p as int,
                );
            }
        } else {
            proof {
                lemma_tree_ranges(r, b, g as int, self.disc@, self.parent@);
                lemma_pop_done(r, b, g as int, self.disc@, self.parent@, low0, flags0, fin0, self.low@, self.flags@, self.fin@, u as int, -1);
                lemma_root_retreat(g as int, self.disc@, self.parent@, fin0, kids0, children0 as int, self.fin@, self.kids@, self.root_children as int, u as int, -1);
                lemma_cut_retreat(
                    r,
                    b,
                    g as int,
                    self.disc@,
                    low0,
                    self.parent@,
                    fin0,
                    endt0,
                    self.who@,
                    flags0,
                    why0,
                    self.time as int,
                    s0,
                    self.low@,
                    self.fin@,
                    self.endt@,
                    self.flags@,
                    self.why@,
                    self.stack@,
                    -1,
                );
            }
        }
    }
}

/// An emptied stack leaves a finished search, also once the goal is flagged.
proof fn lemma_finish(
    r: int,
    b: Seq<bool>,
    g: int,
    disc: Seq<usize>,
    low: Seq<usize>,
    parent: Seq<usize>,
    walks: Map<int, Seq<int>>,
    flags0: Seq<bool>,
    fin: Seq<bool>,
    flags: Seq<bool>,
)
    requires
        tree_ok(r, b, g, disc, parent),
        low_ok(r, b, disc, low, walks),
        done_ok(r, b, g, disc, low, parent, flags0, fin),
        stack_ok(r, b, g, disc, parent, fin, Seq::<(usize, usize)>::empty()),
        b.len() == slot_count(r),
        disc.len() == b.len(),
        low.len() == b.len(),
        parent.len() == b.len(),
        flags0.len() == b.len(),
        fin.len() == b.len(),
        g == goal(r),
        0 <= g < b.len(),
        disc[g] != 0,
        forall|v: int| 0 <= v < b.len() && #[trigger] disc[v] != 0 ==> passable(r, b, v),
        flags == flags0 || flags == flags0.update(g, true),
    ensures
        search_done(r, b, g, disc, low, parent, walks, flags),
{
    reveal(search_done);
    reveal(tree_ok);
    reveal(low_ok);
    reveal(done_ok);
    reveal(stack_ok);
    let n = b.len();
    assert forall|v: int| 0 <= v < n && disc[v] != 0 implies #[trigger] fin[v] by {
        if !fin[v] {
            let i = choose|i: int|
                0 <= i < Seq::<(usize, usize)>::empty().len() && #[trigger] Seq::<(usize, usize)>::empty()[i].0
                    == v;
        }
    }
    assert forall|v: int|
        0 <= v < n && #[trigger] disc[v] != 0 && v != g && parent[v] != g && low[v] >= disc[parent[v] as int]
            implies flags[parent[v] as int] by {
        assert(fin[v]);
        assert(flags0[parent[v] as int]);
    }
    assert forall|v: int| 0 <= v < n && #[trigger] flags[v] implies disc[v] != 0 by {
        if v != g {
            assert(flags0[v]);
        }
    }
    assert forall|v: int, w: int|
        0 <= v < n && disc[v] != 0 && passable(r, b, w) && #[trigger] adjacent(r, v, w) implies disc[w] != 0 by {
        assert(fin[v]);
    }
}

/// Flags the cut vertices of the unoccupied cells that the goal reaches, by
/// an iterative depth-first search from the goal with discovery numbers and
/// low links. A cell other than the goal is flagged when the low link of one
/// of its search children does not reach above it; the goal, when it has
/// more than one search child.
pub fn non_constructible_cells(radius: u32, occupants: &Vec<Option<u64>>) -> (flags: Vec<bool>)
    requires
        radius_ok(radius as int),
        occupants@.len() == slot_count(radius as int),
    ensures
        flags_correct(radius as int, blocked_of(occupants@), flags@),
{
    let ghost r = radius as int;
    let ghost b = blocked_of(occupants@);
    let n = occupants.len();
    assert(n <= 4_004_001) by (nonlinear_arith)
        requires n == (2 * r + 1) * (2 * r + 1), 0 <= r <= 1000;
    let mut disc: Vec<usize> = Vec::new();
    let mut low: Vec<usize> = Vec::new();
    let mut parent: Vec<usize> = Vec::new();
    let mut flags: Vec<bool> = Vec::new();
    let mut i: usize = 0;
    while i < n
        invariant
            i <= n,
            disc@.len() == i,
            low@.len() == i,
            parent@.len() == i,
            flags@.len() == i,
            forall|j: int| 0 <= j < i ==> disc@[j] == 0 && !flags@[j],
        decreases n - i,
    {
        disc.push(0);
        low.push(0);
        parent.push(0);
        flags.push(false);
        i += 1;
    }
    let g = slot_in_map(radius, HexCoord { x: 0, y: 0 }).unwrap();
    assert(g == goal(r));
    if occupants[g].is_some() {
        assert forall|c: int, w: int|
            0 <= c < flags@.len() && c != goal(r) && !flags@[c] && w != c implies !#[trigger] cuts_off(
            r,
            b,
            c,
            w,
        ) by {
            if reaches(r, b, w) {
                let p = choose|p: Seq<int>| walk_to(r, b, p, w);
                assert(passable(r, b, p[0]));
            }
        }
        assert(!goal_separates(r, b)) by {
            if goal_separates(r, b) {
                let (u, w) = choose|u: int, w: int|
                    u != goal(r) && w != goal(r) && reaches(r, b, u) && reaches(r, b, w) && !#[trigger] connected(
                        r,
                        b.update(goal(r), true),
                        u,
                        w,
                    );
                let p = choose|p: Seq<int>| walk_to(r, b, p, u);
                assert(passable(r, b, p[0]));
            }
        }
        return flags;
    }
    disc.set(g, 1);
    low.set(g, 1);
    let ghost walks0: Map<int, Seq<int>> = map![g as int => seq![g as int]];
    let ghost visited0: Set<int> = set![g as int];
    let ghost fin0: Seq<bool> = Seq::new(n as nat, |j: int| false);
    let ghost endt0: Seq<usize> = Seq::new(n as nat, |j: int| 0usize);
    let ghost who0: Map<int, int> = map![1int => g as int];
    let ghost why0: Map<int, int> = Map::empty();
    let ghost kids0: Seq<int> = Seq::empty();
    let mut search = Search {
        disc,
        low,
        parent,
        flags,
        stack: vec![(g, 0)],
        time: 1,
        root_children: 0,
        low_walks: Ghost(walks0),
        visited: Ghost(visited0),
        fin: Ghost(fin0),
        endt: Ghost(endt0),
        who: Ghost(who0),
        why: Ghost(why0),
        kids: Ghost(kids0),
    };
    proof {
        let disc = search.disc@;
        assert(search.visited@ =~= Set::new(|v: int| 0 <= v < n && disc[v] != 0));
        lemma_int_range(0, n as int);
        lemma_len_subset(search.visited@, set_int_range(0, n as int));
        assert(tree_ok(r, b, g as int, disc, search.parent@)) by {
            reveal(tree_ok);
        }
        assert(low_ok(r, b, disc, search.low@, search.low_walks@)) by {
            reveal(low_ok);
            assert(low_walk_ok(r, b, disc, search.low@, g as int, seq![g as int])) by {
                reveal(low_walk_ok);
            }
        }
        assert(done_ok(r, b, g as int, disc, search.low@, search.parent@, search.flags@, search.fin@)) by {
            reveal(done_ok);
        }
        assert(stack_ok(r, b, g as int, disc, search.parent@, search.fin@, search.stack@)) by {
            reveal(stack_ok);
            assert forall|v: int| 0 <= v < n && #[trigger] disc[v] != 0 && !search.fin@[v] implies exists|i: int|
                0 <= i < search.stack@.len() && #[trigger] search.stack@[i].0 == v by {
                assert(search.stack@[0].0 == v);
            }
        }
        assert(cut_ok(
            r,
            b,
            g as int,
            disc,
            search.low@,
            search.parent@,
            search.fin@,
            search.endt@,
            search.who@,
            search.flags@,
            search.why@,
            1,
            search.stack@,
        )) by {
            reveal(cut_ok);
        }
        assert(root_ok(g as int, disc, search.parent@, search.fin@, search.kids@, 0)) by {
            reveal(root_ok);
        }
    }
    while search.stack.len() > 0
        invariant
            search.inv(r, b, g as int),
            r == radius,
            b == blocked_of(occupants@),
            n == occupants@.len(),
            n == b.len(),
        decreases search.measure(n as int),
    {
        let top = search.stack.len() - 1;
        let (u, k) = search.stack[top];
        proof {
            assert(stack_ok(r, b, g as int, search.disc@, search.parent@, search.fin@, search.stack@));
            reveal(stack_ok);
            assert(search.stack@[top as int].0 < n);
        }
        if k < 6 {
            let cu = coord_at(radius, u);
            let nb = neighbors(cu);
            let found = slot_in_map(radius, nb[k]);
            proof {
                assert forall|w: int| passable(r, b, w) && #[trigger] step(r, u as int, w, k as int) implies found
                    == Some(w as usize) by {
                    lemma_coord_of_step(r, u as int, w, k as int);
                }
            }
            match found {
                Some(w) => {
                    if occupants[w].is_some() {
                        search.skip(Ghost(r), Ghost(b), Ghost(g as int));
                    } else if search.disc[w] == 0 {
                        proof {
                            assert(step(r, u as int, w as int, k as int));
                        }
                        search.discover(w, Ghost(r), Ghost(b), Ghost(g as int));
                    } else if (u == g || w != search.parent[u]) && search.disc[w] < search.low[u] {
                        proof {
                            assert(step(r, u as int, w as int, k as int));
                        }
                        search.lower(w, Ghost(r), Ghost(b), Ghost(g as int));
                    } else {
                        search.skip(Ghost(r), Ghost(b), Ghost(g as int));
                    }
                },
                None => {
                    search.skip(Ghost(r), Ghost(b), Ghost(g as int));
                },
            }
        } else {
            search.retreat(Ghost(r), Ghost(b), g);
        }
    }
    let ghost flags0 = search.flags@;
    if search.root_children > 1 {
        search.flags.set(g, true);
    }
    proof {
        assert(search.stack@ =~= Seq::<(usize, usize)>::empty());
        lemma_finish(
            r,
            b,
            g as int,
            search.disc@,
            search.low@,
            search.parent@,
            search.low_walks@,
            flags0,
            search.fin@,
            search.flags@,
        );
        lemma_search_done_sound(
            r,
            b,
            g as int,
            search.disc@,
            search.low@,
            search.parent@,
            search.low_walks@,
            search.flags@,
        );
        let disc = search.disc@;
        assert(finished_facts(r, b, g as int, disc, search.low@, search.parent@, search.fin@)) by {
            reveal(tree_ok);
            reveal(stack_ok);
            assert forall|v: int| 0 <= v < n && #[trigger] disc[v] != 0 implies passable(r, b, v) && search.fin@[v] by {
                if !search.fin@[v] {
                    let i = choose|i: int| 0 <= i < search.stack@.len() && #[trigger] search.stack@[i].0 == v;
                }
            }
        }
        assert forall|c: int|
            0 <= c < search.flags@.len() && c != goal(r) && #[trigger] search.flags@[c] implies exists|w: int|
            w != c && #[trigger] cuts_off(r, b, c, w) by {
            assert(flags0[c]);
            lemma_flagged_separates(
                r,
                b,
                g as int,
                disc,
                search.low@,
                search.parent@,
                search.fin@,
                search.endt@,
                search.who@,
                flags0,
                search.why@,
                search.time as int,
                search.stack@,
                c,
            );
            let w = search.why@[c];
            lemma_search_done_reaches(
                r,
                b,
                g as int,
                disc,
                search.low@,
                search.parent@,
                search.low_walks@,
                search.flags@,
                w,
            );
            assert(cuts_off(r, b, c, w));
        }
        let kids = search.kids@;
        let fin = search.fin@;
        assert(!flags0[g as int]) by {
            reveal(cut_ok);
        }
        if search.root_children > 1 {
            let (c1, c2) = {
                reveal(root_ok);
                reveal(cut_ok);
                assert(kids.len() == 2 && kids[0] != kids[1]);
                assert(kids.contains(kids[0]) && kids.contains(kids[1]));
                assert(0 <= kids[0] < n && 0 <= kids[1] < n);
                if disc[kids[0]] == disc[kids[1]] {
                    assert(search.who@[disc[kids[0]] as int] == kids[0]);
                    assert(search.who@[disc[kids[1]] as int] == kids[1]);
                }
                if disc[kids[0]] < disc[kids[1]] {
                    (kids[0], kids[1])
                } else {
                    (kids[1], kids[0])
                }
            };
            assert(0 <= c1 < n && 0 <= c2 < n && c1 != g && c2 != g && disc[c1] != 0 && disc[c2] != 0
                && search.parent@[c1] == g && search.parent@[c2] == g && disc[c1] < disc[c2]) by {
                reveal(root_ok);
                assert(kids.contains(kids[0]) && kids.contains(kids[1]));
            }
            lemma_goal_children_separated(
                r,
                b,
                g as int,
                disc,
                search.low@,
                search.parent@,
                fin,
                search.endt@,
                search.who@,
                flags0,
                search.why@,
                search.time as int,
                search.stack@,
                c1,
                c2,
            );
            lemma_search_done_reaches(r, b, g as int, disc, search.low@, search.parent@, search.low_walks@, search.flags@, c1);
            lemma_search_done_reaches(r, b, g as int, disc, search.low@, search.parent@, search.low_walks@, search.flags@, c2);
            assert(!connected(r, b.update(g as int, true), c2, c1));
            assert(goal_separates(r, b));
        } else {
            assert(kids.len() <= 1 && search.root_children as int == kids.len()) by {
                reveal(root_ok);
            }
            assert(root_ok(g as int, disc, search.parent@, fin, kids, kids.len() as int));
            assert(forall|x: int| 0 <= x < disc.len() && #[trigger] disc[x] != 0 ==> fin[x]);
            assert forall|u: int, w: int|
                u != goal(r) && w != goal(r) && reaches(r, b, u) && reaches(r, b, w) implies #[trigger] connected(
                r,
                b.update(goal(r), true),
                u,
                w,
            ) by {
                let qu = choose|q: Seq<int>| walk_to(r, b, q, u);
                let qw = choose|q: Seq<int>| walk_to(r, b, q, w);
                lemma_walk_visited(r, b, g as int, disc, search.low@, search.parent@, search.low_walks@, search.flags@, qu);
                lemma_walk_visited(r, b, g as int, disc, search.low@, search.parent@, search.low_walks@, search.flags@, qw);
                let pu = lemma_walk_to_kid(r, b, g as int, disc, search.low@, search.parent@, search.low_walks@, search.flags@, fin, kids, u);
                let pw = lemma_walk_to_kid(r, b, g as int, disc, search.low@, search.parent@, search.low_walks@, search.flags@, fin, kids, w);
                lemma_walk_reverse(r, b, pw);
                let rw = pw.reverse();
                lemma_walk_join(r, b, pu, rw);
                let j = pu + rw.drop_first();
                assert forall|i: int| 0 <= i < j.len() implies #[trigger] j[i] != g by {
                    if i < pu.len() {
                        assert(j[i] == pu[i]);
                    } else {
                        assert(j[i] == rw[i - pu.len() + 1]);
                        assert(rw[i - pu.len() + 1] == pw[pw.len() - 1 - (i - pu.len() + 1)]);
                    }
                }
                lemma_walk_avoiding(r, b, j, g as int);
                assert(is_walk(r, b.update(goal(r), true), j));
            }
            assert(!goal_separates(r, b));
        }
    }
    search.flags
}

} // verus!
