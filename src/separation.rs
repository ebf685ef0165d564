//! Why a flagged cell separates: the facts of a depth-first search that show
//! that a cell flagged by the cut-vertex rule does cut its search child off
//! from the goal.
use vstd::prelude::*;
use crate::model::{
    adjacent, goal, is_walk, lemma_adjacent_symmetric, lemma_coord_of_step, passable, radius_ok,
    reaches, slot_count, step, walk_to,
};

verus! {

/// `x` was discovered while `c` was on the search stack, or is `c`.
pub open spec fn within(disc: Seq<usize>, endt: Seq<usize>, c: int, x: int) -> bool {
    disc[c] <= disc[x] <= endt[c]
}

/// `c` was discovered before `x` and was still on the stack when `x` was.
pub open spec fn opened_before(disc: Seq<usize>, fin: Seq<bool>, endt: Seq<usize>, c: int, x: int) -> bool {
    disc[c] != 0 && disc[c] < disc[x] && (!fin[c] || endt[c] >= disc[x])
}

/// `y` was discovered after the parent of `c` and before `c`.
pub open spec fn between(disc: Seq<usize>, parent: Seq<usize>, c: int, y: int) -> bool {
    disc[parent[c] as int] < disc[y] && disc[y] < disc[c]
}

/// The order facts of the search: discovery numbers are distinct and the
/// goal's is 1; finished cells carry the clock value `endt` at which they
/// finished; low links bound the discovery numbers of the neighbours
/// examined (but the parent), and pass up to parents; cells discovered while
/// a cell was on the stack are its descendants; and each flagged cell other
/// than the goal has a finished child (`why`) whose low link does not reach
/// above it.
#[verifier::opaque]
pub open spec fn cut_ok(
    r: int,
    b: Seq<bool>,
    g: int,
    disc: Seq<usize>,
    low: Seq<usize>,
    parent: Seq<usize>,
    fin: Seq<bool>,
    endt: Seq<usize>,
    who: Map<int, int>,
    flags: Seq<bool>,
    why: Map<int, int>,
    time: int,
    stack: Seq<(usize, usize)>,
) -> bool {
    let n = b.len();
    &&& endt.len() == n
    &&& disc[g] == 1
    &&& !flags[g]
    &&& forall|x: int|
        0 <= x < n && #[trigger] disc[x] != 0 ==> who.contains_key(disc[x] as int) && who[disc[x] as int] == x
            && low[x] <= disc[x]
    &&& forall|x: int|
        0 <= x < n && #[trigger] fin[x] ==> disc[x] <= endt[x] && endt[x] <= time && (x != g ==> low[parent[x] as int]
            <= low[x])
    &&& forall|x: int, y: int|
        0 <= x < n && fin[x] && passable(r, b, y) && #[trigger] adjacent(r, x, y) ==> disc[y] != 0 && disc[y]
            <= endt[x] && ((x != g && y == parent[x]) || low[x] <= disc[y])
    &&& forall|i: int, j: int, y: int|
        0 <= i < stack.len() && 0 <= j < stack[i].1 && passable(r, b, y) && #[trigger] step(
            r,
            stack[i].0 as int,
            y,
            j,
        ) ==> (stack[i].0 != g && y == parent[stack[i].0 as int]) || low[stack[i].0 as int] <= disc[y]
    &&& forall|c: int, x: int|
        0 <= c < n && 0 <= x < n && fin[c] && fin[x] && #[trigger] within(disc, endt, c, x) ==> endt[x] <= endt[c]
    &&& forall|c: int, y: int|
        0 <= c < n && 0 <= y < n && disc[c] != 0 && c != g && disc[y] != 0 && #[trigger] between(
            disc,
            parent,
            c,
            y,
        ) ==> fin[y] && endt[y] < disc[c]
    &&& forall|c: int, x: int|
        0 <= c < n && 0 <= x < n && disc[x] != 0 && x != g && #[trigger] opened_before(disc, fin, endt, c, x)
            ==> disc[c] <= disc[parent[x] as int]
    &&& forall|c: int, x: int|
        0 <= c < n && 0 <= x < n && fin[c] && disc[x] != 0 && !fin[x] && disc[c] < disc[x] ==> #[trigger] endt[c]
            < #[trigger] disc[x]
    &&& forall|v: int|
        0 <= v < n && #[trigger] flags[v] && v != g ==> why.contains_key(v) && 0 <= why[v] < n && fin[why[v]]
            && parent[why[v]] == v && low[why[v]] >= disc[v] && why[v] != g && disc[why[v]] != 0
}

/// The search facts that the preservation lemmas below rely on, stated for
/// one state.
pub open spec fn search_facts(
    r: int,
    b: Seq<bool>,
    g: int,
    disc: Seq<usize>,
    low: Seq<usize>,
    parent: Seq<usize>,
    fin: Seq<bool>,
    flags: Seq<bool>,
    time: int,
    stack: Seq<(usize, usize)>,
) -> bool {
    let n = b.len();
    &&& radius_ok(r)
    &&& n == slot_count(r)
    &&& disc.len() == n
    &&& low.len() == n
    &&& parent.len() == n
    &&& fin.len() == n
    &&& flags.len() == n
    &&& 0 <= g < n
    &&& g == goal(r)
    &&& forall|v: int| 0 <= v < n && #[trigger] disc[v] != 0 ==> passable(r, b, v) && disc[v] <= time
    &&& forall|v: int|
        0 <= v < n && disc[v] != 0 && v != g ==> #[trigger] parent[v] < n && disc[parent[v] as int] != 0
            && disc[parent[v] as int] < disc[v]
    &&& forall|v: int| 0 <= v < n && #[trigger] fin[v] ==> disc[v] != 0
    &&& forall|v: int| 0 <= v < n && #[trigger] flags[v] ==> disc[v] != 0
    &&& stack.len() > 0
    &&& forall|i: int|
        0 <= i < stack.len() ==> #[trigger] stack[i].0 < n && disc[stack[i].0 as int] != 0 && !fin[stack[i].0 as int]
    &&& forall|i: int| 0 <= i < stack.len() - 1 ==> #[trigger] stack[i].0 != stack.last().0
    &&& forall|v: int| 0 <= v < n && #[trigger] disc[v] != 0 && !fin[v] ==> disc[v] <= disc[stack.last().0 as int]
    &&& forall|i: int, j: int, y: int|
        0 <= i < stack.len() && 0 <= j < stack[i].1 && passable(r, b, y) && #[trigger] step(r, stack[i].0 as int, y, j)
            ==> disc[y] != 0
}

/// Moving the top frame past a neighbour that is impassable, its parent, or
/// discovered no earlier than its low link keeps the order facts.
pub proof fn lemma_cut_skip(
    r: int,
    b: Seq<bool>,
    g: int,
    disc: Seq<usize>,
    low: Seq<usize>,
    parent: Seq<usize>,
    fin: Seq<bool>,
    endt: Seq<usize>,
    who: Map<int, int>,
    flags: Seq<bool>,
    why: Map<int, int>,
    time: int,
    s0: Seq<(usize, usize)>,
    stack: Seq<(usize, usize)>,
)
    requires
        cut_ok(r, b, g, disc, low, parent, fin, endt, who, flags, why, time, s0),
        s0.len() > 0,
        s0.last().1 < 6,
        forall|y: int|
            passable(r, b, y) && #[trigger] step(r, s0.last().0 as int, y, s0.last().1 as int) ==> (s0.last().0
                != g && y == parent[s0.last().0 as int]) || low[s0.last().0 as int] <= disc[y],
        stack == s0.update(s0.len() - 1, (s0.last().0, (s0.last().1 + 1) as usize)),
    ensures
        cut_ok(r, b, g, disc, low, parent, fin, endt, who, flags, why, time, stack),
{
    reveal(cut_ok);
    let top = s0.len() - 1;
    assert forall|i: int, j: int, y: int|
        0 <= i < stack.len() && 0 <= j < stack[i].1 && passable(r, b, y) && #[trigger] step(
            r,
            stack[i].0 as int,
            y,
            j,
        ) implies (stack[i].0 != g && y == parent[stack[i].0 as int]) || low[stack[i].0 as int] <= disc[y] by {
        if i == top && j == s0.last().1 {
        } else {
            assert(step(r, s0[i].0 as int, y, j));
        }
    }
}


/// Discovering `w`, the `k`-th neighbour of the top frame's cell `u`, at
/// clock `time + 1` keeps the order facts.
pub proof fn lemma_cut_discover(
    r: int,
    b: Seq<bool>,
    g: int,
    disc0: Seq<usize>,
    low0: Seq<usize>,
    parent0: Seq<usize>,
    fin: Seq<bool>,
    endt: Seq<usize>,
    who0: Map<int, int>,
    flags: Seq<bool>,
    why: Map<int, int>,
    time: int,
    s0: Seq<(usize, usize)>,
    disc: Seq<usize>,
    low: Seq<usize>,
    parent: Seq<usize>,
    who: Map<int, int>,
    stack: Seq<(usize, usize)>,
    u: usize,
    k: usize,
    w: usize,
)
    requires
        cut_ok(r, b, g, disc0, low0, parent0, fin, endt, who0, flags, why, time, s0),
        search_facts(r, b, g, disc0, low0, parent0, fin, flags, time, s0),
        s0.last() == (u, k),
        k < 6,
        w < b.len(),
        passable(r, b, w as int),
        step(r, u as int, w as int, k as int),
        disc0[w as int] == 0,
        time + 1 <= usize::MAX,
        disc == disc0.update(w as int, (time + 1) as usize),
        low == low0.update(w as int, (time + 1) as usize),
        parent == parent0.update(w as int, u),
        who == who0.insert(time + 1, w as int),
        stack == s0.update(s0.len() - 1, (u, (k + 1) as usize)).push((w, 0usize)),
    ensures
        cut_ok(r, b, g, disc, low, parent, fin, endt, who, flags, why, time + 1, stack),
{
    reveal(cut_ok);
    let n = b.len();
    let t = time + 1;
    let top = s0.len() - 1;
    assert(u < n && disc0[u as int] != 0 && !fin[u as int]) by {
        assert(s0[top].0 == u);
    }
    assert(!fin[w as int]);
    assert(w != g);
    assert forall|x: int| 0 <= x < n && #[trigger] disc[x] != 0 implies who.contains_key(disc[x] as int)
        && who[disc[x] as int] == x && low[x] <= disc[x] by {
        if x != w {
            assert(disc0[x] != 0);
        }
    }
    assert forall|x: int| 0 <= x < n && #[trigger] fin[x] implies disc[x] <= endt[x] && endt[x] <= t && (x
        != g ==> low[parent[x] as int] <= low[x]) by {
        assert(disc0[x] != 0);
        if x != g {
            assert(disc0[parent0[x] as int] != 0);
        }
    }
    assert forall|x: int, y: int|
        0 <= x < n && fin[x] && passable(r, b, y) && #[trigger] adjacent(r, x, y) implies disc[y] != 0
            && disc[y] <= endt[x] && ((x != g && y == parent[x]) || low[x] <= disc[y]) by {
        assert(disc0[x] != 0);
        assert(disc0[y] != 0);
    }
    assert forall|i: int, j: int, y: int|
        0 <= i < stack.len() && 0 <= j < stack[i].1 && passable(r, b, y) && #[trigger] step(
            r,
            stack[i].0 as int,
            y,
            j,
        ) implies (stack[i].0 != g && y == parent[stack[i].0 as int]) || low[stack[i].0 as int] <= disc[y] by {
        if i < top || (i == top && j < k) {
            assert(stack[i] == s0[i] || (i == top && stack[i].0 == u));
            assert(step(r, s0[i].0 as int, y, j));
            assert(disc0[y] != 0);
            assert(s0[i].0 != w);
        } else if i == top {
            lemma_coord_of_step(r, u as int, y, j);
            lemma_coord_of_step(r, u as int, w as int, j);
            assert(y == w);
        }
    }
    assert forall|c: int, x: int|
        0 <= c < n && 0 <= x < n && fin[c] && fin[x] && #[trigger] within(disc, endt, c, x) implies endt[x] <= endt[c] by {
        assert(disc0[c] != 0 && disc0[x] != 0);
        assert(within(disc0, endt, c, x));
    }
    assert forall|c: int, y: int|
        0 <= c < n && 0 <= y < n && disc[c] != 0 && c != g && disc[y] != 0 && #[trigger] between(
            disc,
            parent,
            c,
            y,
        ) implies fin[y] && endt[y] < disc[c] by {
        if c == w {
            assert(parent[c] == u);
            assert(y != w);
            assert(disc0[y] != 0);
            if !fin[y] {
                assert(disc0[y] <= disc0[s0.last().0 as int]);
            }
        } else {
            assert(disc0[c] != 0);
            assert(y != w);
            assert(disc0[parent0[c] as int] != 0);
            assert(between(disc0, parent0, c, y));
        }
    }
    assert forall|c: int, x: int|
        0 <= c < n && 0 <= x < n && disc[x] != 0 && x != g && #[trigger] opened_before(disc, fin, endt, c, x)
            implies disc[c] <= disc[parent[x] as int] by {
        if x == w {
            assert(c != w);
            assert(disc0[c] != 0);
            assert(!fin[c]);
            assert(disc0[c] <= disc0[s0.last().0 as int]);
        } else {
            assert(disc0[x] != 0);
            assert(c != w);
            assert(opened_before(disc0, fin, endt, c, x));
            assert(disc0[parent0[x] as int] != 0);
        }
    }
    assert forall|c: int, x: int|
        0 <= c < n && 0 <= x < n && fin[c] && disc[x] != 0 && !fin[x] && disc[c] < disc[x] implies #[trigger] endt[c]
            < #[trigger] disc[x] by {
        assert(disc0[c] != 0);
        if x != w {
            assert(disc0[x] != 0);
        }
    }
    assert forall|v: int| 0 <= v < n && #[trigger] flags[v] && v != g implies why.contains_key(v) && 0 <= why[v]
        < n && fin[why[v]] && parent[why[v]] == v && low[why[v]] >= disc[v] && why[v] != g && disc[why[v]] != 0 by {
        assert(disc0[v] != 0);
        assert(why[v] != w);
    }
}


/// Lowering the top frame's low link to the discovery number of its `k`-th
/// neighbour `w` keeps the order facts.
pub proof fn lemma_cut_lower(
    r: int,
    b: Seq<bool>,
    g: int,
    disc: Seq<usize>,
    low0: Seq<usize>,
    parent: Seq<usize>,
    fin: Seq<bool>,
    endt: Seq<usize>,
    who: Map<int, int>,
    flags: Seq<bool>,
    why: Map<int, int>,
    time: int,
    s0: Seq<(usize, usize)>,
    low: Seq<usize>,
    stack: Seq<(usize, usize)>,
    u: usize,
    k: usize,
    w: usize,
)
    requires
        cut_ok(r, b, g, disc, low0, parent, fin, endt, who, flags, why, time, s0),
        search_facts(r, b, g, disc, low0, parent, fin, flags, time, s0),
        s0.last() == (u, k),
        k < 6,
        w < b.len(),
        step(r, u as int, w as int, k as int),
        disc[w as int] != 0,
        disc[w as int] < low0[u as int],
        low == low0.update(u as int, disc[w as int]),
        stack == s0.update(s0.len() - 1, (u, (k + 1) as usize)),
    ensures
        cut_ok(r, b, g, disc, low, parent, fin, endt, who, flags, why, time, stack),
{
    reveal(cut_ok);
    let n = b.len();
    let top = s0.len() - 1;
    assert(u < n && disc[u as int] != 0 && !fin[u as int]) by {
        assert(s0[top].0 == u);
    }
    assert forall|x: int| 0 <= x < n && #[trigger] disc[x] != 0 implies who.contains_key(disc[x] as int)
        && who[disc[x] as int] == x && low[x] <= disc[x] by {
    }
    assert forall|x: int| 0 <= x < n && #[trigger] fin[x] implies disc[x] <= endt[x] && endt[x] <= time && (x
        != g ==> low[parent[x] as int] <= low[x]) by {
        assert(x != u);
    }
    assert forall|x: int, y: int|
        0 <= x < n && fin[x] && passable(r, b, y) && #[trigger] adjacent(r, x, y) implies disc[y] != 0
            && disc[y] <= endt[x] && ((x != g && y == parent[x]) || low[x] <= disc[y]) by {
        assert(x != u);
    }
    assert forall|i: int, j: int, y: int|
        0 <= i < stack.len() && 0 <= j < stack[i].1 && passable(r, b, y) && #[trigger] step(
            r,
            stack[i].0 as int,
            y,
            j,
        ) implies (stack[i].0 != g && y == parent[stack[i].0 as int]) || low[stack[i].0 as int] <= disc[y] by {
        if i < top {
            assert(stack[i] == s0[i]);
            assert(s0[i].0 != u);
        } else if j < k {
            assert(step(r, s0[i].0 as int, y, j));
        } else {
            lemma_coord_of_step(r, u as int, y, j);
            lemma_coord_of_step(r, u as int, w as int, j);
        }
    }
    assert forall|v: int| 0 <= v < n && #[trigger] flags[v] && v != g implies why.contains_key(v) && 0 <= why[v]
        < n && fin[why[v]] && parent[why[v]] == v && low[why[v]] >= disc[v] && why[v] != g && disc[why[v]] != 0 by {
        assert(why[v] != u);
    }
}

/// Finishing the top frame's cell `u` at clock `time`, passing its low link
/// to its parent `p` (`-1` when `u` is the goal) and flagging `p` by the
/// cut-vertex rule keeps the order facts.
pub proof fn lemma_cut_retreat(
    r: int,
    b: Seq<bool>,
    g: int,
    disc: Seq<usize>,
    low0: Seq<usize>,
    parent: Seq<usize>,
    fin0: Seq<bool>,
    endt0: Seq<usize>,
    who: Map<int, int>,
    flags0: Seq<bool>,
    why0: Map<int, int>,
    time: int,
    s0: Seq<(usize, usize)>,
    low: Seq<usize>,
    fin: Seq<bool>,
    endt: Seq<usize>,
    flags: Seq<bool>,
    why: Map<int, int>,
    stack: Seq<(usize, usize)>,
    p: int,
)
    requires
        cut_ok(r, b, g, disc, low0, parent, fin0, endt0, who, flags0, why0, time, s0),
        search_facts(r, b, g, disc, low0, parent, fin0, flags0, time, s0),
        s0.last().1 >= 6,
        stack == s0.drop_last(),
        fin == fin0.update(s0.last().0 as int, true),
        endt == endt0.update(s0.last().0 as int, time as usize),
        0 <= time <= usize::MAX,
        p == -1 ==> s0.len() == 1 && s0.last().0 == g && low == low0 && flags == flags0 && why == why0,
        p != -1 ==> {
            let u = s0.last().0 as int;
            &&& s0.len() > 1
            &&& p == s0[s0.len() - 2].0
            &&& parent[u] == p
            &&& u != g
            &&& low == (if low0[u] < low0[p] { low0.update(p, low0[u]) } else { low0 })
            &&& flags == (if p != g && low0[u] >= disc[p] { flags0.update(p, true) } else { flags0 })
            &&& why == (if p != g && low0[u] >= disc[p] { why0.insert(p, u) } else { why0 })
        },
    ensures
        cut_ok(r, b, g, disc, low, parent, fin, endt, who, flags, why, time, stack),
{
    reveal(cut_ok);
    let n = b.len();
    let top = s0.len() - 1;
    let u = s0.last().0 as int;
    assert(0 <= u < n && disc[u] != 0 && !fin0[u]) by {
        assert(s0[top].0 == u);
    }
    assert(p != -1 ==> 0 <= p < n && disc[p] != 0 && !fin0[p] && p != u) by {
        if p != -1 {
            assert(s0[top - 1].0 == p);
        }
    }
    assert forall|x: int| 0 <= x < n && #[trigger] disc[x] != 0 implies who.contains_key(disc[x] as int)
        && who[disc[x] as int] == x && low[x] <= disc[x] by {
    }
    assert forall|x: int| 0 <= x < n && #[trigger] fin[x] implies disc[x] <= endt[x] && endt[x] <= time && (x
        != g ==> low[parent[x] as int] <= low[x]) by {
        if x != u {
            assert(fin0[x]);
            assert(x != p);
        }
    }
    assert forall|x: int, y: int|
        0 <= x < n && fin[x] && passable(r, b, y) && #[trigger] adjacent(r, x, y) implies disc[y] != 0
            && disc[y] <= endt[x] && ((x != g && y == parent[x]) || low[x] <= disc[y]) by {
        if x == u {
            let j = choose|j: int| 0 <= j < 6 && #[trigger] step(r, x, y, j);
            assert(step(r, s0[top].0 as int, y, j));
            assert(disc[y] != 0);
        } else {
            assert(fin0[x]);
            assert(x != p);
        }
    }
    assert forall|i: int, j: int, y: int|
        0 <= i < stack.len() && 0 <= j < stack[i].1 && passable(r, b, y) && #[trigger] step(
            r,
            stack[i].0 as int,
            y,
            j,
        ) implies (stack[i].0 != g && y == parent[stack[i].0 as int]) || low[stack[i].0 as int] <= disc[y] by {
        assert(stack[i] == s0[i]);
        assert(step(r, s0[i].0 as int, y, j));
    }
    assert forall|c: int, x: int|
        0 <= c < n && 0 <= x < n && fin[c] && fin[x] && #[trigger] within(disc, endt, c, x) implies endt[x] <= endt[c] by {
        if c == u {
            if x != u {
                assert(fin0[x]);
            }
        } else if x == u {
            assert(fin0[c]);
            assert(c != u);
            if disc[c] == disc[u] {
                assert(who[disc[c] as int] == c);
            }
            assert(endt0[c] < disc[u]);
        } else {
            assert(fin0[c] && fin0[x]);
            assert(within(disc, endt0, c, x));
        }
    }
    assert forall|c: int, y: int|
        0 <= c < n && 0 <= y < n && disc[c] != 0 && c != g && disc[y] != 0 && #[trigger] between(
            disc,
            parent,
            c,
            y,
        ) implies fin[y] && endt[y] < disc[c] by {
        assert(fin0[y] && endt0[y] < disc[c]);
    }
    assert forall|c: int, x: int|
        0 <= c < n && 0 <= x < n && disc[x] != 0 && x != g && #[trigger] opened_before(disc, fin, endt, c, x)
            implies disc[c] <= disc[parent[x] as int] by {
        assert(opened_before(disc, fin0, endt0, c, x));
    }
    assert forall|c: int, x: int|
        0 <= c < n && 0 <= x < n && fin[c] && disc[x] != 0 && !fin[x] && disc[c] < disc[x] implies #[trigger] endt[c]
            < #[trigger] disc[x] by {
        if c == u {
            assert(x != u);
            assert(disc[x] <= disc[s0.last().0 as int]);
        } else {
            assert(fin0[c]);
        }
    }
    assert forall|v: int| 0 <= v < n && #[trigger] flags[v] && v != g implies why.contains_key(v) && 0 <= why[v]
        < n && fin[why[v]] && parent[why[v]] == v && low[why[v]] >= disc[v] && why[v] != g && disc[why[v]] != 0 by {
        if p != -1 && v == p && low0[u] >= disc[p] {
            assert(why[v] == u);
        } else {
            assert(flags0[v]);
            assert(fin0[why0[v]]);
            assert(why0[v] != p);
        }
    }
}


/// What holds of every visited cell once the search is over: it is
/// passable and finished, and its parent (but the goal's) is visited and
/// discovered before it.
pub open spec fn finished_facts(
    r: int,
    b: Seq<bool>,
    g: int,
    disc: Seq<usize>,
    low: Seq<usize>,
    parent: Seq<usize>,
    fin: Seq<bool>,
) -> bool {
    let n = b.len();
    &&& radius_ok(r)
    &&& n == slot_count(r)
    &&& disc.len() == n
    &&& low.len() == n
    &&& parent.len() == n
    &&& fin.len() == n
    &&& 0 <= g < n
    &&& g == goal(r)
    &&& forall|v: int| 0 <= v < n && #[trigger] disc[v] != 0 ==> passable(r, b, v) && fin[v]
    &&& forall|v: int|
        0 <= v < n && disc[v] != 0 && v != g ==> #[trigger] parent[v] < n && disc[parent[v] as int] != 0
            && disc[parent[v] as int] < disc[v]
}

/// The low link of a cell bounds those of the cells discovered while it was
/// on the stack.
proof fn lemma_low_descends(
    r: int,
    b: Seq<bool>,
    g: int,
    disc: Seq<usize>,
    low: Seq<usize>,
    parent: Seq<usize>,
    fin: Seq<bool>,
    endt: Seq<usize>,
    who: Map<int, int>,
    flags: Seq<bool>,
    why: Map<int, int>,
    time: int,
    stack: Seq<(usize, usize)>,
    c: int,
    x: int,
)
    requires
        cut_ok(r, b, g, disc, low, parent, fin, endt, who, flags, why, time, stack),
        finished_facts(r, b, g, disc, low, parent, fin),
        0 <= c < b.len(),
        0 <= x < b.len(),
        disc[c] != 0,
        disc[x] != 0,
        within(disc, endt, c, x),
    ensures
        low[c] <= low[x],
    decreases disc[x],
{
    reveal(cut_ok);
    if x != c {
        if disc[x] == disc[c] {
            assert(who[disc[x] as int] == x);
            assert(who[disc[c] as int] == c);
        }
        assert(fin[c] && fin[x]);
        assert(x != g);
        assert(opened_before(disc, fin, endt, c, x));
        let q = parent[x] as int;
        assert(q < b.len() && disc[q] != 0 && disc[q] < disc[x]);
        assert(within(disc, endt, c, q));
        lemma_low_descends(r, b, g, disc, low, parent, fin, endt, who, flags, why, time, stack, c, q);
    }
}

/// A passable neighbour, other than `p`, of a cell discovered while `p`'s
/// flagging child `c` was on the stack was also discovered then.
proof fn lemma_within_closed(
    r: int,
    b: Seq<bool>,
    g: int,
    disc: Seq<usize>,
    low: Seq<usize>,
    parent: Seq<usize>,
    fin: Seq<bool>,
    endt: Seq<usize>,
    who: Map<int, int>,
    flags: Seq<bool>,
    why: Map<int, int>,
    time: int,
    stack: Seq<(usize, usize)>,
    p: int,
    c: int,
    x: int,
    y: int,
)
    requires
        cut_ok(r, b, g, disc, low, parent, fin, endt, who, flags, why, time, stack),
        finished_facts(r, b, g, disc, low, parent, fin),
        0 <= p < b.len(),
        0 <= c < b.len(),
        c != g,
        disc[c] != 0,
        parent[c] == p,
        low[c] >= disc[p] || p == g,
        0 <= x < b.len(),
        disc[x] != 0,
        within(disc, endt, c, x),
        passable(r, b, y),
        adjacent(r, x, y),
        y != p,
    ensures
        0 <= y < b.len(),
        disc[y] != 0,
        within(disc, endt, c, y),
{
    reveal(cut_ok);
    assert(fin[c] && fin[x]);
    assert(disc[y] != 0 && disc[y] <= endt[x]);
    assert(endt[x] <= endt[c]);
    if x != g && y == parent[x] {
        assert(x != c);
        if disc[x] == disc[c] {
            assert(who[disc[x] as int] == x);
        }
        assert(opened_before(disc, fin, endt, c, x));
    } else {
        assert(disc[y] >= disc[p]) by {
            if p != g {
                lemma_low_descends(r, b, g, disc, low, parent, fin, endt, who, flags, why, time, stack, c, x);
                assert(low[x] <= disc[y]);
            }
        }
        assert(disc[p] != 0);
        if disc[y] == disc[p] {
            assert(who[disc[y] as int] == y);
            assert(who[disc[p] as int] == p);
        }
        if disc[y] < disc[c] {
            assert(between(disc, parent, c, y));
            assert(fin[y] && endt[y] < disc[c]);
            lemma_adjacent_symmetric(r, x, y);
            assert(passable(r, b, x));
            assert(disc[x] <= endt[y]);
        }
    }
}

/// Every cell of a walk that avoids `p` and ends on `p`'s flagging child `c`
/// was discovered while `c` was on the stack.
proof fn lemma_walk_stays_within(
    r: int,
    b: Seq<bool>,
    g: int,
    disc: Seq<usize>,
    low: Seq<usize>,
    parent: Seq<usize>,
    fin: Seq<bool>,
    endt: Seq<usize>,
    who: Map<int, int>,
    flags: Seq<bool>,
    why: Map<int, int>,
    time: int,
    stack: Seq<(usize, usize)>,
    p: int,
    c: int,
    q: Seq<int>,
    i: int,
)
    requires
        cut_ok(r, b, g, disc, low, parent, fin, endt, who, flags, why, time, stack),
        finished_facts(r, b, g, disc, low, parent, fin),
        0 <= p < b.len(),
        0 <= c < b.len(),
        c != g,
        disc[c] != 0,
        parent[c] == p,
        low[c] >= disc[p] || p == g,
        is_walk(r, b.update(p, true), q),
        q.last() == c,
        0 <= i < q.len(),
    ensures
        0 <= q[i] < b.len(),
        disc[q[i]] != 0,
        within(disc, endt, c, q[i]),
    decreases q.len() - i,
{
    reveal(cut_ok);
    let b2 = b.update(p, true);
    if i == q.len() - 1 {
        assert(fin[c]);
    } else {
        lemma_walk_stays_within(r, b, g, disc, low, parent, fin, endt, who, flags, why, time, stack, p, c, q, i + 1);
        assert(adjacent(r, q[i], q[i + 1]));
        lemma_adjacent_symmetric(r, q[i], q[i + 1]);
        assert(passable(r, b2, q[i]));
        assert(q[i] != p);
        assert(passable(r, b, q[i]));
        lemma_within_closed(r, b, g, disc, low, parent, fin, endt, who, flags, why, time, stack, p, c, q[i + 1], q[i]);
    }
}

/// Once the search is over, occupying a flagged cell other than the goal
/// leaves its flagging child without a walk from the goal.
pub proof fn lemma_flagged_separates(
    r: int,
    b: Seq<bool>,
    g: int,
    disc: Seq<usize>,
    low: Seq<usize>,
    parent: Seq<usize>,
    fin: Seq<bool>,
    endt: Seq<usize>,
    who: Map<int, int>,
    flags: Seq<bool>,
    why: Map<int, int>,
    time: int,
    stack: Seq<(usize, usize)>,
    p: int,
)
    requires
        cut_ok(r, b, g, disc, low, parent, fin, endt, who, flags, why, time, stack),
        finished_facts(r, b, g, disc, low, parent, fin),
        flags.len() == b.len(),
        0 <= p < b.len(),
        p != g,
        flags[p],
    ensures
        why.contains_key(p),
        0 <= why[p] < b.len(),
        why[p] != p,
        disc[why[p]] != 0,
        !reaches(r, b.update(p, true), why[p]),
{
    reveal(cut_ok);
    let c = why[p];
    assert(parent[c] == p && c != g && disc[c] != 0);
    assert(disc[p] < disc[c]);
    if reaches(r, b.update(p, true), c) {
        let q = choose|q: Seq<int>| walk_to(r, b.update(p, true), q, c);
        lemma_walk_stays_within(r, b, g, disc, low, parent, fin, endt, who, flags, why, time, stack, p, c, q, 0);
        assert(q[0] == g);
        assert(disc[g] == 1);
        assert(disc[p] != 0);
    }
}


/// Once the search is over, two search children of the goal are left with
/// no walk between them when the goal is occupied.
pub proof fn lemma_goal_children_separated(
    r: int,
    b: Seq<bool>,
    g: int,
    disc: Seq<usize>,
    low: Seq<usize>,
    parent: Seq<usize>,
    fin: Seq<bool>,
    endt: Seq<usize>,
    who: Map<int, int>,
    flags: Seq<bool>,
    why: Map<int, int>,
    time: int,
    stack: Seq<(usize, usize)>,
    c1: int,
    c2: int,
)
    requires
        cut_ok(r, b, g, disc, low, parent, fin, endt, who, flags, why, time, stack),
        finished_facts(r, b, g, disc, low, parent, fin),
        0 <= c1 < b.len(),
        0 <= c2 < b.len(),
        c1 != g,
        c2 != g,
        disc[c1] != 0,
        disc[c2] != 0,
        parent[c1] == g,
        parent[c2] == g,
        disc[c1] < disc[c2],
    ensures
        forall|q: Seq<int>| !(#[trigger] is_walk(r, b.update(g, true), q) && q[0] == c2 && q.last() == c1),
{
    reveal(cut_ok);
    assert forall|q: Seq<int>| !(#[trigger] is_walk(r, b.update(g, true), q) && q[0] == c2 && q.last() == c1) by {
        if is_walk(r, b.update(g, true), q) && q[0] == c2 && q.last() == c1 {
            lemma_walk_stays_within(r, b, g, disc, low, parent, fin, endt, who, flags, why, time, stack, g, c1, q, 0);
            if disc[c1] == disc[g] {
                assert(who[disc[c1] as int] == c1);
                assert(who[disc[g] as int] == g);
            }
            assert(between(disc, parent, c2, c1));
        }
    }
}

} // verus!