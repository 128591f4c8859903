use vstd::prelude::*;
use crate::geometry::{adjacent, chebyshev, lemma_distance_consistent, step_cost};
use crate::grid::{lemma_index_in_range, GridView};

verus! {

/// A route is a non-empty sequence of positions that starts inside the grid and in which
/// every later position is adjacent to the one before it and carved. The first position
/// may be solid.
pub open spec fn is_route(g: GridView, r: Seq<(usize, usize)>) -> bool {
    &&& r.len() >= 1
    &&& g.in_bounds(r[0])
    &&& forall|i: int| 1 <= i < r.len() ==> adjacent(r[i - 1], #[trigger] r[i]) && g.is_open(r[i])
}

/// Total cost of the moves along a route.
pub open spec fn route_cost(r: Seq<(usize, usize)>) -> int
    decreases r.len(),
{
    if r.len() <= 1 {
        0
    } else {
        route_cost(r.drop_last()) + step_cost(r[r.len() - 2], r[r.len() - 1])
    }
}

/// `r` is a route from `a` to `b`.
pub open spec fn connects(g: GridView, r: Seq<(usize, usize)>, a: (usize, usize), b: (
    usize,
    usize,
)) -> bool {
    is_route(g, r) && r[0] == a && r[r.len() - 1] == b
}

/// Some route leads from `a` to `b`.
pub open spec fn reachable(g: GridView, a: (usize, usize), b: (usize, usize)) -> bool {
    exists|r: Seq<(usize, usize)>| connects(g, r, a, b)
}

/// Every position inside the grid reaches itself.
pub proof fn lemma_reachable_self(g: GridView, a: (usize, usize))
    requires
        g.in_bounds(a),
    ensures
        reachable(g, a, a),
{
    let r = seq![a];
    assert(connects(g, r, a, a));
}

/// A route stays a route when more cells are carved.
pub proof fn lemma_route_survives(g: GridView, h: GridView, r: Seq<(usize, usize)>)
    requires
        g.wf(),
        g.grows_to(h),
        is_route(g, r),
    ensures
        is_route(h, r),
{
    assert forall|i: int| 1 <= i < r.len() implies adjacent(r[i - 1], #[trigger] r[i])
        && h.is_open(r[i]) by {
        assert(g.is_open(r[i]));
        lemma_index_in_range(g, r[i]);
        let k = g.index(r[i]);
        assert(h.cells[k].open || h.cells[k] == g.cells[k]);
    }
}

/// Carving never disconnects: what was reachable stays reachable.
pub proof fn lemma_reachable_survives(g: GridView, h: GridView, a: (usize, usize), b: (
    usize,
    usize,
))
    requires
        g.wf(),
        g.grows_to(h),
        reachable(g, a, b),
    ensures
        reachable(h, a, b),
{
    let r = choose|r: Seq<(usize, usize)>| connects(g, r, a, b);
    lemma_route_survives(g, h, r);
    assert(connects(h, r, a, b));
}

/// Between carved cells reachability is symmetric.
pub proof fn lemma_reachable_symmetric(g: GridView, a: (usize, usize), b: (usize, usize))
    requires
        g.is_open(a),
        reachable(g, a, b),
    ensures
        reachable(g, b, a),
{
    let r = choose|r: Seq<(usize, usize)>| connects(g, r, a, b);
    let n = r.len() as int;
    let s = Seq::new(r.len(), |i: int| r[n - 1 - i]);
    assert(g.in_bounds(r[n - 1])) by {
        if n > 1 {
            assert(g.is_open(r[n - 1]));
        }
    }
    assert forall|i: int| 1 <= i < s.len() implies adjacent(s[i - 1], #[trigger] s[i])
        && g.is_open(s[i]) by {
        let j = n - 1 - i;
        assert(s[i] == r[j]);
        assert(s[i - 1] == r[j + 1]);
        assert(adjacent(r[j], r[j + 1]) && g.is_open(r[j + 1]));
        if j >= 1 {
            assert(g.is_open(r[j]));
        }
    }
    assert(connects(g, s, b, a));
}

/// Reachability is transitive.
pub proof fn lemma_reachable_transitive(g: GridView, a: (usize, usize), b: (usize, usize), c: (
    usize,
    usize,
))
    requires
        reachable(g, a, b),
        reachable(g, b, c),
    ensures
        reachable(g, a, c),
{
    let r = choose|r: Seq<(usize, usize)>| connects(g, r, a, b);
    let t = choose|t: Seq<(usize, usize)>| connects(g, t, b, c);
    let s = r + t.subrange(1, t.len() as int);
    let n = r.len() as int;
    assert forall|i: int| 1 <= i < s.len() implies adjacent(s[i - 1], #[trigger] s[i])
        && g.is_open(s[i]) by {
        if i < n {
            assert(s[i] == r[i] && s[i - 1] == r[i - 1]);
        } else {
            let j = i - n + 1;
            assert(s[i] == t[j]);
            assert(adjacent(t[j - 1], t[j]) && g.is_open(t[j]));
            if i == n {
                assert(s[i - 1] == r[n - 1]);
            } else {
                assert(s[i - 1] == t[j - 1]);
            }
        }
    }
    assert(s[0] == r[0]);
    if t.len() == 1 {
        assert(s =~= r);
    } else {
        assert(s[s.len() - 1] == t[t.len() - 1]);
    }
    assert(connects(g, s, a, c));
}

/// Appending one adjacent carved position to a route adds the cost of that move.
pub proof fn lemma_route_extend(g: GridView, r: Seq<(usize, usize)>, q: (usize, usize))
    requires
        is_route(g, r),
        adjacent(r[r.len() - 1], q),
        g.is_open(q),
    ensures
        is_route(g, r.push(q)),
        route_cost(r.push(q)) == route_cost(r) + step_cost(r[r.len() - 1], q),
{
    let s = r.push(q);
    assert(s.drop_last() =~= r);
    assert forall|i: int| 1 <= i < s.len() implies adjacent(s[i - 1], #[trigger] s[i])
        && g.is_open(s[i]) by {
        if i < r.len() {
            assert(s[i] == r[i] && s[i - 1] == r[i - 1]);
        }
    }
}

/// A route costs at least as much as the distance it covers.
pub proof fn lemma_cost_covers_distance(g: GridView, r: Seq<(usize, usize)>)
    requires
        is_route(g, r),
    ensures
        chebyshev(r[0], r[r.len() - 1]) <= route_cost(r),
    decreases r.len(),
{
    if r.len() > 1 {
        let p = r.drop_last();
        assert(is_route(g, p)) by {
            assert forall|i: int| 1 <= i < p.len() implies adjacent(p[i - 1], #[trigger] p[i])
                && g.is_open(p[i]) by {
                assert(p[i] == r[i] && p[i - 1] == r[i - 1]);
            }
        }
        lemma_cost_covers_distance(g, p);
        let n = r.len() as int;
        assert(adjacent(r[n - 2], r[n - 1]) && g.is_open(r[n - 1]));
        lemma_distance_consistent(r[n - 1], r[n - 2], r[0]);
        assert(step_cost(r[n - 1], r[n - 2]) == step_cost(r[n - 2], r[n - 1]));
    }
}

} // verus!
