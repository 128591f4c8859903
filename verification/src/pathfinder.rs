use vstd::prelude::*;
use std::collections::BTreeSet;
use std::collections::HashMap;
use crate::geometry::{
    adjacent, chebyshev, distance, lemma_distance_consistent, lemma_neighbor_adjacent,
    lemma_neighbors_complete, neighbor, neighbor_at, neighbor_number, same_point, step_cost,
};
use crate::grid::{lemma_index_in_range, lemma_index_injective, Grid, GridView};
use crate::route::{connects, is_route, lemma_route_extend, reachable, route_cost};

verus! {

broadcast use {
    vstd::std_specs::hash::group_hash_axioms,
    vstd::std_specs::btree::group_btree_axioms,
    vstd::laws_cmp::group_laws_cmp,
};

/// A route through carved cells together with the total cost of its moves.
pub struct Path {
    pub cells: Vec<(usize, usize)>,
    pub cost: usize,
}

/// What the search knows of a visited position: where it was reached from, the cost of the
/// best route found so far, and whether its neighbours have been examined.
#[derive(Clone, Copy)]
struct SearchNode {
    pred: (usize, usize),
    cost: usize,
    closed: bool,
}

/// An entry of the open set: the estimated total cost, then the position.
type Entry = (u128, usize, usize);

/// The key under which a position is filed in the table of visited positions.
spec fn slot(g: GridView, p: (usize, usize)) -> usize {
    g.index(p) as usize
}

/// `p` lies in the grid and the search has filed it.
spec fn visited(g: GridView, table: Map<usize, SearchNode>, p: (usize, usize)) -> bool {
    g.in_bounds(p) && table.contains_key(slot(g, p))
}

/// Cost so far plus remaining distance: the estimate by which the open set is ordered.
spec fn score(
    g: GridView,
    table: Map<usize, SearchNode>,
    p: (usize, usize),
    target: (usize, usize),
) -> int {
    table[slot(g, p)].cost + chebyshev(p, target)
}

/// Order of the open set: by estimate first, then by position.
spec fn precedes(a: Entry, b: Entry) -> bool {
    a.0 < b.0 || (a.0 == b.0 && (a.1 < b.1 || (a.1 == b.1 && a.2 <= b.2)))
}

/// The start costs nothing; every other visited position is carved and was reached by one
/// move from an examined position, at that position's cost plus the move's.
spec fn node_linked(
    g: GridView,
    start: (usize, usize),
    table: Map<usize, SearchNode>,
    p: (usize, usize),
) -> bool {
    let node = table[slot(g, p)];
    if p == start {
        node.cost == 0
    } else {
        &&& g.is_open(p)
        &&& g.in_bounds(node.pred)
        &&& adjacent(node.pred, p)
        &&& table.contains_key(slot(g, node.pred))
        &&& table[slot(g, node.pred)].closed
        &&& table[slot(g, start)].closed
        &&& node.cost == table[slot(g, node.pred)].cost + step_cost(node.pred, p)
    }
}

/// Every filed position is linked to the position it was reached from.
spec fn links_ok(g: GridView, start: (usize, usize), table: Map<usize, SearchNode>) -> bool {
    forall|p: (usize, usize)| #[trigger] visited(g, table, p) ==> node_linked(g, start, table, p)
}

/// The `k`-th neighbour of `p`, where it is carved, has been visited at no more than the
/// cost of `p` plus the move.
spec fn neighbor_settled(
    g: GridView,
    table: Map<usize, SearchNode>,
    p: (usize, usize),
    k: int,
) -> bool {
    match neighbor_at(p, k, g.width, g.height) {
        Some(q) => g.is_open(q) ==> table.contains_key(slot(g, q)) && table[slot(g, q)].cost
            <= table[slot(g, p)].cost + step_cost(p, q),
        None => true,
    }
}

/// How many neighbours of an examined position must be settled: all eight, but for the
/// position under examination, of which the first `done` are.
spec fn settled_upto(cur: Option<(usize, usize)>, done: int, p: (usize, usize)) -> int {
    if cur == Some(p) {
        done
    } else {
        8
    }
}

/// What holds of every filed position: its examined flag agrees with the set of examined
/// positions and its cost is bounded by their number; an examined one is not the target,
/// has its neighbours settled and no larger an estimate than any waiting entry; one not
/// yet examined waits in the open set under its current estimate.
spec fn closed_ok(
    g: GridView,
    target: (usize, usize),
    table: Map<usize, SearchNode>,
    open: Set<Entry>,
    closed: Set<int>,
    cur: Option<(usize, usize)>,
    done: int,
) -> bool {
    forall|p: (usize, usize)| #[trigger]
        visited(g, table, p) ==> {
            &&& table[slot(g, p)].closed == closed.contains(slot(g, p) as int)
            &&& table[slot(g, p)].cost <= 2 * closed.len()
            &&& table[slot(g, p)].closed ==> {
                &&& p != target
                &&& forall|k: int|
                    0 <= k < settled_upto(cur, done, p) ==> #[trigger] neighbor_settled(
                        g,
                        table,
                        p,
                        k,
                    )
                &&& forall|e: Entry| #[trigger] open.contains(e) ==> score(g, table, p, target) <= e.0
            }
            &&& !table[slot(g, p)].closed ==> open.contains(
                (score(g, table, p, target) as u128, p.0, p.1),
            )
        }
}

/// Every entry of the open set names a filed position of the grid, at an estimate no
/// smaller than its current one.
spec fn entries_ok(
    g: GridView,
    target: (usize, usize),
    table: Map<usize, SearchNode>,
    open: Set<Entry>,
) -> bool {
    forall|e: Entry| #[trigger]
        open.contains(e) ==> {
            &&& g.in_bounds((e.1, e.2))
            &&& table.contains_key(slot(g, (e.1, e.2)))
            &&& e.0 >= score(g, table, (e.1, e.2), target)
        }
}

/// What holds of the position under examination: it is examined, its cost leaves room for
/// one more move, and no examined position has a larger estimate.
spec fn current_ok(
    g: GridView,
    target: (usize, usize),
    table: Map<usize, SearchNode>,
    closed: Set<int>,
    cur: Option<(usize, usize)>,
) -> bool {
    match cur {
        Some(c) => {
            &&& g.in_bounds(c)
            &&& table.contains_key(slot(g, c))
            &&& table[slot(g, c)].closed
            &&& table[slot(g, c)].cost + 2 <= 2 * closed.len()
            &&& forall|p: (usize, usize)| #[trigger]
                visited(g, table, p) && table[slot(g, p)].closed ==> score(g, table, p, target)
                    <= score(g, table, c, target)
        },
        None => true,
    }
}

/// The state of a search between two operations on its collections.
spec fn search_inv(
    g: GridView,
    start: (usize, usize),
    target: (usize, usize),
    table: Map<usize, SearchNode>,
    open: Set<Entry>,
    closed: Set<int>,
    cur: Option<(usize, usize)>,
    done: int,
) -> bool {
    &&& g.wf()
    &&& g.in_bounds(start)
    &&& g.in_bounds(target)
    &&& table.contains_key(slot(g, start))
    &&& open.finite()
    &&& closed.finite()
    &&& closed.len() <= g.cells.len()
    &&& 0 <= done <= 8
    &&& forall|i: int|
        closed.contains(i) ==> 0 <= i < g.cells.len() && table.contains_key(i as usize)
    &&& links_ok(g, start, table)
    &&& closed_ok(g, target, table, open, closed, cur, done)
    &&& entries_ok(g, target, table, open)
    &&& current_ok(g, target, table, closed, cur)
}

/// Two positions of the grid filed under the same key are the same position.
proof fn lemma_slot_injective(g: GridView, p: (usize, usize), q: (usize, usize))
    requires
        g.wf(),
        g.in_bounds(p),
        g.in_bounds(q),
        slot(g, p) == slot(g, q),
    ensures
        p == q,
{
    lemma_index_in_range(g, p);
    lemma_index_in_range(g, q);
    lemma_index_injective(g, p, q);
}

/// Along any route from the start, either the `k`-th position has been examined at no more
/// than the cost of the route so far, or some visited position still waits in the open set
/// with an estimate no larger than that of the route at its `k`-th position.
proof fn lemma_frontier(
    g: GridView,
    start: (usize, usize),
    target: (usize, usize),
    table: Map<usize, SearchNode>,
    open: Set<Entry>,
    closed: Set<int>,
    r: Seq<(usize, usize)>,
    k: int,
) -> (y: (usize, usize))
    requires
        search_inv(g, start, target, table, open, closed, None, 0),
        is_route(g, r),
        r[0] == start,
        0 <= k < r.len(),
    ensures
        g.in_bounds(r[k]),
        ({
            ||| table.contains_key(slot(g, r[k])) && table[slot(g, r[k])].closed && table[slot(
                g,
                r[k],
            )].cost <= route_cost(r.take(k + 1))
            ||| g.in_bounds(y) && table.contains_key(slot(g, y)) && !table[slot(g, y)].closed
                && score(g, table, y, target) <= route_cost(r.take(k + 1)) + chebyshev(
                r[k],
                target,
            )
        }),
    decreases k,
{
    if k == 0 {
        assert(route_cost(r.take(1)) == 0);
        assert(visited(g, table, start));
        start
    } else {
        let y0 = lemma_frontier(g, start, target, table, open, closed, r, k - 1);
        let u = r[k - 1];
        let w = r[k];
        assert(adjacent(u, w) && g.is_open(w));
        assert(r.take(k + 1).drop_last() =~= r.take(k));
        assert(route_cost(r.take(k + 1)) == route_cost(r.take(k)) + step_cost(u, w));
        if table.contains_key(slot(g, u)) && table[slot(g, u)].closed && table[slot(g, u)].cost
            <= route_cost(r.take(k)) {
            let kk = neighbor_number(u, w);
            lemma_neighbors_complete(u, w, g.width, g.height);
            assert(visited(g, table, u));
            assert(settled_upto(None, 0, u) == 8);
            assert(neighbor_settled(g, table, u, kk));
            assert(visited(g, table, w));
            w
        } else {
            lemma_distance_consistent(u, w, target);
            y0
        }
    }
}

/// When the least entry of the open set is the target's, no route to the target is cheaper
/// than the cost under which the target is filed.
proof fn lemma_found_is_cheapest(
    g: GridView,
    start: (usize, usize),
    target: (usize, usize),
    table: Map<usize, SearchNode>,
    open: Set<Entry>,
    closed: Set<int>,
    e: Entry,
    r: Seq<(usize, usize)>,
)
    requires
        search_inv(g, start, target, table, open, closed, None, 0),
        open.contains(e),
        forall|j: Entry| open.contains(j) ==> precedes(e, j),
        (e.1, e.2) == target,
        connects(g, r, start, target),
    ensures
        table[slot(g, target)].cost <= route_cost(r),
{
    let k = r.len() - 1;
    let y = lemma_frontier(g, start, target, table, open, closed, r, k);
    assert(r.take(k + 1) =~= r);
    assert(visited(g, table, r[k]));
    assert(visited(g, table, y));
    let ey: Entry = (score(g, table, y, target) as u128, y.0, y.1);
    assert(open.contains(ey));
    assert(precedes(e, ey));
}

/// When the open set is empty, no route leads from the start to the target.
proof fn lemma_exhausted_means_unreachable(
    g: GridView,
    start: (usize, usize),
    target: (usize, usize),
    table: Map<usize, SearchNode>,
    open: Set<Entry>,
    closed: Set<int>,
)
    requires
        search_inv(g, start, target, table, open, closed, None, 0),
        forall|j: Entry| !open.contains(j),
    ensures
        !reachable(g, start, target),
{
    if reachable(g, start, target) {
        let r = choose|r: Seq<(usize, usize)>| connects(g, r, start, target);
        let k = r.len() - 1;
        let y = lemma_frontier(g, start, target, table, open, closed, r, k);
        if table.contains_key(slot(g, r[k])) && table[slot(g, r[k])].closed {
            assert(visited(g, table, r[k]));
        } else {
            assert(visited(g, table, y));
            let ey: Entry = (score(g, table, y, target) as u128, y.0, y.1);
            assert(open.contains(ey));
        }
    }
}

/// The entry under which a visited position waits in the open set.
spec fn entry_of(
    g: GridView,
    table: Map<usize, SearchNode>,
    p: (usize, usize),
    target: (usize, usize),
) -> Entry {
    (score(g, table, p, target) as u128, p.0, p.1)
}

/// A search that has filed only its start, at cost 0, is in a valid state.
proof fn lemma_search_begins(
    g: GridView,
    start: (usize, usize),
    target: (usize, usize),
    table: Map<usize, SearchNode>,
    open: Set<Entry>,
)
    requires
        g.wf(),
        g.in_bounds(start),
        g.in_bounds(target),
        table == Map::<usize, SearchNode>::empty().insert(
            slot(g, start),
            SearchNode { pred: start, cost: 0, closed: false },
        ),
        open == Set::<Entry>::empty().insert((chebyshev(start, target) as u128, start.0, start.1)),
    ensures
        search_inv(g, start, target, table, open, Set::<int>::empty(), None, 0),
{
    let closed = Set::<int>::empty();
    assert forall|p: (usize, usize)| #[trigger] visited(g, table, p) implies p == start by {
        lemma_slot_injective(g, p, start);
    }
    assert(links_ok(g, start, table));
    assert(closed_ok(g, target, table, open, closed, None, 0));
    assert(entries_ok(g, target, table, open));
}

/// Dropping an entry whose position has already been examined keeps the state valid.
proof fn lemma_stale_entry_dropped(
    g: GridView,
    start: (usize, usize),
    target: (usize, usize),
    table: Map<usize, SearchNode>,
    open: Set<Entry>,
    closed: Set<int>,
    e: Entry,
)
    requires
        search_inv(g, start, target, table, open, closed, None, 0),
        open.contains(e),
        table[slot(g, (e.1, e.2))].closed,
    ensures
        search_inv(g, start, target, table, open.remove(e), closed, None, 0),
        open.remove(e).len() < open.len(),
{
    let open2 = open.remove(e);
    assert forall|p: (usize, usize)| #[trigger] visited(g, table, p) implies {
        &&& table[slot(g, p)].closed == closed.contains(slot(g, p) as int)
        &&& table[slot(g, p)].cost <= 2 * closed.len()
        &&& table[slot(g, p)].closed ==> {
            &&& p != target
            &&& forall|k: int|
                0 <= k < settled_upto(None, 0, p) ==> #[trigger] neighbor_settled(g, table, p, k)
            &&& forall|j: Entry| #[trigger] open2.contains(j) ==> score(g, table, p, target) <= j.0
        }
        &&& !table[slot(g, p)].closed ==> open2.contains(entry_of(g, table, p, target))
    } by {
        if !table[slot(g, p)].closed {
            assert(open.contains(entry_of(g, table, p, target)));
        }
    }
    assert(closed_ok(g, target, table, open2, closed, None, 0));
    assert(entries_ok(g, target, table, open2));
}

/// The node of `p` with its neighbours marked as under examination.
spec fn closed_node(table: Map<usize, SearchNode>, i: usize) -> SearchNode {
    SearchNode { pred: table[i].pred, cost: table[i].cost, closed: true }
}

/// Taking the least entry out of the open set and marking its position, which was not yet
/// examined and is not the target, as under examination keeps the state valid.
proof fn lemma_position_closed(
    g: GridView,
    start: (usize, usize),
    target: (usize, usize),
    table: Map<usize, SearchNode>,
    open: Set<Entry>,
    closed: Set<int>,
    e: Entry,
)
    requires
        search_inv(g, start, target, table, open, closed, None, 0),
        open.contains(e),
        forall|j: Entry| open.contains(j) ==> precedes(e, j),
        !table[slot(g, (e.1, e.2))].closed,
        (e.1, e.2) != target,
    ensures
        search_inv(
            g,
            start,
            target,
            table.insert(slot(g, (e.1, e.2)), closed_node(table, slot(g, (e.1, e.2)))),
            open.remove(e),
            closed.insert(slot(g, (e.1, e.2)) as int),
            Some((e.1, e.2)),
            0,
        ),
        closed.insert(slot(g, (e.1, e.2)) as int).len() == closed.len() + 1,
{
    let c = (e.1, e.2);
    let ci = slot(g, c);
    let table2 = table.insert(ci, closed_node(table, ci));
    let open2 = open.remove(e);
    let closed2 = closed.insert(ci as int);
    let cur = Some(c);
    assert(visited(g, table, c));
    lemma_index_in_range(g, c);
    assert(!closed.contains(ci as int));
    assert(open.contains(entry_of(g, table, c, target)));
    assert(precedes(e, entry_of(g, table, c, target)));
    assert(e.0 == score(g, table, c, target));
    assert(closed2.len() <= g.cells.len()) by {
        let full = vstd::set_lib::set_int_range(0, g.cells.len() as int);
        vstd::set_lib::lemma_int_range(0, g.cells.len() as int);
        assert(closed2.subset_of(full));
        vstd::set_lib::lemma_len_subset(closed2, full);
    }
    assert forall|p: (usize, usize)| #[trigger] visited(g, table2, p) implies visited(
        g,
        table,
        p,
    ) && (p != c ==> slot(g, p) != ci && table2[slot(g, p)] == table[slot(g, p)]) by {
        if p != c && slot(g, p) == ci {
            lemma_slot_injective(g, p, c);
        }
    }
    assert forall|p: (usize, usize)| #[trigger] visited(g, table2, p) implies node_linked(
        g,
        start,
        table2,
        p,
    ) by {
        assert(visited(g, table, p));
        assert(node_linked(g, start, table, p));
        if p != start {
            let q = table[slot(g, p)].pred;
            assert(table2[slot(g, q)].closed);
            assert(table2[slot(g, q)].cost == table[slot(g, q)].cost);
            assert(table2[slot(g, start)].closed);
        }
    }
    assert forall|p: (usize, usize)| #[trigger] visited(g, table2, p) implies {
        &&& table2[slot(g, p)].closed == closed2.contains(slot(g, p) as int)
        &&& table2[slot(g, p)].cost <= 2 * closed2.len()
        &&& table2[slot(g, p)].closed ==> {
            &&& p != target
            &&& forall|k: int|
                0 <= k < settled_upto(cur, 0, p) ==> #[trigger] neighbor_settled(g, table2, p, k)
            &&& forall|j: Entry|
                #[trigger] open2.contains(j) ==> score(g, table2, p, target) <= j.0
        }
        &&& !table2[slot(g, p)].closed ==> open2.contains(entry_of(g, table2, p, target))
    } by {
        assert(visited(g, table, p));
        if p != c {
            if table[slot(g, p)].closed {
                assert forall|k: int| 0 <= k < 8 implies #[trigger] neighbor_settled(
                    g,
                    table2,
                    p,
                    k,
                ) by {
                    assert(neighbor_settled(g, table, p, k));
                }
            } else {
                assert(open.contains(entry_of(g, table, p, target)));
            }
        } else {
            assert forall|j: Entry| #[trigger] open2.contains(j) implies score(
                g,
                table2,
                p,
                target,
            ) <= j.0 by {
                assert(precedes(e, j));
            }
        }
    }
    assert(closed_ok(g, target, table2, open2, closed2, cur, 0));
    assert forall|j: Entry| #[trigger] open2.contains(j) implies {
        &&& g.in_bounds((j.1, j.2))
        &&& table2.contains_key(slot(g, (j.1, j.2)))
        &&& j.0 >= score(g, table2, (j.1, j.2), target)
    } by {
        assert(open.contains(j));
    }
    assert(entries_ok(g, target, table2, open2));
    assert forall|p: (usize, usize)| #[trigger]
        visited(g, table2, p) && table2[slot(g, p)].closed implies score(g, table2, p, target)
        <= score(g, table2, c, target) by {
        assert(visited(g, table, p));
        if p != c {
            assert(open.contains(e));
        }
    }
    assert(current_ok(g, target, table2, closed2, cur));
    assert(links_ok(g, start, table2));
}

/// Filing a carved neighbour of the position under examination at a cost that is new or
/// strictly better, and adding its entry to the open set, keeps the state valid.
proof fn lemma_neighbor_relaxed(
    g: GridView,
    start: (usize, usize),
    target: (usize, usize),
    table: Map<usize, SearchNode>,
    open: Set<Entry>,
    closed: Set<int>,
    c: (usize, usize),
    k: int,
    q: (usize, usize),
)
    requires
        search_inv(g, start, target, table, open, closed, Some(c), k),
        0 <= k < 8,
        neighbor_at(c, k, g.width, g.height) == Some(q),
        g.is_open(q),
        !table.contains_key(slot(g, q)) || (!table[slot(g, q)].closed && table[slot(g, c)].cost
            + step_cost(c, q) < table[slot(g, q)].cost),
    ensures
        table[slot(g, c)].cost + step_cost(c, q) + chebyshev(q, target) <= u128::MAX,
        search_inv(
            g,
            start,
            target,
            table.insert(
                slot(g, q),
                SearchNode {
                    pred: c,
                    cost: (table[slot(g, c)].cost + step_cost(c, q)) as usize,
                    closed: false,
                },
            ),
            open.insert(
                (
                    (table[slot(g, c)].cost + step_cost(c, q) + chebyshev(q, target)) as u128,
                    q.0,
                    q.1,
                ),
            ),
            closed,
            Some(c),
            k + 1,
        ),
{
    let qi = slot(g, q);
    let nc = table[slot(g, c)].cost + step_cost(c, q);
    let node = SearchNode { pred: c, cost: nc as usize, closed: false };
    let ne: Entry = ((nc + chebyshev(q, target)) as u128, q.0, q.1);
    let table2 = table.insert(qi, node);
    let open2 = open.insert(ne);
    let cur = Some(c);
    lemma_neighbor_adjacent(c, k, g.width, g.height);
    lemma_distance_consistent(c, q, target);
    lemma_index_in_range(g, q);
    assert(visited(g, table, c));
    assert(c != q);
    assert(slot(g, c) != qi) by {
        if slot(g, c) == qi {
            lemma_slot_injective(g, c, q);
        }
    }
    assert(!closed.contains(qi as int)) by {
        if table.contains_key(qi) {
            assert(visited(g, table, q));
        }
    }
    assert(q != start) by {
        if q == start {
            assert(visited(g, table, q));
            assert(node_linked(g, start, table, c));
        }
    }
    assert(table[slot(g, start)].closed) by {
        assert(node_linked(g, start, table, c));
    }
    assert forall|p: (usize, usize)| #[trigger] visited(g, table2, p) implies (p == q || (visited(
        g,
        table,
        p,
    ) && slot(g, p) != qi && table2[slot(g, p)] == table[slot(g, p)])) by {
        if p != q && slot(g, p) == qi {
            lemma_slot_injective(g, p, q);
        }
    }
    assert forall|p: (usize, usize)| #[trigger] visited(g, table2, p) implies node_linked(
        g,
        start,
        table2,
        p,
    ) by {
        if p != q {
            assert(visited(g, table, p));
            assert(node_linked(g, start, table, p));
            if p != start {
                let pp = table[slot(g, p)].pred;
                assert(slot(g, pp) != qi);
            }
        }
    }
    assert(links_ok(g, start, table2));
    assert forall|p: (usize, usize)| #[trigger] visited(g, table2, p) implies {
        &&& table2[slot(g, p)].closed == closed.contains(slot(g, p) as int)
        &&& table2[slot(g, p)].cost <= 2 * closed.len()
        &&& table2[slot(g, p)].closed ==> {
            &&& p != target
            &&& forall|kk: int|
                0 <= kk < settled_upto(cur, k + 1, p) ==> #[trigger] neighbor_settled(
                    g,
                    table2,
                    p,
                    kk,
                )
            &&& forall|j: Entry|
                #[trigger] open2.contains(j) ==> score(g, table2, p, target) <= j.0
        }
        &&& !table2[slot(g, p)].closed ==> open2.contains(entry_of(g, table2, p, target))
    } by {
        if p != q {
            assert(visited(g, table, p));
            if table[slot(g, p)].closed {
                assert forall|kk: int|
                    0 <= kk < settled_upto(cur, k + 1, p) implies #[trigger] neighbor_settled(
                    g,
                    table2,
                    p,
                    kk,
                ) by {
                    if p == c && kk == k {
                    } else {
                        assert(neighbor_settled(g, table, p, kk));
                    }
                }
                assert forall|j: Entry| #[trigger] open2.contains(j) implies score(
                    g,
                    table2,
                    p,
                    target,
                ) <= j.0 by {
                    if j != ne {
                        assert(open.contains(j));
                    }
                }
            } else {
                assert(open.contains(entry_of(g, table, p, target)));
            }
        }
    }
    assert(closed_ok(g, target, table2, open2, closed, cur, k + 1));
    assert forall|j: Entry| #[trigger] open2.contains(j) implies {
        &&& g.in_bounds((j.1, j.2))
        &&& table2.contains_key(slot(g, (j.1, j.2)))
        &&& j.0 >= score(g, table2, (j.1, j.2), target)
    } by {
        if j != ne {
            assert(open.contains(j));
            let jp = (j.1, j.2);
            if jp != q {
                assert(visited(g, table2, jp));
            }
        }
    }
    assert(entries_ok(g, target, table2, open2));
    assert forall|p: (usize, usize)| #[trigger]
        visited(g, table2, p) && table2[slot(g, p)].closed implies score(g, table2, p, target)
        <= score(g, table2, c, target) by {
        assert(visited(g, table, p));
    }
    assert(current_ok(g, target, table2, closed, cur));
}

/// A neighbour that lies outside the grid, is solid, has been examined, or is already filed
/// at no more than the cost through the position under examination needs no update.
proof fn lemma_neighbor_skipped(
    g: GridView,
    start: (usize, usize),
    target: (usize, usize),
    table: Map<usize, SearchNode>,
    open: Set<Entry>,
    closed: Set<int>,
    c: (usize, usize),
    k: int,
)
    requires
        search_inv(g, start, target, table, open, closed, Some(c), k),
        0 <= k < 8,
        match neighbor_at(c, k, g.width, g.height) {
            Some(q) => !g.is_open(q) || (table.contains_key(slot(g, q)) && (table[slot(
                g,
                q,
            )].closed || table[slot(g, q)].cost <= table[slot(g, c)].cost + step_cost(c, q))),
            None => true,
        },
    ensures
        search_inv(g, start, target, table, open, closed, Some(c), k + 1),
{
    let cur = Some(c);
    assert(neighbor_settled(g, table, c, k)) by {
        match neighbor_at(c, k, g.width, g.height) {
            Some(q) => {
                if g.is_open(q) && table[slot(g, q)].closed {
                    lemma_neighbor_adjacent(c, k, g.width, g.height);
                    lemma_distance_consistent(c, q, target);
                    assert(visited(g, table, q));
                }
            },
            None => {},
        }
    }
    assert forall|p: (usize, usize)| #[trigger] visited(g, table, p) implies {
        &&& table[slot(g, p)].closed == closed.contains(slot(g, p) as int)
        &&& table[slot(g, p)].cost <= 2 * closed.len()
        &&& table[slot(g, p)].closed ==> {
            &&& p != target
            &&& forall|kk: int|
                0 <= kk < settled_upto(cur, k + 1, p) ==> #[trigger] neighbor_settled(
                    g,
                    table,
                    p,
                    kk,
                )
            &&& forall|j: Entry| #[trigger] open.contains(j) ==> score(g, table, p, target) <= j.0
        }
        &&& !table[slot(g, p)].closed ==> open.contains(entry_of(g, table, p, target))
    } by {
        if table[slot(g, p)].closed {
            assert forall|kk: int|
                0 <= kk < settled_upto(cur, k + 1, p) implies #[trigger] neighbor_settled(
                g,
                table,
                p,
                kk,
            ) by {
                if p == c && kk == k {
                } else {
                    assert(0 <= kk < settled_upto(cur, k, p));
                }
            }
        }
    }
    assert(closed_ok(g, target, table, open, closed, cur, k + 1));
}

/// Once all eight neighbours of the position under examination are settled, the search is
/// between examinations again.
proof fn lemma_examination_done(
    g: GridView,
    start: (usize, usize),
    target: (usize, usize),
    table: Map<usize, SearchNode>,
    open: Set<Entry>,
    closed: Set<int>,
    c: (usize, usize),
)
    requires
        search_inv(g, start, target, table, open, closed, Some(c), 8),
    ensures
        search_inv(g, start, target, table, open, closed, None, 0),
{
    let cur = Some(c);
    assert forall|p: (usize, usize)| #[trigger] visited(g, table, p) implies {
        &&& table[slot(g, p)].closed == closed.contains(slot(g, p) as int)
        &&& table[slot(g, p)].cost <= 2 * closed.len()
        &&& table[slot(g, p)].closed ==> {
            &&& p != target
            &&& forall|kk: int|
                0 <= kk < settled_upto(None, 0, p) ==> #[trigger] neighbor_settled(
                    g,
                    table,
                    p,
                    kk,
                )
            &&& forall|j: Entry| #[trigger] open.contains(j) ==> score(g, table, p, target) <= j.0
        }
        &&& !table[slot(g, p)].closed ==> open.contains(entry_of(g, table, p, target))
    } by {
        if table[slot(g, p)].closed {
            assert forall|kk: int|
                0 <= kk < settled_upto(None, 0, p) implies #[trigger] neighbor_settled(
                g,
                table,
                p,
                kk,
            ) by {
                assert(0 <= kk < settled_upto(cur, 8, p));
            }
        }
    }
    assert(closed_ok(g, target, table, open, closed, None, 0));
}

/// The table and the open set after the `k`-th neighbour of `at` was looked at: a carved
/// neighbour that is new, or not yet examined and cheaper to reach through `at`, is filed
/// with `at` as predecessor and queued under its new estimate.
spec fn relaxed_one(
    g: GridView,
    target: (usize, usize),
    table: Map<usize, SearchNode>,
    open: Set<Entry>,
    at: (usize, usize),
    k: int,
) -> (Map<usize, SearchNode>, Set<Entry>) {
    match neighbor_at(at, k, g.width, g.height) {
        Some(q) => {
            let cost = table[slot(g, at)].cost + step_cost(at, q);
            if g.is_open(q) && (!table.contains_key(slot(g, q)) || (!table[slot(g, q)].closed
                && cost < table[slot(g, q)].cost)) {
                (
                    table.insert(
                        slot(g, q),
                        SearchNode { pred: at, cost: cost as usize, closed: false },
                    ),
                    open.insert(((cost + chebyshev(q, target)) as u128, q.0, q.1)),
                )
            } else {
                (table, open)
            }
        },
        None => (table, open),
    }
}

/// The table and the open set after the neighbours of `at` from the `k`-th on were looked
/// at, in order.
spec fn relaxed(
    g: GridView,
    target: (usize, usize),
    table: Map<usize, SearchNode>,
    open: Set<Entry>,
    at: (usize, usize),
    k: int,
) -> (Map<usize, SearchNode>, Set<Entry>)
    decreases 8 - k,
{
    if k >= 8 {
        (table, open)
    } else {
        let next = relaxed_one(g, target, table, open, at, k);
        relaxed(g, target, next.0, next.1, at, k + 1)
    }
}

/// `e` is the entry of the open set that comes first.
spec fn is_least(open: Set<Entry>, e: Entry) -> bool {
    open.contains(e) && forall|j: Entry| open.contains(j) ==> precedes(e, j)
}

/// The entry of the open set that comes first.
spec fn least(open: Set<Entry>) -> Entry {
    choose|e: Entry| is_least(open, e)
}

/// Only one entry of an open set comes first.
proof fn lemma_least_is_unique(open: Set<Entry>, e: Entry)
    requires
        is_least(open, e),
    ensures
        least(open) == e,
{
    let other = least(open);
    assert(precedes(e, other));
    assert(precedes(other, e));
}

/// The table with which a search ends that takes the entries of the open set one by one,
/// least first: an entry of an examined position is dropped, the target's entry ends the
/// search, and any other entry has its position examined. `None` where the open set runs
/// empty, or the `fuel` runs out, before the target's entry comes up.
spec fn searched(
    g: GridView,
    target: (usize, usize),
    table: Map<usize, SearchNode>,
    open: Set<Entry>,
    fuel: nat,
) -> Option<Map<usize, SearchNode>>
    decreases fuel,
{
    if fuel == 0 || !(exists|e: Entry| is_least(open, e)) {
        None
    } else {
        let e = least(open);
        let at = (e.1, e.2);
        let i = slot(g, at);
        if table[i].closed {
            searched(g, target, table, open.remove(e), (fuel - 1) as nat)
        } else if at == target {
            Some(table)
        } else {
            let next = relaxed(
                g,
                target,
                table.insert(i, closed_node(table, i)),
                open.remove(e),
                at,
                0,
            );
            searched(g, target, next.0, next.1, (fuel - 1) as nat)
        }
    }
}

/// The positions from the start to `at` along the recorded predecessors, as far back as
/// `fuel` steps reach.
spec fn traced(
    g: GridView,
    start: (usize, usize),
    table: Map<usize, SearchNode>,
    at: (usize, usize),
    fuel: nat,
) -> Seq<(usize, usize)>
    decreases fuel,
{
    if at == start || fuel == 0 {
        seq![at]
    } else {
        traced(g, start, table, table[slot(g, at)].pred, (fuel - 1) as nat).push(at)
    }
}

/// The route that the search settles on, if it finds one. Positions are examined in the
/// order of their estimate, which is the cost so far plus the distance left, and among
/// equal estimates in the order of their coordinates; a position keeps the predecessor
/// through which it was first reached at its final cost.
pub closed spec fn found_route(g: GridView, start: (usize, usize), target: (usize, usize)) -> Option<
    Seq<(usize, usize)>,
> {
    if !g.in_bounds(start) || !g.in_bounds(target) {
        None
    } else {
        let table = Map::<usize, SearchNode>::empty().insert(
            slot(g, start),
            SearchNode { pred: start, cost: 0, closed: false },
        );
        let open = Set::<Entry>::empty().insert(
            (chebyshev(start, target) as u128, start.0, start.1),
        );
        match searched(g, target, table, open, 8 * g.cells.len() + 1) {
            Some(end) => Some(traced(g, start, end, target, end[slot(g, target)].cost as nat)),
            None => None,
        }
    }
}

/// `BTreeSet::pop_first`: takes the least element out of the set and returns it, or returns
/// `None` and leaves the set as it is when it is empty. Tuples are ordered position by
/// position, so the least element is the one that `precedes` every other.
#[verifier::external_body]
fn take_first(open: &mut BTreeSet<Entry>) -> (r: Option<Entry>)
    ensures
        match r {
            Some(e) => {
                &&& old(open)@.contains(e)
                &&& final(open)@ == old(open)@.remove(e)
                &&& forall|j: Entry| old(open)@.contains(j) ==> precedes(e, j)
            },
            None => {
                &&& final(open)@ == old(open)@
                &&& forall|j: Entry| !old(open)@.contains(j)
            },
        },
{
    open.pop_first()
}

/// The `j`-th position of a chain of predecessors is filed, at a cost that has gone down
/// by at least one per link, and is the recorded predecessor of the position before it,
/// which is not the start.
spec fn chained_at(
    g: GridView,
    start: (usize, usize),
    table: Map<usize, SearchNode>,
    chain: Seq<(usize, usize)>,
    j: int,
) -> bool {
    &&& visited(g, table, chain[j])
    &&& table[slot(g, chain[j])].cost + j <= table[slot(g, chain[0])].cost
    &&& j >= 1 ==> chain[j - 1] != start && chain[j] == table[slot(g, chain[j - 1])].pred
}

/// Follows the recorded predecessors from the target back to the start and returns the
/// route in walking order, with the cost under which the target is filed.
fn trace(g: &Grid, table: &HashMap<usize, SearchNode>, start: (usize, usize), target: (
    usize,
    usize,
)) -> (path: Path)
    requires
        g@.wf(),
        g@.in_bounds(start),
        g@.in_bounds(target),
        links_ok(g@, start, table@),
        table@.contains_key(slot(g@, start)),
        table@.contains_key(slot(g@, target)),
    ensures
        connects(g@, path.cells@, start, target),
        path.cost == route_cost(path.cells@),
        path.cost == table@[slot(g@, target)].cost,
        path.cells@ == traced(g@, start, table@, target, table@[slot(g@, target)].cost as nat),
{
    let mut chain: Vec<(usize, usize)> = Vec::new();
    let mut at = target;
    chain.push(at);
    proof {
        assert(visited(g@, table@, at));
        assert(chained_at(g@, start, table@, chain@, 0));
    }
    while !same_point(at, start)
        invariant
            g@.wf(),
            g@.in_bounds(start),
            links_ok(g@, start, table@),
            chain@.len() >= 1,
            chain@[0] == target,
            chain@[chain@.len() - 1] == at,
            visited(g@, table@, at),
            forall|j: int|
                0 <= j < chain@.len() ==> #[trigger] chained_at(g@, start, table@, chain@, j),
        decreases table@[slot(g@, at)].cost,
    {
        let i = g.index_of(at);
        let found = table.get(&i);
        let next = match found {
            Some(node) => node.pred,
            None => start,
        };
        proof {
            assert(node_linked(g@, start, table@, at));
            assert(visited(g@, table@, next));
        }
        let ghost before = chain@;
        at = next;
        chain.push(at);
        proof {
            assert forall|j: int| 0 <= j < chain@.len() implies #[trigger] chained_at(
                g@,
                start,
                table@,
                chain@,
                j,
            ) by {
                if j < before.len() {
                    assert(chained_at(g@, start, table@, before, j));
                } else {
                    assert(chained_at(g@, start, table@, before, j - 1));
                }
            }
        }
    }
    let cost: usize = match table.get(&g.index_of(target)) {
        Some(node) => node.cost,
        None => 0,
    };
    let ghost fuel = table@[slot(g@, target)].cost as nat;
    let mut cells: Vec<(usize, usize)> = Vec::new();
    let mut j: usize = chain.len() - 1;
    cells.push(chain[j]);
    proof {
        assert(visited(g@, table@, start));
        assert(node_linked(g@, start, table@, start));
        assert(cells@ =~= seq![start]);
        assert(chained_at(g@, start, table@, chain@, j as int));
    }
    while j > 0
        invariant
            g@.wf(),
            g@.in_bounds(start),
            links_ok(g@, start, table@),
            j < chain@.len(),
            chain@[0] == target,
            fuel == table@[slot(g@, target)].cost,
            j <= fuel,
            cells@ == traced(g@, start, table@, chain@[j as int], (fuel - j) as nat),
            forall|m: int|
                0 <= m < chain@.len() ==> #[trigger] chained_at(g@, start, table@, chain@, m),
            is_route(g@, cells@),
            cells@[0] == start,
            cells@[cells@.len() - 1] == chain@[j as int],
            route_cost(cells@) == table@[slot(g@, chain@[j as int])].cost,
        decreases j,
    {
        proof {
            assert(chained_at(g@, start, table@, chain@, j as int));
            assert(chained_at(g@, start, table@, chain@, j - 1));
        }
        j = j - 1;
        let q = chain[j];
        proof {
            assert(node_linked(g@, start, table@, q));
            lemma_route_extend(g@, cells@, q);
        }
        cells.push(q);
    }
    Path { cells, cost }
}

/// Looks at the eight neighbours of `at`, which has just been marked as examined, and files
/// and queues each one that is carved and new or cheaper to reach through `at`.
fn expand(
    g: &Grid,
    table: &mut HashMap<usize, SearchNode>,
    open: &mut BTreeSet<Entry>,
    at: (usize, usize),
    target: (usize, usize),
    Ghost(start): Ghost<(usize, usize)>,
    Ghost(closed): Ghost<Set<int>>,
)
    requires
        search_inv(g@, start, target, old(table)@, old(open)@, closed, Some(at), 0),
    ensures
        search_inv(g@, start, target, final(table)@, final(open)@, closed, None, 0),
        (final(table)@, final(open)@) == relaxed(g@, target, old(table)@, old(open)@, at, 0),
        final(open)@.len() <= old(open)@.len() + 8,
{
    let width = g.width();
    let height = g.height();
    let here = g.index_of(at);
    let cost_here: usize = match table.get(&here) {
        Some(node) => node.cost,
        None => 0,
    };
    let mut k: usize = 0;
    while k < 8
        invariant
            width == g@.width,
            height == g@.height,
            0 <= k <= 8,
            here == slot(g@, at),
            cost_here == table@[here].cost,
            search_inv(g@, start, target, table@, open@, closed, Some(at), k as int),
            relaxed(g@, target, old(table)@, old(open)@, at, 0) == relaxed(
                g@,
                target,
                table@,
                open@,
                at,
                k as int,
            ),
            open@.len() <= old(open)@.len() + k,
        decreases 8 - k,
    {
        let ghost step = relaxed_one(g@, target, table@, open@, at, k as int);
        proof {
            lemma_index_in_range(g@, at);
            assert(visited(g@, table@, at));
        }
        let mut better = false;
        let mut q = at;
        let mut cost: usize = 0;
        match neighbor(at, k, width, height) {
            Some(next) => {
                if g.is_open(next.0, next.1) {
                    proof {
                        lemma_neighbor_adjacent(at, k as int, g@.width, g@.height);
                    }
                    let move_cost: usize = if next.0 != at.0 && next.1 != at.1 {
                        2
                    } else {
                        1
                    };
                    q = next;
                    cost = cost_here + move_cost;
                    better = match table.get(&g.index_of(next)) {
                        Some(known) => !known.closed && cost < known.cost,
                        None => true,
                    };
                }
            },
            None => {},
        }
        if better {
            proof {
                lemma_neighbor_relaxed(g@, start, target, table@, open@, closed, at, k as int, q);
            }
            table.insert(g.index_of(q), SearchNode { pred: at, cost, closed: false });
            open.insert((cost as u128 + distance(q, target) as u128, q.0, q.1));
        } else {
            proof {
                lemma_neighbor_skipped(g@, start, target, table@, open@, closed, at, k as int);
            }
        }
        proof {
            assert(step == (table@, open@));
        }
        k = k + 1;
    }
    proof {
        lemma_examination_done(g@, start, target, table@, open@, closed, at);
    }
}

impl Grid {
    /// Searches for a cheapest route from `start` to `target` through carved cells, moving
    /// to any of the eight neighbours at cost 1, or 2 for a diagonal. The start itself need
    /// not be carved. Returns `None` exactly when no route exists. Of several cheapest
    /// routes it returns the one that `found_route` names.
    pub fn get_path(&self, start: (usize, usize), target: (usize, usize)) -> (r: Option<Path>)
        requires
            self@.wf(),
        ensures
            r is Some <==> reachable(self@, start, target),
            match r {
                Some(path) => {
                    &&& found_route(self@, start, target) == Some(path.cells@)
                    &&& connects(self@, path.cells@, start, target)
                    &&& path.cost == route_cost(path.cells@)
                    &&& forall|other: Seq<(usize, usize)>|
                        connects(self@, other, start, target) ==> path.cost <= route_cost(other)
                },
                None => found_route(self@, start, target) is None,
            },
    {
        let width = self.width();
        let height = self.height();
        if !(start.0 < width && start.1 < height && target.0 < width && target.1 < height) {
            proof {
                assert forall|other: Seq<(usize, usize)>|
                    !connects(self@, other, start, target) by {
                    if connects(self@, other, start, target) {
                        if other.len() > 1 {
                            assert(self@.is_open(other[other.len() - 1]));
                        }
                    }
                }
            }
            return None;
        }
        let mut table: HashMap<usize, SearchNode> = HashMap::new();
        let mut open: BTreeSet<Entry> = BTreeSet::new();
        let ghost mut closed: Set<int> = Set::empty();
        let first = self.index_of(start);
        table.insert(first, SearchNode { pred: start, cost: 0, closed: false });
        open.insert((distance(start, target) as u128, start.0, start.1));
        let ghost mut fuel: nat = 8 * self@.cells.len() + 1;
        let ghost end = searched(self@, target, table@, open@, fuel);
        proof {
            lemma_search_begins(self@, start, target, table@, open@);
        }
        loop
            invariant
                width == self@.width,
                height == self@.height,
                search_inv(self@, start, target, table@, open@, closed, None, 0),
                end == searched(self@, target, table@, open@, fuel),
                fuel >= open@.len() + 8 * (self@.cells.len() - closed.len()),
                found_route(self@, start, target) == match end {
                    Some(last) => Some(
                        traced(self@, start, last, target, last[slot(self@, target)].cost as nat),
                    ),
                    None => None,
                },
            decreases fuel,
        {
            let ghost open_before = open@;
            let ghost table_before = table@;
            let e = match take_first(&mut open) {
                Some(e) => e,
                None => {
                    proof {
                        lemma_exhausted_means_unreachable(
                            self@,
                            start,
                            target,
                            table@,
                            open_before,
                            closed,
                        );
                        assert forall|j: Entry| !is_least(open_before, j) by {}
                    }
                    return None;
                },
            };
            let at = (e.1, e.2);
            let i = self.index_of(at);
            let node = match table.get(&i) {
                Some(node) => *node,
                None => SearchNode { pred: at, cost: 0, closed: true },
            };
            proof {
                assert(is_least(open_before, e));
                lemma_least_is_unique(open_before, e);
                assert(open_before.len() >= 1) by {
                    if open_before.len() == 0 {
                        assert(open_before =~= Set::<Entry>::empty());
                    }
                }
            }
            if node.closed {
                proof {
                    lemma_stale_entry_dropped(self@, start, target, table@, open_before, closed, e);
                    fuel = (fuel - 1) as nat;
                }
                continue ;
            }
            if same_point(at, target) {
                proof {
                    assert forall|other: Seq<(usize, usize)>|
                        connects(self@, other, start, target) implies table@[slot(
                        self@,
                        target,
                    )].cost <= route_cost(other) by {
                        lemma_found_is_cheapest(
                            self@,
                            start,
                            target,
                            table@,
                            open_before,
                            closed,
                            e,
                            other,
                        );
                    }
                    assert(end == Some(table@));
                }
                let path = trace(self, &table, start, target);
                return Some(path);
            }
            proof {
                lemma_position_closed(self@, start, target, table@, open_before, closed, e);
                closed = closed.insert(i as int);
            }
            table.insert(i, SearchNode { pred: node.pred, cost: node.cost, closed: true });
            proof {
                assert(table@ == table_before.insert(i, closed_node(table_before, i)));
            }
            expand(self, &mut table, &mut open, at, target, Ghost(start), Ghost(closed));
            proof {
                fuel = (fuel - 1) as nat;
            }
        }
    }
}

} // verus!
