use vstd::prelude::*;

verus! {

/// Absolute difference of two coordinates.
pub open spec fn gap(a: int, b: int) -> int {
    if a >= b {
        a - b
    } else {
        b - a
    }
}

/// Chebyshev distance between two points: the larger of the two coordinate gaps.
pub open spec fn chebyshev(p: (usize, usize), q: (usize, usize)) -> int {
    if gap(p.0 as int, q.0 as int) >= gap(p.1 as int, q.1 as int) {
        gap(p.0 as int, q.0 as int)
    } else {
        gap(p.1 as int, q.1 as int)
    }
}

/// Chebyshev distance between two points.
pub fn distance(p: (usize, usize), q: (usize, usize)) -> (d: usize)
    ensures
        d as int == chebyshev(p, q),
{
    let dx: usize = if p.0 >= q.0 {
        p.0 - q.0
    } else {
        q.0 - p.0
    };
    let dy: usize = if p.1 >= q.1 {
        p.1 - q.1
    } else {
        q.1 - p.1
    };
    if dx >= dy {
        dx
    } else {
        dy
    }
}

/// Whether two points are the same.
pub fn same_point(p: (usize, usize), q: (usize, usize)) -> (b: bool)
    ensures
        b == (p == q),
{
    p.0 == q.0 && p.1 == q.1
}

/// Two points are adjacent when they are distinct and touch, diagonals included.
pub open spec fn adjacent(p: (usize, usize), q: (usize, usize)) -> bool {
    chebyshev(p, q) == 1
}

/// Cost of moving between two adjacent points: 2 for a diagonal move, 1 otherwise.
pub open spec fn step_cost(p: (usize, usize), q: (usize, usize)) -> int {
    if p.0 != q.0 && p.1 != q.1 {
        2
    } else {
        1
    }
}

/// Horizontal and vertical offset of the `k`-th of the eight neighbours, columns first.
pub open spec fn neighbor_offset(k: int) -> (int, int) {
    let dx: int = if k < 3 {
        -1
    } else if k < 5 {
        0
    } else {
        1
    };
    let dy: int = if k == 0 || k == 3 || k == 5 {
        -1
    } else if k == 1 || k == 6 {
        0
    } else {
        1
    };
    (dx, dy)
}

/// The `k`-th neighbour of `p`, absent where it would leave a `width` by `height` grid.
pub open spec fn neighbor_at(p: (usize, usize), k: int, width: nat, height: nat) -> Option<
    (usize, usize),
> {
    let x = p.0 + neighbor_offset(k).0;
    let y = p.1 + neighbor_offset(k).1;
    if 0 <= x < width && 0 <= y < height && x <= usize::MAX && y <= usize::MAX {
        Some((x as usize, y as usize))
    } else {
        None
    }
}

/// The number under which `q` is listed among the neighbours of `p`.
pub open spec fn neighbor_number(p: (usize, usize), q: (usize, usize)) -> int {
    let dx = q.0 - p.0;
    let dy = q.1 - p.1;
    if dx < 0 {
        dy + 1
    } else if dx == 0 {
        if dy < 0 {
            3
        } else {
            4
        }
    } else {
        dy + 6
    }
}

/// Every adjacent point inside the grid is one of the eight listed neighbours.
pub proof fn lemma_neighbors_complete(p: (usize, usize), q: (usize, usize), width: nat, height: nat)
    requires
        adjacent(p, q),
        q.0 < width,
        q.1 < height,
    ensures
        0 <= neighbor_number(p, q) < 8,
        neighbor_at(p, neighbor_number(p, q), width, height) == Some(q),
{
}

/// A listed neighbour is adjacent and lies inside the grid.
pub proof fn lemma_neighbor_adjacent(p: (usize, usize), k: int, width: nat, height: nat)
    requires
        0 <= k < 8,
        neighbor_at(p, k, width, height) is Some,
    ensures
        adjacent(p, neighbor_at(p, k, width, height).unwrap()),
        neighbor_at(p, k, width, height).unwrap().0 < width,
        neighbor_at(p, k, width, height).unwrap().1 < height,
{
}

/// The `k`-th neighbour of `p` inside a `width` by `height` grid, if there is one.
pub fn neighbor(p: (usize, usize), k: usize, width: usize, height: usize) -> (q: Option<
    (usize, usize),
>)
    requires
        k < 8,
    ensures
        q == neighbor_at(p, k as int, width as nat, height as nat),
{
    let x: usize = if k < 3 {
        if p.0 == 0 {
            return None;
        }
        p.0 - 1
    } else if k < 5 {
        p.0
    } else {
        if p.0 == usize::MAX {
            return None;
        }
        p.0 + 1
    };
    let y: usize = if k == 0 || k == 3 || k == 5 {
        if p.1 == 0 {
            return None;
        }
        p.1 - 1
    } else if k == 1 || k == 6 {
        p.1
    } else {
        if p.1 == usize::MAX {
            return None;
        }
        p.1 + 1
    };
    if x < width && y < height {
        Some((x, y))
    } else {
        None
    }
}

/// Moving to an adjacent point changes the distance to any third point by no more than the
/// cost of the move.
pub proof fn lemma_distance_consistent(a: (usize, usize), b: (usize, usize), t: (usize, usize))
    requires
        adjacent(a, b),
    ensures
        chebyshev(a, t) <= step_cost(a, b) + chebyshev(b, t),
        1 <= step_cost(a, b) <= 2,
{
}

/// The four directions in which a walk can move.
#[derive(Clone, Copy, Debug, PartialEq, Eq, Structural)]
pub enum CardinalDirection {
    Up,
    Down,
    Left,
    Right,
}

impl CardinalDirection {
    /// The direction that a drawn number stands for: 0 is up, 1 is down, 2 is left and
    /// every other number is right.
    pub open spec fn of_index(i: usize) -> CardinalDirection {
        if i == 0 {
            CardinalDirection::Up
        } else if i == 1 {
            CardinalDirection::Down
        } else if i == 2 {
            CardinalDirection::Left
        } else {
            CardinalDirection::Right
        }
    }

    /// Turns a drawn number into a direction.
    pub fn from_index(i: usize) -> (d: CardinalDirection)
        ensures
            d == CardinalDirection::of_index(i),
    {
        if i == 0 {
            CardinalDirection::Up
        } else if i == 1 {
            CardinalDirection::Down
        } else if i == 2 {
            CardinalDirection::Left
        } else {
            CardinalDirection::Right
        }
    }
}

/// A coordinate limited to the last valid position `limit - 1`.
pub open spec fn clamped(v: int, limit: nat) -> int {
    if v < 0 {
        0
    } else if v > limit - 1 {
        limit - 1
    } else {
        v
    }
}

/// One step from `p` in direction `d`, held inside a `width` by `height` grid: a step over
/// the edge stays at the edge.
pub open spec fn moved(p: (usize, usize), d: CardinalDirection, width: nat, height: nat) -> (
    usize,
    usize,
) {
    let x: int = match d {
        CardinalDirection::Left => p.0 - 1,
        CardinalDirection::Right => p.0 + 1,
        _ => p.0 as int,
    };
    let y: int = match d {
        CardinalDirection::Down => p.1 - 1,
        CardinalDirection::Up => p.1 + 1,
        _ => p.1 as int,
    };
    (clamped(x, width) as usize, clamped(y, height) as usize)
}

/// `q` is what one clamped step in some direction makes of `p`.
pub open spec fn is_step(p: (usize, usize), q: (usize, usize), width: nat, height: nat) -> bool {
    ||| q == moved(p, CardinalDirection::Up, width, height)
    ||| q == moved(p, CardinalDirection::Down, width, height)
    ||| q == moved(p, CardinalDirection::Left, width, height)
    ||| q == moved(p, CardinalDirection::Right, width, height)
}

/// Limits a coordinate to `limit - 1`.
fn clamp_to(v: usize, limit: usize) -> (r: usize)
    requires
        limit > 0,
    ensures
        r == clamped(v as int, limit as nat),
{
    if v > limit - 1 {
        limit - 1
    } else {
        v
    }
}

/// Takes one step from `p` in direction `d` and holds the result inside the grid.
pub fn step(p: (usize, usize), d: CardinalDirection, width: usize, height: usize) -> (q: (
    usize,
    usize,
))
    requires
        width > 0,
        height > 0,
    ensures
        q == moved(p, d, width as nat, height as nat),
        q.0 < width,
        q.1 < height,
{
    let x: usize = match d {
        CardinalDirection::Left => if p.0 == 0 {
            0
        } else {
            p.0 - 1
        },
        CardinalDirection::Right => if p.0 >= width - 1 {
            width - 1
        } else {
            p.0 + 1
        },
        _ => p.0,
    };
    let y: usize = match d {
        CardinalDirection::Down => if p.1 == 0 {
            0
        } else {
            p.1 - 1
        },
        CardinalDirection::Up => if p.1 >= height - 1 {
            height - 1
        } else {
            p.1 + 1
        },
        _ => p.1,
    };
    (clamp_to(x, width), clamp_to(y, height))
}

} // verus!
