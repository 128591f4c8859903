use cavegen::grid::{Cell, Grid};
use cavegen::pathfinder::Path;
use rand::rngs::StdRng;
use rand::Rng;
use rand::SeedableRng;

fn carve(g: &mut Grid, cells: &[(usize, usize)]) {
    for &(x, y) in cells {
        g.set(x, y, Cell { open: true, region: Some(1) });
    }
}

fn cost_of(cells: &[(usize, usize)]) -> usize {
    let mut total = 0;
    for pair in cells.windows(2) {
        let (a, b) = (pair[0], pair[1]);
        total += if a.0 != b.0 && a.1 != b.1 { 2 } else { 1 };
    }
    total
}

fn assert_route(g: &Grid, path: &Path, start: (usize, usize), target: (usize, usize)) {
    assert_eq!(path.cells.first(), Some(&start));
    assert_eq!(path.cells.last(), Some(&target));
    for pair in path.cells.windows(2) {
        let (a, b) = (pair[0], pair[1]);
        let dx = a.0.abs_diff(b.0);
        let dy = a.1.abs_diff(b.1);
        assert_eq!(dx.max(dy), 1);
        assert!(g.is_open(b.0, b.1));
    }
    assert_eq!(path.cost, cost_of(&path.cells));
}

// Cheapest cost by exhaustive relaxation over every cell, with no heuristic and no queue.
fn brute_force(g: &Grid, start: (usize, usize), target: (usize, usize)) -> Option<usize> {
    let (w, h) = (g.width(), g.height());
    if start.0 >= w || start.1 >= h {
        return None;
    }
    let mut best: Vec<Option<usize>> = vec![None; w * h];
    best[start.1 * w + start.0] = Some(0);
    let mut changed = true;
    while changed {
        changed = false;
        for y in 0..h {
            for x in 0..w {
                let Some(here) = best[y * w + x] else { continue };
                for dx in -1i64..=1 {
                    for dy in -1i64..=1 {
                        if dx == 0 && dy == 0 {
                            continue;
                        }
                        let nx = x as i64 + dx;
                        let ny = y as i64 + dy;
                        if nx < 0 || ny < 0 || nx >= w as i64 || ny >= h as i64 {
                            continue;
                        }
                        let (nx, ny) = (nx as usize, ny as usize);
                        if !g.is_open(nx, ny) {
                            continue;
                        }
                        let cost = here + if dx != 0 && dy != 0 { 2 } else { 1 };
                        let slot = &mut best[ny * w + nx];
                        if slot.map_or(true, |known| cost < known) {
                            *slot = Some(cost);
                            changed = true;
                        }
                    }
                }
            }
        }
    }
    if target.0 >= w || target.1 >= h {
        return None;
    }
    best[target.1 * w + target.0]
}

#[test]
fn straight_corridor() {
    let mut g = Grid::new(5, 5);
    carve(&mut g, &[(0, 0), (1, 0), (2, 0), (3, 0), (4, 0)]);
    let path = g.get_path((0, 0), (4, 0)).expect("the corridor is open");
    assert_eq!(path.cells.len(), 5);
    assert_eq!(path.cost, 4);
    assert_eq!(path.cells, vec![(0, 0), (1, 0), (2, 0), (3, 0), (4, 0)]);
}

#[test]
fn blocked_corridor() {
    let mut g = Grid::new(5, 5);
    carve(&mut g, &[(0, 0), (1, 0), (3, 0), (4, 0)]);
    assert!(g.get_path((0, 0), (4, 0)).is_none());
}

#[test]
fn start_is_its_own_route() {
    let g = Grid::new(5, 5);
    let path = g.get_path((2, 2), (2, 2)).expect("a cell reaches itself");
    assert_eq!(path.cells, vec![(2, 2)]);
    assert_eq!(path.cost, 0);
}

#[test]
fn start_need_not_be_open() {
    let mut g = Grid::new(5, 5);
    carve(&mut g, &[(1, 0), (2, 0)]);
    let path = g.get_path((0, 0), (2, 0)).expect("only the start is solid");
    assert_eq!(path.cells, vec![(0, 0), (1, 0), (2, 0)]);
    assert_eq!(path.cost, 2);
}

#[test]
fn target_must_be_open() {
    let mut g = Grid::new(5, 5);
    carve(&mut g, &[(0, 0), (1, 0)]);
    assert!(g.get_path((0, 0), (2, 0)).is_none());
}

#[test]
fn outside_points_have_no_route() {
    let mut g = Grid::new(3, 3);
    carve(&mut g, &[(0, 0), (1, 0), (2, 0)]);
    assert!(g.get_path((0, 0), (3, 0)).is_none());
    assert!(g.get_path((3, 0), (0, 0)).is_none());
    assert!(g.get_path((5, 5), (5, 5)).is_none());
    assert!(g.get_path((0, 7), (2, 0)).is_none());
}

#[test]
fn diagonal_costs_two() {
    let mut g = Grid::new(3, 3);
    carve(&mut g, &[(0, 0), (1, 1)]);
    let path = g.get_path((0, 0), (1, 1)).expect("the diagonal is open");
    assert_eq!(path.cells, vec![(0, 0), (1, 1)]);
    assert_eq!(path.cost, 2);
}

#[test]
fn two_straight_moves_tie_with_a_diagonal() {
    let mut g = Grid::new(3, 3);
    carve(&mut g, &[(0, 0), (1, 0), (0, 1), (1, 1)]);
    let path = g.get_path((0, 0), (1, 1)).expect("the square is open");
    assert_eq!(path.cost, 2);
    assert_route(&g, &path, (0, 0), (1, 1));
    // All three routes cost 2. The target is filed from the start at that cost, and the
    // two side cells, examined first, do not reach it more cheaply.
    assert_eq!(path.cells, vec![(0, 0), (1, 1)]);
}

#[test]
fn detour_round_a_wall() {
    // . . . . .
    // . # # # .
    // S # T . .
    let mut g = Grid::new(5, 3);
    carve(
        &mut g,
        &[
            (0, 2), (1, 2), (2, 2), (3, 2), (4, 2),
            (0, 1), (4, 1),
            (0, 0), (2, 0), (3, 0), (4, 0),
        ],
    );
    let path = g.get_path((0, 0), (2, 0)).expect("the detour is open");
    assert_route(&g, &path, (0, 0), (2, 0));
    assert_eq!(Some(path.cost), brute_force(&g, (0, 0), (2, 0)));
    assert_eq!(path.cost, 10);
}

#[test]
fn open_grid_costs_match_the_formula() {
    let mut g = Grid::new(6, 6);
    for y in 0..6 {
        for x in 0..6 {
            carve(&mut g, &[(x, y)]);
        }
    }
    for ty in 0..6usize {
        for tx in 0..6usize {
            let path = g.get_path((0, 0), (tx, ty)).expect("the grid is open");
            // Each coordinate is covered by straight moves; a diagonal saves nothing.
            assert_eq!(path.cost, tx + ty);
            assert_route(&g, &path, (0, 0), (tx, ty));
        }
    }
}

#[test]
fn cost_is_never_above_the_cheapest() {
    let mut rng = StdRng::seed_from_u64(7);
    for _ in 0..60 {
        let mut g = Grid::new(6, 6);
        for y in 0..6 {
            for x in 0..6 {
                if rng.gen_range(0..100) < 65 {
                    carve(&mut g, &[(x, y)]);
                }
            }
        }
        for _ in 0..12 {
            let start = (rng.gen_range(0..6), rng.gen_range(0..6));
            let target = (rng.gen_range(0..6), rng.gen_range(0..6));
            let found = g.get_path(start, target);
            let cheapest = brute_force(&g, start, target);
            match (&found, cheapest) {
                (Some(path), Some(cost)) => {
                    assert_route(&g, path, start, target);
                    assert_eq!(path.cost, cost);
                }
                (None, None) => {}
                _ => panic!("search and exhaustive relaxation disagree on {:?} to {:?}", start, target),
            }
        }
    }
}

#[test]
fn equal_estimates_are_taken_by_coordinate() {
    // . . .      Both ways round the wall cost 4, and (1, 0) and (1, 2) wait under the
    // S # T      same estimate. (1, 0) comes first by its coordinates, so the target is
    // . . .      first filed through it, and (1, 2) does not reach it more cheaply.
    let mut g = Grid::new(3, 3);
    carve(
        &mut g,
        &[(0, 0), (1, 0), (2, 0), (0, 1), (2, 1), (0, 2), (1, 2), (2, 2)],
    );
    let path = g.get_path((0, 1), (2, 1)).expect("both ways are open");
    assert_eq!(path.cells, vec![(0, 1), (1, 0), (2, 1)]);
    assert_eq!(path.cost, 4);
}

#[test]
fn search_is_repeatable() {
    let mut g = Grid::new(8, 8);
    for y in 0..8 {
        for x in 0..8 {
            carve(&mut g, &[(x, y)]);
        }
    }
    let a = g.get_path((0, 0), (7, 5)).expect("the grid is open");
    let b = g.get_path((0, 0), (7, 5)).expect("the grid is open");
    assert_eq!(a.cells, b.cells);
    assert_eq!(a.cost, 12);
}
