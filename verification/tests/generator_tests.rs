use cavegen::connector::{biased_direction, keeps_draw, preferred_directions};
use cavegen::geometry::CardinalDirection::{Down, Left, Right, Up};
use cavegen::geometry::{distance, CardinalDirection};
use cavegen::grid::{Cell, Grid};
use cavegen::placer::is_near_any;
use cavegen::random::RandomStream;
use cavegen::settings::{GenerationError, GenerationLimits, GenerationSettings};
use rand::rngs::StdRng;
use rand::Rng;
use rand::SeedableRng;

fn settings(cavern_count: usize, max_cavern_dist: usize, walk_count: usize, walk_len: usize) -> GenerationSettings {
    GenerationSettings { cavern_count, max_cavern_dist, walk_count, walk_len }
}

fn limits() -> GenerationLimits {
    GenerationLimits { max_placement_attempts: 100_000, max_tunnel_steps: 1_000_000 }
}

fn snapshot(g: &Grid) -> Vec<Option<Cell>> {
    let mut cells = Vec::new();
    for y in 0..g.height() {
        for x in 0..g.width() {
            cells.push(g.get(x, y));
        }
    }
    cells
}

fn open_count(g: &Grid) -> usize {
    snapshot(g).iter().filter(|c| matches!(c, Some(cell) if cell.open)).count()
}

fn is_clamped_step(from: (usize, usize), to: (usize, usize), w: usize, h: usize) -> bool {
    let moves = [
        (from.0, (from.1 + 1).min(h - 1)),
        (from.0, from.1.saturating_sub(1)),
        (from.0.saturating_sub(1), from.1),
        ((from.0 + 1).min(w - 1), from.1),
    ];
    moves.contains(&to)
}

#[test]
fn settings_with_a_zero_are_invalid() {
    assert!(settings(1, 1, 1, 1).is_valid());
    assert!(!settings(0, 1, 1, 1).is_valid());
    assert!(!settings(1, 0, 1, 1).is_valid());
    assert!(!settings(1, 1, 0, 1).is_valid());
    assert!(!settings(1, 1, 1, 0).is_valid());
}

#[test]
fn invalid_settings_leave_the_grid_alone() {
    let mut rng = RandomStream::new(1);
    for bad in [settings(0, 10, 5, 5), settings(3, 0, 5, 5), settings(3, 10, 0, 5), settings(3, 10, 5, 0)] {
        let mut g = Grid::new(20, 20);
        g.set(3, 3, Cell { open: true, region: Some(2) });
        let before = snapshot(&g);
        assert_eq!(g.generate(&bad, &limits(), &mut rng), Err(GenerationError::InvalidSettings));
        assert_eq!(snapshot(&g), before);
    }
}

#[test]
fn placement_starts_at_the_centre() {
    let g = Grid::new(100, 60);
    let mut rng = RandomStream::new(2);
    let caverns = g.place_caverns(1, 20, &mut rng, 0).expect("one cavern needs no draw");
    assert_eq!(caverns, vec![(50, 30)]);
    let none_asked = g.place_caverns(0, 20, &mut rng, 0).expect("the centre is always placed");
    assert_eq!(none_asked, vec![(50, 30)]);
}

#[test]
fn placed_caverns_keep_their_distance() {
    for seed in 0..20 {
        let g = Grid::new(100, 100);
        let mut rng = RandomStream::new(seed);
        let caverns = g.place_caverns(8, 20, &mut rng, 100_000).expect("placement succeeds");
        assert_eq!(caverns.len(), 8);
        assert_eq!(caverns[0], (50, 50));
        for i in 1..caverns.len() {
            assert!(caverns[i].0 < 100 && caverns[i].1 < 100);
            assert!((0..i).any(|j| distance(caverns[j], caverns[i]) < 20));
            assert!((0..i).any(|j| distance(caverns[j], caverns[i]) <= 20));
        }
    }
}

#[test]
fn placement_gives_up() {
    let g = Grid::new(100, 100);
    let mut rng = RandomStream::new(3);
    assert_eq!(g.place_caverns(2, 20, &mut rng, 0), Err(GenerationError::PlacementTimeout));
    assert_eq!(g.place_caverns(5, 0, &mut rng, 1000), Err(GenerationError::PlacementTimeout));
    assert_eq!(g.place_caverns(50, 200, &mut rng, 48), Err(GenerationError::PlacementTimeout));
}

#[test]
fn placement_with_a_wide_reach_keeps_every_draw() {
    let g = Grid::new(30, 40);
    let mut rng = RandomStream::new(4);
    let caverns = g.place_caverns(50, 41, &mut rng, 49).expect("every draw is kept");
    assert_eq!(caverns.len(), 50);
    assert!(caverns.iter().all(|c| c.0 < 30 && c.1 < 40));
}

#[test]
fn drawn_positions_vary() {
    let g = Grid::new(1000, 1000);
    let mut rng = RandomStream::new(5);
    let caverns = g.place_caverns(40, 2000, &mut rng, 1000).expect("every draw is kept");
    let mut xs: Vec<usize> = caverns.iter().skip(1).map(|c| c.0).collect();
    xs.sort();
    xs.dedup();
    assert!(xs.len() > 5);
    assert!(xs.iter().all(|x| *x < 1000));
}

#[test]
fn near_any_is_strict() {
    let caverns = vec![(10, 10), (40, 40)];
    assert!(is_near_any(&caverns, (10, 10), 1));
    assert!(is_near_any(&caverns, (29, 10), 20));
    assert!(!is_near_any(&caverns, (30, 10), 20));
    assert!(is_near_any(&caverns, (59, 59), 20));
    assert!(!is_near_any(&caverns, (10, 10), 0));
    assert!(!is_near_any(&Vec::new(), (10, 10), 100));
}

#[test]
fn walk_carves_start_and_steps() {
    let mut g = Grid::new(30, 30);
    let mut rng = RandomStream::new(6);
    let path = g.random_walk(15, 15, 40, 3, &mut rng);
    assert_eq!(path.len(), 40);
    assert_eq!(g.get(15, 15), Some(Cell { open: true, region: Some(3) }));
    let mut at = (15, 15);
    for &next in &path {
        assert!(is_clamped_step(at, next, 30, 30));
        assert_eq!(g.get(next.0, next.1), Some(Cell { open: true, region: Some(3) }));
        at = next;
    }
    let mut visited = path.clone();
    visited.push((15, 15));
    visited.sort();
    visited.dedup();
    assert_eq!(open_count(&g), visited.len());
}

#[test]
fn walk_stays_inside_a_small_grid() {
    let mut g = Grid::new(2, 2);
    let mut rng = RandomStream::new(7);
    let path = g.random_walk(0, 0, 200, 0, &mut rng);
    assert_eq!(path.len(), 200);
    assert!(path.iter().all(|p| p.0 < 2 && p.1 < 2));
    let mut at = (0, 0);
    for &next in &path {
        assert!(is_clamped_step(at, next, 2, 2));
        at = next;
    }
}

#[test]
fn walk_of_no_steps_carves_the_start() {
    let mut g = Grid::new(5, 5);
    let mut rng = RandomStream::new(8);
    let path = g.random_walk(2, 2, 0, 1, &mut rng);
    assert!(path.is_empty());
    assert_eq!(open_count(&g), 1);
    assert!(g.is_open(2, 2));
}

#[test]
fn drawn_directions_cover_all_four() {
    let mut rng = RandomStream::new(9);
    let mut seen = [false; 4];
    for _ in 0..200 {
        match rng.next_direction() {
            CardinalDirection::Up => seen[0] = true,
            CardinalDirection::Down => seen[1] = true,
            CardinalDirection::Left => seen[2] = true,
            CardinalDirection::Right => seen[3] = true,
        }
    }
    assert_eq!(seen, [true; 4]);
}

#[test]
fn preferred_directions_point_at_the_target() {
    assert_eq!(preferred_directions((5, 5), (9, 9)), (Right, Up));
    assert_eq!(preferred_directions((5, 5), (1, 1)), (Left, Down));
    assert_eq!(preferred_directions((5, 5), (9, 1)), (Right, Down));
    assert_eq!(preferred_directions((5, 5), (1, 9)), (Left, Up));
    assert_eq!(preferred_directions((5, 5), (5, 5)), (Left, Down));
}

#[test]
fn draws_are_kept_by_the_rule() {
    assert!(keeps_draw(Right, (Right, Up), 1));
    assert!(keeps_draw(Up, (Right, Up), 1));
    assert!(!keeps_draw(Left, (Right, Up), 1));
    assert!(!keeps_draw(Down, (Right, Up), 3));
    assert!(keeps_draw(Left, (Right, Up), 0));
    assert!(keeps_draw(Down, (Right, Up), 0));
}

#[test]
fn rerolls_lean_towards_the_preferred() {
    let mut rng = RandomStream::new(10);
    let mut plain = 0;
    let mut biased = 0;
    for _ in 0..4000 {
        let d = biased_direction(&mut rng, (Right, Up), 0);
        if d == Right || d == Up {
            plain += 1;
        }
        let d = biased_direction(&mut rng, (Right, Up), 1);
        if d == Right || d == Up {
            biased += 1;
        }
    }
    // Half of the plain draws and three quarters of the rerolled ones are preferred.
    assert!(plain > 1800 && plain < 2200);
    assert!(biased > 2800 && biased < 3200);
}

#[test]
fn tunnel_connects_two_cells() {
    let mut g = Grid::new(60, 60);
    g.set(5, 5, Cell { open: true, region: Some(0) });
    g.set(50, 45, Cell { open: true, region: Some(1) });
    assert!(g.get_path((5, 5), (50, 45)).is_none());
    let mut rng = RandomStream::new(11);
    let path = g
        .generate_connecting_tunnel((5, 5), (50, 45), 7, &mut rng, 1_000_000)
        .expect("the tunnel arrives");
    assert!(!path.is_empty());
    assert_eq!((path.len() - 1) % 128, 0);
    assert!(g.get_path((5, 5), (50, 45)).is_some());
    let mut at = (5, 5);
    for &next in &path {
        assert!(is_clamped_step(at, next, 60, 60));
        assert_eq!(g.get(next.0, next.1), Some(Cell { open: true, region: Some(7) }));
        at = next;
    }
}

#[test]
fn tunnel_stops_after_one_step_when_connected() {
    let mut g = Grid::new(10, 10);
    for x in 2..=6 {
        g.set(x, 2, Cell { open: true, region: Some(0) });
    }
    let mut rng = RandomStream::new(12);
    let path = g
        .generate_connecting_tunnel((2, 2), (6, 2), 1, &mut rng, 10)
        .expect("the cells are connected already");
    assert_eq!(path.len(), 1);
}

#[test]
fn tunnel_gives_up() {
    let mut g = Grid::new(200, 200);
    g.set(190, 190, Cell { open: true, region: Some(1) });
    let mut rng = RandomStream::new(13);
    assert_eq!(
        g.generate_connecting_tunnel((5, 5), (190, 190), 1, &mut rng, 0),
        Err(GenerationError::ConnectionFailed { from: (5, 5), to: (190, 190) })
    );
    assert_eq!(open_count(&g), 1);
    assert_eq!(
        g.generate_connecting_tunnel((5, 5), (190, 190), 1, &mut rng, 100),
        Err(GenerationError::ConnectionFailed { from: (5, 5), to: (190, 190) })
    );
    assert!(open_count(&g) > 1 && open_count(&g) <= 101);
}

#[test]
fn nearest_unconnected_takes_the_nearest() {
    let mut g = Grid::new(40, 40);
    let caverns = vec![(20, 20), (5, 5), (8, 5), (30, 30), (6, 5)];
    for &(x, y) in &caverns {
        g.set(x, y, Cell { open: true, region: Some(0) });
    }
    // (5, 5) touches (6, 5), so the nearest that it cannot reach is (8, 5).
    assert_eq!(g.nearest_unconnected(&caverns, 1), Some(2));
    assert_eq!(g.nearest_unconnected(&caverns, 0), Some(3));
    assert_eq!(g.nearest_unconnected(&caverns, 3), Some(0));
}

#[test]
fn nearest_unconnected_takes_the_first_of_equals() {
    let mut g = Grid::new(40, 40);
    let caverns = vec![(20, 20), (25, 20), (15, 20), (20, 25)];
    for &(x, y) in &caverns {
        g.set(x, y, Cell { open: true, region: Some(0) });
    }
    assert_eq!(g.nearest_unconnected(&caverns, 0), Some(1));
}

#[test]
fn nearest_unconnected_finds_none_when_all_connect() {
    let mut g = Grid::new(10, 10);
    let caverns = vec![(2, 2), (3, 2), (4, 3)];
    for &(x, y) in &caverns {
        g.set(x, y, Cell { open: true, region: Some(0) });
    }
    assert_eq!(g.nearest_unconnected(&caverns, 0), None);
    assert_eq!(g.nearest_unconnected(&caverns, 2), None);
}

#[test]
fn connect_caverns_leaves_connected_caverns_alone() {
    let mut g = Grid::new(10, 10);
    let caverns = vec![(2, 2), (3, 2), (4, 3)];
    for &(x, y) in &caverns {
        g.set(x, y, Cell { open: true, region: Some(0) });
    }
    let before = snapshot(&g);
    let mut rng = RandomStream::new(14);
    assert_eq!(g.connect_caverns(&caverns, &mut rng, 0), Ok(()));
    assert_eq!(snapshot(&g), before);
}

#[test]
fn generation_connects_every_cavern() {
    for seed in 0..6 {
        let mut g = Grid::new(80, 60);
        let mut rng = RandomStream::new(seed);
        let caverns = g
            .generate(&settings(8, 25, 6, 12), &limits(), &mut rng)
            .expect("generation succeeds");
        assert_eq!(caverns.len(), 8);
        assert_eq!(caverns[0], (40, 30));
        for i in 0..caverns.len() {
            assert!(g.is_open(caverns[i].0, caverns[i].1));
            assert!(g.get_path(caverns[0], caverns[i]).is_some());
            if i > 0 {
                assert!((0..i).any(|j| distance(caverns[j], caverns[i]) < 25));
            }
        }
    }
}

#[test]
fn generation_with_sparse_walks_needs_tunnels() {
    let mut g = Grid::new(120, 120);
    let mut rng = RandomStream::new(21);
    let caverns = g
        .generate(&settings(10, 60, 1, 1), &limits(), &mut rng)
        .expect("generation succeeds");
    for c in &caverns {
        assert!(g.get_path(caverns[0], *c).is_some());
    }
    // Ten walks of one step carve at most twenty cells; the rest is tunnel.
    assert!(open_count(&g) > 20);
}

#[test]
fn generation_reports_a_failed_connection() {
    let mut g = Grid::new(120, 120);
    let mut rng = RandomStream::new(21);
    let tight = GenerationLimits { max_placement_attempts: 100_000, max_tunnel_steps: 0 };
    match g.generate(&settings(10, 60, 1, 1), &tight, &mut rng) {
        Err(GenerationError::ConnectionFailed { from, to }) => {
            assert!(g.is_open(from.0, from.1));
            assert!(g.is_open(to.0, to.1));
            assert!(g.get_path(from, to).is_none());
        }
        other => panic!("expected a failed connection, got {:?}", other),
    }
}

#[test]
fn generation_reports_a_placement_timeout() {
    let mut g = Grid::new(120, 120);
    let mut rng = RandomStream::new(22);
    let tight = GenerationLimits { max_placement_attempts: 3, max_tunnel_steps: 1000 };
    assert_eq!(
        g.generate(&settings(10, 60, 1, 1), &tight, &mut rng),
        Err(GenerationError::PlacementTimeout)
    );
    assert_eq!(open_count(&g), 0);
}

#[test]
fn generation_is_additive() {
    let mut g = Grid::new(60, 60);
    let mut rng = RandomStream::new(23);
    g.generate(&settings(4, 20, 4, 10), &limits(), &mut rng).expect("generation succeeds");
    let first = snapshot(&g);
    g.generate_caverns(&settings(4, 20, 4, 10), &limits(), &mut rng).expect("generation succeeds");
    let second = snapshot(&g);
    for (a, b) in first.iter().zip(second.iter()) {
        let (a, b) = (a.unwrap(), b.unwrap());
        assert!(b.open || a == b);
        assert!(!a.open || b.open);
    }
}

#[test]
fn same_seed_gives_the_same_grid() {
    let run = |seed: u64| {
        let mut g = Grid::new(70, 50);
        let mut rng = RandomStream::new(seed);
        let caverns = g.generate(&settings(7, 20, 5, 15), &limits(), &mut rng);
        (caverns, snapshot(&g), g.to_color_image())
    };
    assert_eq!(run(42), run(42));
    assert_eq!(run(43), run(43));
    assert_ne!(run(42).1, run(43).1);
}

#[test]
fn reset_then_generate_starts_afresh() {
    let mut g = Grid::new(70, 50);
    let mut fresh = Grid::new(70, 50);
    let mut rng = RandomStream::new(1);
    g.generate(&settings(5, 20, 5, 15), &limits(), &mut rng).expect("generation succeeds");
    g.reset();
    let mut again = RandomStream::new(99);
    let mut same = RandomStream::new(99);
    let a = g.generate(&settings(5, 20, 5, 15), &limits(), &mut again);
    let b = fresh.generate(&settings(5, 20, 5, 15), &limits(), &mut same);
    assert_eq!(a, b);
    assert_eq!(snapshot(&g), snapshot(&fresh));
}

#[test]
fn first_cavern_is_green_in_the_image() {
    let mut g = Grid::new(50, 50);
    let mut rng = RandomStream::new(31);
    let caverns = g.generate(&settings(1, 10, 3, 10), &limits(), &mut rng).expect("generation succeeds");
    assert_eq!(caverns, vec![(25, 25)]);
    let image = g.to_color_image();
    let green = cavegen::image::Color { r: 0, g: 255, b: 0 };
    let black = cavegen::image::Color { r: 0, g: 0, b: 0 };
    assert_eq!(image.pixels[25 * 50 + 25], green);
    assert!(image.pixels.iter().all(|p| *p == green || *p == black));
    assert_eq!(image.pixels.iter().filter(|p| **p == green).count(), open_count(&g));
}

#[test]
fn stream_starts_at_the_beginning() {
    assert_eq!(RandomStream::new(9), RandomStream { seed: 9, position: 0 });
}

#[test]
fn stream_moves_one_position_per_draw() {
    let mut rng = RandomStream::new(5);
    rng.next_below(10);
    assert_eq!(rng, RandomStream { seed: 5, position: 1 });
    rng.next_direction();
    assert_eq!(rng, RandomStream { seed: 5, position: 2 });
    let mut last = RandomStream { seed: 5, position: u64::MAX };
    last.next_below(10);
    assert_eq!(last, RandomStream { seed: 5, position: 0 });
}

#[test]
fn stream_draws_stay_below_the_bound() {
    let mut rng = RandomStream::new(6);
    for bound in 1..200usize {
        assert!(rng.next_below(bound) < bound);
    }
    assert_eq!(rng.next_below(1), 0);
}

#[test]
fn stream_gives_the_same_number_at_the_same_position() {
    for position in [0u64, 1, 77, u64::MAX] {
        let mut a = RandomStream { seed: 1234, position };
        let mut b = RandomStream { seed: 1234, position };
        assert_eq!(a.next_below(1_000_000), b.next_below(1_000_000));
    }
}

#[test]
fn stream_numbers_vary_with_seed_and_position() {
    let draws = |seed: u64| {
        let mut rng = RandomStream::new(seed);
        (0..32).map(|_| rng.next_below(1_000_000)).collect::<Vec<usize>>()
    };
    let a = draws(1);
    let b = draws(2);
    assert_ne!(a, b);
    let mut distinct = a.clone();
    distinct.sort();
    distinct.dedup();
    assert!(distinct.len() > 28);
}

#[test]
fn stream_draws_are_the_keyed_generator_s_first_numbers() {
    let seed: u64 = 0x0123_4567_89ab_cdef;
    for position in [0u64, 1, 2, 500, u64::MAX] {
        let mut key = [0u8; 32];
        key[..8].copy_from_slice(&seed.to_le_bytes());
        key[8..16].copy_from_slice(&position.to_le_bytes());
        let expected = StdRng::from_seed(key).gen_range(0..1000u64) as usize;
        let mut rng = RandomStream { seed, position };
        assert_eq!(rng.next_below(1000), expected);
    }
}

#[test]
fn stream_directions_follow_the_numbers() {
    for position in 0..40u64 {
        let mut numbers = RandomStream { seed: 3, position };
        let mut directions = RandomStream { seed: 3, position };
        let expected = CardinalDirection::from_index(numbers.next_below(4));
        assert_eq!(directions.next_direction(), expected);
    }
}

#[test]
fn walk_follows_the_drawn_directions() {
    let mut g = Grid::new(30, 30);
    let mut rng = RandomStream::new(6);
    let mut draws = RandomStream::new(6);
    let path = g.random_walk(15, 15, 25, 3, &mut rng);
    let mut at = (15, 15);
    for &next in &path {
        at = cavegen::geometry::step(at, draws.next_direction(), 30, 30);
        assert_eq!(next, at);
    }
    assert_eq!(rng, draws);
    assert_eq!(rng.position, 25);
}

#[test]
fn placement_follows_the_drawn_positions() {
    let g = Grid::new(100, 100);
    let mut rng = RandomStream::new(17);
    let mut draws = RandomStream::new(17);
    let caverns = g.place_caverns(6, 30, &mut rng, 100_000).expect("placement succeeds");
    let mut expected = vec![(50, 50)];
    while expected.len() < 6 {
        let p = (draws.next_below(100), draws.next_below(100));
        if is_near_any(&expected, p, 30) {
            expected.push(p);
        }
    }
    assert_eq!(caverns, expected);
    assert_eq!(rng, draws);
}

#[test]
fn biased_direction_spends_its_rerolls() {
    for position in 0..60u64 {
        let mut rng = RandomStream { seed: 8, position };
        let mut draws = RandomStream { seed: 8, position };
        let d = biased_direction(&mut rng, (Right, Up), 2);
        let mut left = 2;
        let expected = loop {
            let draw = draws.next_direction();
            if keeps_draw(draw, (Right, Up), left) {
                break draw;
            }
            left -= 1;
        };
        assert_eq!(d, expected);
        assert_eq!(rng, draws);
        assert!(rng.position - position <= 3);
    }
}

#[test]
fn generation_at_full_size() {
    let mut g = Grid::new(2000, 1000);
    let mut rng = RandomStream::new(2024);
    let caverns = g
        .generate(&settings(12, 100, 50, 50), &limits(), &mut rng)
        .expect("generation succeeds");
    assert_eq!(caverns.len(), 12);
    assert_eq!(caverns[0], (1000, 500));
    for c in &caverns {
        assert!(g.get_path(caverns[0], *c).is_some());
    }
}
