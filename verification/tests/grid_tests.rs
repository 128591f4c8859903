use cavegen::geometry::{distance, neighbor, same_point, step, CardinalDirection};
use cavegen::grid::{Cell, Grid};
use cavegen::image::{cell_color, Color};

fn open_cell(region: usize) -> Cell {
    Cell { open: true, region: Some(region) }
}

fn solid() -> Cell {
    Cell { open: false, region: None }
}

fn snapshot(g: &Grid) -> Vec<Option<Cell>> {
    let mut cells = Vec::new();
    for y in 0..g.height() {
        for x in 0..g.width() {
            cells.push(g.get(x, y));
        }
    }
    cells
}

#[test]
fn new_grid_is_solid() {
    let g = Grid::new(7, 3);
    assert_eq!(g.width(), 7);
    assert_eq!(g.height(), 3);
    for y in 0..3 {
        for x in 0..7 {
            assert_eq!(g.get(x, y), Some(solid()));
            assert!(!g.is_open(x, y));
        }
    }
}

#[test]
fn get_outside_is_absent() {
    let g = Grid::new(4, 5);
    assert_eq!(g.get(4, 0), None);
    assert_eq!(g.get(0, 5), None);
    assert_eq!(g.get(4, 5), None);
    assert_eq!(g.get(usize::MAX, usize::MAX), None);
    assert_eq!(g.get(3, 4), Some(solid()));
}

#[test]
fn set_outside_changes_nothing() {
    let mut g = Grid::new(4, 5);
    g.set(1, 1, open_cell(3));
    let before = snapshot(&g);
    g.set(4, 0, open_cell(1));
    g.set(0, 5, open_cell(1));
    g.set(usize::MAX, 2, open_cell(1));
    g.set(2, usize::MAX, open_cell(1));
    assert_eq!(snapshot(&g), before);
}

#[test]
fn set_changes_one_cell() {
    let mut g = Grid::new(4, 5);
    g.set(2, 3, open_cell(9));
    for y in 0..5 {
        for x in 0..4 {
            if (x, y) == (2, 3) {
                assert_eq!(g.get(x, y), Some(open_cell(9)));
                assert!(g.is_open(x, y));
            } else {
                assert_eq!(g.get(x, y), Some(solid()));
            }
        }
    }
    assert_eq!(g.index_of((2, 3)), 3 * 4 + 2);
}

#[test]
fn row_and_column_are_not_swapped() {
    let mut g = Grid::new(3, 2);
    g.set(2, 0, open_cell(0));
    assert!(g.is_open(2, 0));
    assert!(!g.is_open(0, 1));
    assert_eq!(g.get(0, 2), None);
}

#[test]
fn reset_clears_every_cell() {
    let mut g = Grid::new(6, 4);
    g.set(0, 0, open_cell(0));
    g.set(5, 3, open_cell(2));
    g.reset();
    assert_eq!(g.width(), 6);
    assert_eq!(g.height(), 4);
    assert!(snapshot(&g).iter().all(|c| *c == Some(solid())));
}

#[test]
fn reset_twice_equals_reset_once() {
    let mut a = Grid::new(6, 4);
    a.set(1, 2, open_cell(0));
    let mut b = Grid::new(6, 4);
    b.set(1, 2, open_cell(0));
    a.reset();
    b.reset();
    b.reset();
    assert_eq!(snapshot(&a), snapshot(&b));
}

#[test]
fn distance_is_chebyshev() {
    assert_eq!(distance((0, 0), (0, 0)), 0);
    assert_eq!(distance((0, 0), (3, 4)), 4);
    assert_eq!(distance((3, 4), (0, 0)), 4);
    assert_eq!(distance((10, 2), (4, 5)), 6);
    assert_eq!(distance((7, 7), (8, 8)), 1);
    assert_eq!(distance((0, usize::MAX), (usize::MAX, 0)), usize::MAX);
}

#[test]
fn same_point_compares_both_coordinates() {
    assert!(same_point((1, 2), (1, 2)));
    assert!(!same_point((1, 2), (2, 1)));
    assert!(!same_point((1, 2), (1, 3)));
}

#[test]
fn direction_from_index() {
    assert_eq!(CardinalDirection::from_index(0), CardinalDirection::Up);
    assert_eq!(CardinalDirection::from_index(1), CardinalDirection::Down);
    assert_eq!(CardinalDirection::from_index(2), CardinalDirection::Left);
    assert_eq!(CardinalDirection::from_index(3), CardinalDirection::Right);
    assert_eq!(CardinalDirection::from_index(17), CardinalDirection::Right);
}

#[test]
fn step_moves_one_cell() {
    assert_eq!(step((5, 5), CardinalDirection::Up, 10, 10), (5, 6));
    assert_eq!(step((5, 5), CardinalDirection::Down, 10, 10), (5, 4));
    assert_eq!(step((5, 5), CardinalDirection::Left, 10, 10), (4, 5));
    assert_eq!(step((5, 5), CardinalDirection::Right, 10, 10), (6, 5));
}

#[test]
fn step_stays_at_the_edge() {
    assert_eq!(step((0, 0), CardinalDirection::Down, 10, 10), (0, 0));
    assert_eq!(step((0, 0), CardinalDirection::Left, 10, 10), (0, 0));
    assert_eq!(step((9, 9), CardinalDirection::Up, 10, 10), (9, 9));
    assert_eq!(step((9, 9), CardinalDirection::Right, 10, 10), (9, 9));
    assert_eq!(step((0, 0), CardinalDirection::Up, 1, 1), (0, 0));
}

#[test]
fn step_brings_a_far_point_back() {
    assert_eq!(step((50, 3), CardinalDirection::Up, 10, 10), (9, 4));
    assert_eq!(step((3, 50), CardinalDirection::Left, 10, 10), (2, 9));
    assert_eq!(step((usize::MAX, usize::MAX), CardinalDirection::Right, 10, 10), (9, 9));
}

#[test]
fn neighbors_in_order() {
    let all: Vec<Option<(usize, usize)>> = (0..8).map(|k| neighbor((5, 5), k, 10, 10)).collect();
    assert_eq!(
        all,
        vec![
            Some((4, 4)),
            Some((4, 5)),
            Some((4, 6)),
            Some((5, 4)),
            Some((5, 6)),
            Some((6, 4)),
            Some((6, 5)),
            Some((6, 6)),
        ]
    );
}

#[test]
fn neighbors_at_the_corner() {
    let all: Vec<Option<(usize, usize)>> = (0..8).map(|k| neighbor((0, 0), k, 2, 2)).collect();
    assert_eq!(
        all,
        vec![None, None, None, None, Some((0, 1)), None, Some((1, 0)), Some((1, 1))]
    );
    let far: Vec<Option<(usize, usize)>> = (0..8).map(|k| neighbor((1, 1), k, 2, 2)).collect();
    assert_eq!(
        far,
        vec![Some((0, 0)), Some((0, 1)), None, Some((1, 0)), None, None, None, None]
    );
}

#[test]
fn colors_of_cells() {
    assert_eq!(cell_color(solid()), Color { r: 0, g: 0, b: 0 });
    assert_eq!(cell_color(open_cell(0)), Color { r: 0, g: 255, b: 0 });
    assert_eq!(cell_color(open_cell(1)), Color { r: 255, g: 255, b: 255 });
    assert_eq!(
        cell_color(Cell { open: true, region: None }),
        Color { r: 255, g: 255, b: 255 }
    );
    assert_eq!(
        cell_color(Cell { open: false, region: Some(0) }),
        Color { r: 0, g: 0, b: 0 }
    );
}

#[test]
fn image_lists_rows_in_order() {
    let mut g = Grid::new(3, 2);
    g.set(1, 0, open_cell(0));
    g.set(2, 1, open_cell(4));
    let image = g.to_color_image();
    assert_eq!(image.size, [3, 2]);
    let black = Color { r: 0, g: 0, b: 0 };
    let green = Color { r: 0, g: 255, b: 0 };
    let white = Color { r: 255, g: 255, b: 255 };
    assert_eq!(image.pixels, vec![black, green, black, black, black, white]);
}
