use eternal_game::grid::{neighbors8, Cell, Grid, Pos, GRID_H, GRID_W};

fn grid() -> Grid {
    Grid::new()
}

fn paint(grid: &mut Grid, cell: Pos, value: Cell) {
    grid.paint(cell, value);
}

fn plus(a: Pos, b: Pos) -> Pos {
    Pos::new(a.x + b.x, a.y + b.y)
}

/// A single solid opens its eight neighbours as track.
#[test]
fn a_solid_opens_its_eight_neighbours() {
    let mut grid = grid();
    paint(&mut grid, Pos::new(5, 5), Cell::Solid);
    assert!(grid.is_solid(Pos::new(5, 5)));
    for offset in neighbors8() {
        assert!(
            grid.is_open(plus(Pos::new(5, 5), offset)),
            "neighbour {offset:?} should be open"
        );
    }
    // A cell two away, and the solid itself, are not open.
    assert!(!grid.is_open(Pos::new(7, 5)));
    assert!(!grid.is_open(Pos::new(5, 5)));
}

/// Erasing the only solid closes its neighbours again.
#[test]
fn erasing_closes_the_neighbours() {
    let mut grid = grid();
    paint(&mut grid, Pos::new(5, 5), Cell::Solid);
    paint(&mut grid, Pos::new(5, 5), Cell::Empty);
    assert!(!grid.is_open(Pos::new(6, 5)));
}

/// `find_start` returns an open cell next to the drawn solid.
#[test]
fn find_start_lands_next_to_a_solid() {
    let mut grid = grid();
    paint(&mut grid, Pos::new(5, 5), Cell::Solid);
    let start = grid.find_start().unwrap();
    assert!(grid.is_open(start));
    assert!(neighbors8().iter().any(|d| grid.is_solid(plus(start, *d))));
}

/// A level drawn off-centre is recentred on the board by the loader.
#[test]
fn recenter_solids_centres_the_bounding_box() {
    let mut grid = grid();
    for y in 10..14 {
        for x in 10..14 {
            grid.set(Pos::new(x, y), Cell::Solid);
        }
    }

    let shift = grid.recenter_solids();

    // A 4x4 block drawn at 10..13 recentres exactly on a 160x120 board.
    assert_eq!(shift, Pos::new(68, 48));
    let (min, max) = grid.content_bounds().unwrap();
    assert_eq!(min, Pos::new(78, 58));
    assert_eq!(max, Pos::new(81, 61));
    assert_eq!(grid.count(Cell::Solid), 16);
}

/// The detonation wipes the whole board, including the lock.
#[test]
fn obliterate_clears_everything() {
    let mut grid = grid();
    paint(&mut grid, Pos::new(5, 5), Cell::Solid);
    grid.lock_solids();
    assert!(grid.count(Cell::Solid) > 0);

    grid.obliterate();

    assert_eq!(grid.count(Cell::Empty), (GRID_W * GRID_H) as usize);
    assert!(grid.locked.iter().all(|locked| !*locked));
    assert!(grid.dirty);
}

/// The content bounds are the solid bounding box.
#[test]
fn content_bounds_covers_the_drawn_cells() {
    let mut grid = grid();
    paint(&mut grid, Pos::new(5, 5), Cell::Solid);
    paint(&mut grid, Pos::new(8, 9), Cell::Solid);
    let (min, max) = grid.content_bounds().expect("non-empty");
    assert_eq!(min, Pos::new(5, 5));
    assert_eq!(max, Pos::new(8, 9));
}

/// Player-drawn solids count as "drawn"; locked level solids do not.
#[test]
fn only_unlocked_solids_count_as_drawn() {
    let mut grid = grid();
    paint(&mut grid, Pos::new(5, 5), Cell::Solid);
    grid.lock_solids();
    assert!(!grid.has_unlocked_solid());

    paint(&mut grid, Pos::new(10, 10), Cell::Solid);
    assert!(grid.has_unlocked_solid());
}

/// The eraser can't remove level solids, but the player's own solids are
/// fair game.
#[test]
fn locked_solids_cannot_be_erased() {
    let mut grid = grid();
    paint(&mut grid, Pos::new(5, 5), Cell::Solid);
    grid.lock_solids();

    // Player draws their own solid elsewhere.
    paint(&mut grid, Pos::new(10, 10), Cell::Solid);

    // Level solid is protected.
    paint(&mut grid, Pos::new(5, 5), Cell::Empty);
    assert_eq!(grid.get(Pos::new(5, 5)), Some(Cell::Solid));
    // Player's own solid is not.
    paint(&mut grid, Pos::new(10, 10), Cell::Empty);
    assert_eq!(grid.get(Pos::new(10, 10)), Some(Cell::Empty));
}

/// A shallow line steps right every cell and climbs once, half way.
#[test]
fn a_line_paints_the_bresenham_cells() {
    let mut grid = grid();
    grid.paint_line(Pos::new(0, 0), Pos::new(3, 1), Cell::Solid);
    assert_eq!(grid.count(Cell::Solid), 4);
    for cell in [Pos::new(0, 0), Pos::new(1, 0), Pos::new(2, 1), Pos::new(3, 1)] {
        assert!(grid.is_solid(cell));
    }
}

/// A steep line paints one cell per row, from the first end to the second.
#[test]
fn a_steep_line_paints_one_cell_per_row() {
    let mut grid = grid();
    grid.paint_line(Pos::new(4, 7), Pos::new(2, 2), Cell::Solid);
    assert_eq!(grid.count(Cell::Solid), 6);
    assert!(grid.is_solid(Pos::new(4, 7)));
    assert!(grid.is_solid(Pos::new(2, 2)));
}

/// An odd-sized shape cannot sit exactly on the board's even centre: it
/// lands half a cell off, with every solid kept.
#[test]
fn recentring_an_odd_shape_keeps_it_within_half_a_cell() {
    let mut grid = grid();
    for cell in [Pos::new(0, 0), Pos::new(1, 1), Pos::new(2, 0)] {
        grid.set(cell, Cell::Solid);
    }
    let shift = grid.recenter_solids();
    assert_eq!(shift, Pos::new(79, 59));
    let (min, max) = grid.content_bounds().unwrap();
    assert_eq!((min.x + max.x) - (GRID_W - 1), 1);
    assert_eq!((min.y + max.y) - (GRID_H - 1), 0);
    assert_eq!(grid.count(Cell::Solid), 3);
}
