use eternal_game::ball::{start_run, step_once, Ball, Outcome, Run};
use eternal_game::grid::{Cell, Grid, Pos};

fn ring() -> Grid {
    let mut grid = Grid::new();
    for y in 20..26 {
        for x in 30..37 {
            grid.paint(Pos::new(x, y), Cell::Solid);
        }
    }
    grid.paint(Pos::new(37, 22), Cell::Solid);
    grid.paint(Pos::new(29, 25), Cell::Solid);
    grid
}

/// Every move is one orthogonal cell, the charge never goes below zero and
/// changes by exactly the recorded amount.
#[test]
fn moves_are_orthogonal_and_paid_for() {
    let grid = ring();
    let mut run = Run::new();
    start_run(&mut run, &grid);
    let mut ball = Ball::new(grid.find_start().unwrap(), 3);
    for _ in 0..300 {
        if run.outcome != Outcome::Running {
            break;
        }
        let before = ball;
        let moves = run.total_moves;
        step_once(&grid, &mut run, &mut ball);
        assert!(ball.charge >= 0);
        if run.total_moves > moves {
            let d = (ball.cell.x - before.cell.x, ball.cell.y - before.cell.y);
            assert!(matches!(d, (1, 0) | (-1, 0) | (0, 1) | (0, -1)), "diagonal move {d:?}");
            let last = run.itinerary.last().unwrap();
            assert_eq!(ball.charge, before.charge + last.charge);
            assert_eq!(last.cell, before.cell);
        } else {
            assert_eq!(ball.cell, before.cell, "a refused move stays put");
        }
    }
}

/// The next move depends only on the cell and the anchor, not on the charge
/// or the direction the ball came from.
#[test]
fn the_next_cell_depends_only_on_cell_and_anchor() {
    let grid = ring();
    let mut run = Run::new();
    start_run(&mut run, &grid);
    let mut ball = Ball::new(grid.find_start().unwrap(), 50);
    for _ in 0..5 {
        step_once(&grid, &mut run, &mut ball);
    }
    let mut other = ball;
    other.charge = 7;
    other.dir = Pos::new(0, -1);
    let mut run2 = Run::new();
    start_run(&mut run2, &grid);
    step_once(&grid, &mut run, &mut ball);
    step_once(&grid, &mut run2, &mut other);
    assert_eq!(ball.cell, other.cell);
    assert_eq!(ball.anchor, other.anchor);
}

/// A victory only ever follows a solved loop.
#[test]
fn victory_follows_a_solved_loop() {
    let grid = ring();
    let mut run = Run::new();
    start_run(&mut run, &grid);
    let mut ball = Ball::new(grid.find_start().unwrap(), 1000);
    for _ in 0..5000 {
        if run.outcome != Outcome::Running {
            break;
        }
        step_once(&grid, &mut run, &mut ball);
        if run.outcome == Outcome::Victory {
            assert!(run.solved);
        }
    }
}

/// Masses are numbered 0, 1, … by the first cell of each in scan order
/// (bottom row first, left to right), and a run started on the board holds
/// exactly those labels.
#[test]
fn masses_are_numbered_in_scan_order() {
    let mut grid = Grid::new();
    let w = grid.w as usize;
    for cell in [Pos::new(5, 5), Pos::new(6, 6), Pos::new(9, 1), Pos::new(2, 3)] {
        grid.paint(cell, Cell::Solid);
    }
    let labels = grid.solid_components();
    let at = |x: usize, y: usize| labels[y * w + x];
    assert_eq!(at(9, 1), Some(0));
    assert_eq!(at(2, 3), Some(1));
    assert_eq!(at(5, 5), Some(2));
    assert_eq!(at(6, 6), Some(2));
    assert_eq!(at(0, 0), None);
    assert_eq!(labels.iter().filter(|l| l.is_some()).count(), 4);

    let mut run = Run::new();
    assert!(run.components.iter().all(|l| l.is_none()));
    start_run(&mut run, &grid);
    assert_eq!(run.components, labels);
    start_run(&mut run, &grid);
    assert_eq!(run.components, grid.solid_components());
}

/// A run that was never started on a board labels nothing, so its ball has
/// no anchor to roll on and is stuck at once.
#[test]
fn an_unstarted_run_leaves_the_ball_stuck() {
    let grid = Grid::new();
    let mut run = Run::new();
    let mut ball = Ball::new(Pos::new(4, 4), 0);
    step_once(&grid, &mut run, &mut ball);
    assert_eq!(run.outcome, Outcome::Stuck);
    assert_eq!(ball.cell, Pos::new(4, 4));
}
