use std::collections::HashSet;

use eternal_game::ball::{start_run, step_once, Ball, Outcome, Run};
use eternal_game::grid::{neighbors8, Cell, Grid, Pos};

/// Tests start with headroom so runs can begin on flat ground.
const TEST_CHARGE: i64 = 10;

fn grid() -> Grid {
    Grid::new()
}

fn plus(a: Pos, b: Pos) -> Pos {
    Pos::new(a.x + b.x, a.y + b.y)
}

/// Paint a filled disk of solids and return the ball's start.
fn disk(grid: &mut Grid, r: f32) -> Pos {
    let (cx, cy) = (40.0f32, 40.0f32);
    for y in 0..80 {
        for x in 0..80 {
            if ((x as f32) - cx).hypot((y as f32) - cy) <= r {
                grid.paint(Pos::new(x, y), Cell::Solid);
            }
        }
    }
    grid.find_start().unwrap()
}

/// Paint a horizontal wall and return the top-surface start at its left end.
fn wall(grid: &mut Grid, from: i32, to: i32, y: i32) -> Pos {
    for x in from..=to {
        grid.paint(Pos::new(x, y), Cell::Solid);
    }
    Pos::new(from, y + 1)
}

/// Run until the outcome stops being `Running` or `limit` steps elapse.
fn run_for(grid: &Grid, run: &mut Run, ball: &mut Ball, limit: usize) {
    for _ in 0..limit {
        if run.outcome != Outcome::Running {
            break;
        }
        step_once(grid, run, ball);
    }
}

/// Every step the ball is adjacent to its anchor — it can never float off
/// onto a different contour.
#[test]
fn ball_stays_on_its_anchor() {
    let mut grid = grid();
    let start = disk(&mut grid, 12.0);
    let mut run = Run::new();
    start_run(&mut run, &grid);
    let mut ball = Ball::new(start, TEST_CHARGE);
    let mut visited = HashSet::new();

    for _ in 0..120 {
        if run.outcome != Outcome::Running {
            break;
        }
        step_once(&grid, &mut run, &mut ball);
        let anchor = ball.anchor.expect("anchor resolved");
        assert!(
            neighbors8().iter().any(|d| plus(ball.cell, *d) == anchor),
            "ball at {:?} left its anchor {anchor:?}",
            ball.cell
        );
        visited.insert((ball.cell.x, ball.cell.y));
    }
    assert!(visited.len() > 10, "ball barely moved: {}", visited.len());
}

/// Two parallel lines one cell apart: the ball stays anchored to the line it
/// started on and never hops to the other.
#[test]
fn parallel_lines_do_not_hop() {
    let mut grid = grid();
    for y in 10..=20 {
        grid.paint(Pos::new(0, y), Cell::Solid);
        grid.paint(Pos::new(2, y), Cell::Solid);
    }

    let mut run = Run::new();
    start_run(&mut run, &grid);
    let mut ball = Ball::new(Pos::new(1, 20), TEST_CHARGE);
    step_once(&grid, &mut run, &mut ball);
    let line = run.component_of(ball.anchor.unwrap()).unwrap();

    for _ in 0..60 {
        if run.outcome != Outcome::Running {
            break;
        }
        step_once(&grid, &mut run, &mut ball);
        assert_eq!(
            run.component_of(ball.anchor.unwrap()).unwrap(),
            line,
            "hopped to the other line at {:?}",
            ball.cell
        );
    }
}

/// A wall end is rounded without a paused step: the anchor pivots around the
/// corner while the ball keeps moving.
#[test]
fn anchor_rounds_the_corner() {
    let mut grid = grid();
    let start = wall(&mut grid, 5, 9, 5); // top surface at y=6, x=5..9
    assert_eq!(start, Pos::new(5, 6));

    let mut run = Run::new();
    start_run(&mut run, &grid);
    let mut ball = Ball::new(start, TEST_CHARGE);

    // Five eastward moves put the ball past the end of the wall.
    for _ in 0..5 {
        step_once(&grid, &mut run, &mut ball);
    }
    assert_eq!(ball.cell, Pos::new(10, 6));

    // The next move pivots around the end; it must not stall or reverse.
    step_once(&grid, &mut run, &mut ball);
    assert_eq!(run.outcome, Outcome::Running);
    assert!(
        ball.cell.x >= 10,
        "should pivot around the end, not bounce back: {:?}",
        ball.cell
    );
}

/// A horizontal move takes the sign of the vertical before it: a flat after
/// a descent gains, a flat after a climb costs.
#[test]
fn horizontal_takes_preceding_sign() {
    // A single solid cell makes the ball ring it, alternating vertical runs
    // with horizontals.
    let mut grid = grid();
    grid.paint(Pos::new(5, 5), Cell::Solid);

    let mut run = Run::new();
    start_run(&mut run, &grid);
    let mut ball = Ball::new(Pos::new(5, 6), TEST_CHARGE);
    run_for(&grid, &mut run, &mut ball, 24);

    assert!(
        run.itinerary.iter().any(|m| m.combo && m.charge > 0),
        "a flat after a descent should gain"
    );
    assert!(
        run.itinerary.iter().any(|m| m.combo && m.charge < 0),
        "a flat after a climb should cost"
    );
}

/// Flat ground (horizontal with no preceding vertical) still consumes.
#[test]
fn flat_ground_costs() {
    let mut grid = grid();
    let start = wall(&mut grid, 5, 9, 5);

    let mut run = Run::new();
    start_run(&mut run, &grid);
    let mut ball = Ball::new(start, TEST_CHARGE);

    step_once(&grid, &mut run, &mut ball);
    assert!(!run.itinerary.last().unwrap().combo);
    assert_eq!(ball.charge, TEST_CHARGE - 1);
}

/// A ball with an empty battery cannot pay for a level move, so it explodes
/// on the spot instead of taking the step.
#[test]
fn empty_battery_explodes_instead_of_moving() {
    let mut grid = grid();
    let start = wall(&mut grid, 5, 9, 5);

    let mut run = Run::new();
    start_run(&mut run, &grid);
    let mut ball = Ball::new(start, 0);

    step_once(&grid, &mut run, &mut ball);

    assert_eq!(run.outcome, Outcome::Depleted);
    assert_eq!(ball.cell, start, "ball moved without paying");
    assert!(run.itinerary.is_empty(), "a failed move must not be recorded");
}

/// Rolling downhill still gains charge, so an empty battery may take that
/// step — the explosion is only for moves the battery cannot afford.
#[test]
fn empty_battery_can_roll_downhill() {
    let mut grid = grid();
    grid.paint(Pos::new(5, 5), Cell::Solid);

    let mut run = Run::new();
    start_run(&mut run, &grid);
    // Start east of the solid; the clockwise step is south, downhill.
    let mut ball = Ball::new(Pos::new(6, 5), 0);

    step_once(&grid, &mut run, &mut ball);

    assert_eq!(run.outcome, Outcome::Running);
    assert_eq!(ball.cell, Pos::new(6, 4));
    assert_eq!(ball.charge, 1);
}

/// A charge-losing ring completes laps but never meets the guarantee, so it
/// runs on until the battery empties.
#[test]
fn doomed_loop_runs_until_it_explodes() {
    let mut grid = grid();
    for y in 5..8 {
        for x in 5..8 {
            grid.paint(Pos::new(x, y), Cell::Solid);
        }
    }
    let start = grid.find_start().unwrap();

    let mut run = Run::new();
    start_run(&mut run, &grid);
    let mut ball = Ball::new(start, TEST_CHARGE);
    run_for(&grid, &mut run, &mut ball, 500);

    assert!(!run.solved, "a charge-losing ring cannot be solved");
    assert!(run.laps >= 1, "the ball still completed a lap first");
    assert_eq!(run.outcome, Outcome::Depleted);
}

fn box_loop(grid: &mut Grid) {
    for x in 10..=13 {
        for y in 10..=18 {
            if x == 10 || x == 13 || y == 10 || y == 18 {
                grid.paint(Pos::new(x, y), Cell::Solid);
            }
        }
    }
}

/// A loop that meets its charge guarantee is marked solved, but the ball
/// keeps looping (and getting faster) instead of ending the run.
#[test]
fn solved_loop_keeps_running() {
    let mut grid = grid();
    box_loop(&mut grid);
    let start = Pos::new(11, 17);

    let mut run = Run::new();
    start_run(&mut run, &grid);
    let mut ball = Ball::new(start, TEST_CHARGE);

    while run.outcome == Outcome::Running && run.laps < 3 {
        step_once(&grid, &mut run, &mut ball);
    }

    assert!(run.solved, "the box loop should solve");
    assert!(run.laps >= 3, "laps should keep being counted");
    // The step rate that each lap raises is a float kept by the game's frame
    // loop, not by the library, so it is not checked here.
    assert_eq!(run.outcome, Outcome::Running, "a solved loop must keep running");
}

/// An eternal loop eventually overloads and clears the level.
#[test]
fn solved_loop_eventually_wins() {
    let mut grid = grid();
    box_loop(&mut grid);
    let start = Pos::new(11, 17);

    let mut run = Run::new();
    start_run(&mut run, &grid);
    let mut ball = Ball::new(start, TEST_CHARGE);
    run_for(&grid, &mut run, &mut ball, 2000);

    assert!(run.solved, "it must solve before it can overload");
    assert_eq!(run.outcome, Outcome::Victory, "the loop should clear the level");
}

/// A tiny sealed pocket is a two-state cycle, so the `(cell, anchor)` loop
/// condition closes it.
#[test]
fn sealed_pocket_is_a_closed_loop() {
    // A 2-cell vertical cavity in a solid ring.
    let mut grid = grid();
    for solid in [
        Pos::new(77, 79),
        Pos::new(76, 78),
        Pos::new(78, 78),
        Pos::new(76, 77),
        Pos::new(78, 77),
        Pos::new(77, 76),
    ] {
        grid.paint(solid, Cell::Solid);
    }
    let start = Pos::new(77, 78);

    let mut run = Run::new();
    start_run(&mut run, &grid);
    let mut ball = Ball::new(start, 0);
    run_for(&grid, &mut run, &mut ball, 200);

    assert!(run.solved, "the pocket cycle should close");
    assert_eq!(run.outcome, Outcome::Victory);
}

/// A ball walled in with no surface around its anchor is stuck.
#[test]
fn stuck_when_fully_enclosed() {
    let mut grid = grid();
    for offset in neighbors8() {
        grid.set(plus(Pos::new(10, 10), offset), Cell::Solid);
    }

    let mut run = Run::new();
    start_run(&mut run, &grid);
    let mut ball = Ball::new(Pos::new(10, 10), TEST_CHARGE);

    step_once(&grid, &mut run, &mut ball);
    assert_eq!(run.outcome, Outcome::Stuck);
}
