use eternal_game::ball::{plan_arrows, ArrowLog, Run, Tuning};
use eternal_game::explosion::{burst_cells, detonation_step, BlastPhase};
use eternal_game::grid::{Cell, Grid, Pos};
use eternal_game::paint::{paint, place_start, sync_image, Brush, Mode, Placement};
use eternal_game::rain::Rng;
use eternal_game::tutorial::{track_tutorial, Tutorial, TutorialKeys, TutorialMemory};

fn no_keys() -> TutorialKeys {
    TutorialKeys { space: false, tab: false, exit: false, pan: false, speed: false, scrolled: false }
}

#[test]
fn a_drag_paints_a_continuous_line() {
    let mut grid = Grid::new();
    let mut brush = Brush::new();
    paint(&mut grid, &mut brush, false, true, false, Some(Pos::new(2, 2)));
    paint(&mut grid, &mut brush, false, true, false, Some(Pos::new(6, 2)));
    assert_eq!(grid.count(Cell::Solid), 5);
    // Releasing the button ends the stroke.
    paint(&mut grid, &mut brush, false, false, false, Some(Pos::new(6, 9)));
    assert!(brush.last.is_none());
    paint(&mut grid, &mut brush, false, true, false, Some(Pos::new(6, 9)));
    assert_eq!(grid.count(Cell::Solid), 6);
    // Erasing wins over drawing; `C` clears.
    paint(&mut grid, &mut brush, false, true, true, Some(Pos::new(6, 9)));
    assert_eq!(grid.count(Cell::Solid), 5);
    paint(&mut grid, &mut brush, true, false, false, None);
    assert_eq!(grid.count(Cell::Solid), 0);
}

#[test]
fn middle_click_places_the_ball_on_an_open_cell() {
    let mut grid = Grid::new();
    grid.paint(Pos::new(5, 5), Cell::Solid);
    let mut placement = Placement::new();
    assert_eq!(place_start(&mut placement, &grid, Mode::Paint, false, true, Some(Pos::new(9, 9))), None);
    assert_eq!(placement.start, None);
    assert_eq!(
        place_start(&mut placement, &grid, Mode::Paint, false, true, Some(Pos::new(6, 6))),
        Some(Pos::new(6, 6))
    );
    assert_eq!(place_start(&mut placement, &grid, Mode::Run, false, false, None), None);
    assert_eq!(placement.start, Some(Pos::new(6, 6)));
    assert_eq!(place_start(&mut placement, &grid, Mode::Paint, true, false, None), None);
    assert_eq!(placement.start, None);
}

#[test]
fn the_texture_is_written_top_row_first() {
    let mut grid = Grid::new();
    grid.paint(Pos::new(0, 0), Cell::Solid);
    let mut data = vec![9u8; 160 * 120 * 4 + 2];
    sync_image(&mut grid, &mut data);
    assert!(!grid.dirty);
    // Board row 0 is the image's last row.
    let bottom_left = (119 * 160) * 4;
    assert_eq!(&data[bottom_left..bottom_left + 4], &[104, 112, 130, 255]);
    assert_eq!(&data[0..4], &[0, 0, 0, 0]);
    assert_eq!(&data[160 * 120 * 4..], &[9, 9]);
    // Nothing changed since: no blit.
    data[0] = 7;
    sync_image(&mut grid, &mut data);
    assert_eq!(data[0], 7);
    // A texture that is too small is left alone and the board stays dirty.
    grid.paint(Pos::new(1, 1), Cell::Solid);
    let mut small = vec![1u8; 8];
    sync_image(&mut grid, &mut small);
    assert!(grid.dirty);
    assert_eq!(small, vec![1u8; 8]);
}

#[test]
fn tutorial_sees_a_nudge_only_when_the_ball_moves() {
    let grid = Grid::new();
    let mut run = Run::new();
    let tuning = Tuning::new();
    let mut tutorial = Tutorial::default();
    tutorial.set_level(true);
    let mut memory = TutorialMemory::new();
    let tab = TutorialKeys { tab: true, ..no_keys() };
    track_tutorial(&mut tutorial, &mut memory, tab, Mode::Run, &grid, &run, &tuning);
    assert!(!tutorial.stepped, "entering run mode is not a step");
    run.itinerary.push(eternal_game::ball::MoveRecord {
        cell: Pos::new(0, 0),
        dir: Pos::new(1, 0),
        combo: false,
        charge: -1,
    });
    track_tutorial(&mut tutorial, &mut memory, tab, Mode::Run, &grid, &run, &tuning);
    assert!(tutorial.stepped);
    let exit = TutorialKeys { exit: true, ..no_keys() };
    track_tutorial(&mut tutorial, &mut memory, exit, Mode::Paint, &grid, &run, &tuning);
    assert!(tutorial.exited, "E leaving run mode counts");
    let space = TutorialKeys { space: true, ..no_keys() };
    track_tutorial(&mut tutorial, &mut memory, space, Mode::Run, &grid, &run, &tuning);
    assert!(tutorial.rolled && !tutorial.paused);
}

#[test]
fn bursts_sample_a_big_level() {
    let mut grid = Grid::new();
    grid.paint(Pos::new(3, 1), Cell::Solid);
    grid.paint(Pos::new(1, 2), Cell::Solid);
    assert_eq!(burst_cells(&grid), vec![Pos::new(3, 1), Pos::new(1, 2)]);
    for y in 0..10 {
        for x in 0..50 {
            grid.paint(Pos::new(x, y), Cell::Solid);
        }
    }
    // 500 solids sampled every second cell.
    let cells = burst_cells(&grid);
    assert_eq!(cells.len(), 250);
    assert_eq!(cells[1], Pos::new(2, 0));
}

#[test]
fn rng_draws_24_bits() {
    let mut rng = Rng::default();
    let first = rng.next_bits();
    let state = 0x9E37_79B9u32.wrapping_mul(1664525).wrapping_add(1013904223);
    assert_eq!(rng.state, state);
    assert_eq!(first, (state >> 8) & 0x00FF_FFFF);
    assert!(rng.next_bits() < 1 << 24);
}

#[test]
fn arrows_follow_the_itinerary() {
    let mut log = ArrowLog { front: 0, next: 0 };
    let plan = plan_arrows(&mut log, 3, 3);
    assert_eq!(plan.spawn, vec![0, 1, 2]);
    assert_eq!(plan.drop, 0);
    // Two more moves, and the oldest two fell off a three-move itinerary.
    let plan = plan_arrows(&mut log, 5, 3);
    assert_eq!(plan.drop, 2);
    assert_eq!(plan.spawn, vec![1, 2]);
    assert_eq!((log.front, log.next), (2, 5));
    let plan = plan_arrows(&mut log, 0, 0);
    assert!(plan.clear_all);
    assert_eq!((log.front, log.next), (0, 0));
}

/// The victory blast starts on a won run, burns while the board redraws,
/// wipes the level when it burns out, and is called off when the run is not
/// won.
#[test]
fn the_victory_blast_wipes_the_level_once_burnt_out() {
    let mut grid = Grid::new();
    grid.set(Pos::new(3, 3), Cell::Solid);
    grid.lock_solids();
    grid.dirty = false;

    assert_eq!(detonation_step(BlastPhase::Idle, false, false, &mut grid), BlastPhase::Idle);
    assert!(!grid.dirty);
    let phase = detonation_step(BlastPhase::Idle, true, false, &mut grid);
    assert_eq!(phase, BlastPhase::Blasting);
    let phase = detonation_step(phase, true, false, &mut grid);
    assert_eq!(phase, BlastPhase::Blasting);
    assert!(grid.dirty);
    assert!(grid.is_solid(Pos::new(3, 3)));
    let phase = detonation_step(phase, true, true, &mut grid);
    assert_eq!(phase, BlastPhase::Complete);
    assert_eq!(grid.count(Cell::Solid), 0);
    assert_eq!(detonation_step(phase, true, true, &mut grid), BlastPhase::Complete);

    grid.dirty = false;
    assert_eq!(detonation_step(BlastPhase::Blasting, false, false, &mut grid), BlastPhase::Idle);
    assert!(grid.dirty);
}
