use eternal_game::ball::Outcome;
use eternal_game::game::{end_of_run, replay_steps, Session};
use eternal_game::grid::{Cell, Pos};
use eternal_game::menu::{menu_input, start_choice, Choice, Menu, MenuAction, MenuKeys, Screen};
use eternal_game::levels::Levels;
use eternal_game::paint::Mode;

const LEVEL: &str = "start_charge 5\nplace none\norigin 0 0\ngrid 3 1\n###\n";

fn keys() -> MenuKeys {
    MenuKeys { escape: false, down: false, up: false, digits: [false; 4], confirm: false }
}

#[test]
fn entering_run_mode_drops_a_ball_on_the_start() {
    let mut s = Session::new();
    s.grid.paint(Pos::new(5, 5), Cell::Solid);
    s.tuning.start_charge = 3;
    s.handle_mode(false);
    assert_eq!(s.mode, Mode::Paint);
    s.handle_mode(true);
    assert_eq!(s.mode, Mode::Run);
    let ball = s.ball.expect("a ball");
    assert_eq!(ball.cell, Pos::new(4, 6));
    assert_eq!(ball.charge, 3);
    assert_eq!(s.run.components.len(), 160 * 120);
    s.handle_mode(true);
    assert_eq!(s.mode, Mode::Paint);
    assert!(s.ball.is_none());
}

#[test]
fn a_placed_start_wins_while_it_is_open() {
    let mut s = Session::new();
    s.grid.paint(Pos::new(5, 5), Cell::Solid);
    s.placement.start = Some(Pos::new(6, 4));
    s.handle_mode(true);
    assert_eq!(s.ball.unwrap().cell, Pos::new(6, 4));
    s.handle_mode(true);
    s.placement.start = Some(Pos::new(30, 30));
    s.handle_mode(true);
    assert_eq!(s.ball.unwrap().cell, Pos::new(4, 6));
}

#[test]
fn run_mode_on_a_blank_board_has_no_ball() {
    let mut s = Session::new();
    s.handle_mode(true);
    assert_eq!(s.mode, Mode::Run);
    assert!(s.ball.is_none());
}

#[test]
fn loading_a_game_level_saves_progress() {
    let mut s = Session::new();
    s.mode = Mode::Run;
    assert_eq!(s.load_level("levels/01.txt", LEVEL.as_bytes()), Some(false));
    assert_eq!(s.mode, Mode::Paint);
    assert_eq!(s.tuning.start_charge, 5);
    assert_eq!(s.progress.saved, Some("01.txt".to_string()));
    assert!(!s.tutorial.active);
    assert_eq!(s.grid.count(Cell::Solid), 3);
}

#[test]
fn loading_the_tutorial_keeps_progress() {
    let mut s = Session::new();
    s.progress.saved = Some("02.txt".to_string());
    assert_eq!(s.load_level("levels/00_tutorial.txt", LEVEL.as_bytes()), Some(true));
    assert!(s.tutorial.active);
    assert_eq!(s.progress.saved, Some("02.txt".to_string()));
}

#[test]
fn a_broken_level_changes_nothing() {
    let mut s = Session::new();
    s.tuning.start_charge = 9;
    assert_eq!(s.load_level("levels/01.txt", b"grid 1 2\n#\n"), None);
    assert_eq!(s.tuning.start_charge, 9);
    assert_eq!(s.progress.saved, None);
}

#[test]
fn a_debug_config_is_applied_unlocked() {
    let mut s = Session::new();
    assert!(s.apply_config(b"start_charge 1\nplace 1 2\norigin 4 4\ngrid 1 1\n#\n"));
    assert_eq!(s.placement.start, Some(Pos::new(1, 2)));
    assert_eq!(s.grid.get(Pos::new(4, 4)), Some(Cell::Solid));
    assert!(s.grid.has_unlocked_solid());
    assert!(!s.apply_config(b"nonsense"));
}

#[test]
fn blank_slate_clears_the_board() {
    let mut s = Session::new();
    s.grid.paint(Pos::new(1, 1), Cell::Solid);
    s.tuning.start_charge = 4;
    s.mode = Mode::Run;
    s.blank_slate(true);
    assert_eq!(s.grid.count(Cell::Solid), 0);
    assert_eq!(s.tuning.start_charge, 0);
    assert_eq!(s.mode, Mode::Paint);
    assert!(s.debug);
}

#[test]
fn stepping_moves_the_ball() {
    let mut s = Session::new();
    for x in 5..=9 {
        s.grid.paint(Pos::new(x, 5), Cell::Solid);
    }
    s.tuning.start_charge = 10;
    s.handle_mode(true);
    s.step_ball(3);
    assert_eq!(s.ball.unwrap().cell, Pos::new(7, 6));
    assert_eq!(s.run.total_moves, 3);
    s.tuning.manual = true;
    s.step_ball(3);
    assert_eq!(s.run.total_moves, 3, "manual mode waits for a key");
    s.manual_step(false, true);
    assert_eq!(s.run.total_moves, 4);
    s.manual_step(false, false);
    assert_eq!(s.run.total_moves, 4);
    s.run.just_entered = true;
    s.manual_step(true, false);
    assert_eq!(s.run.total_moves, 4, "the first press only takes control");
    assert!(!s.run.just_entered);
    s.manual_step(true, false);
    assert_eq!(s.run.total_moves, 5);
}

#[test]
fn start_charge_tuning_needs_the_debug_keys() {
    let mut s = Session::new();
    s.tune_start_charge(false, true, true);
    assert_eq!(s.tuning.start_charge, 0);
    assert!(!s.tuning.manual);
    s.debug = true;
    s.tune_start_charge(false, true, true);
    assert_eq!(s.tuning.start_charge, 1);
    assert!(s.tuning.manual);
    s.tune_start_charge(true, false, false);
    s.tune_start_charge(true, false, false);
    assert_eq!(s.tuning.start_charge, 0);
    assert_eq!(s.charge_readout(), 0);
}

#[test]
fn an_ending_fires_once() {
    let mut fired = false;
    assert!(!end_of_run(Outcome::Running, &mut fired));
    assert!(end_of_run(Outcome::Depleted, &mut fired));
    assert!(!end_of_run(Outcome::Depleted, &mut fired));
    assert!(!end_of_run(Outcome::Running, &mut fired));
    assert!(end_of_run(Outcome::Victory, &mut fired));
}

#[test]
fn replay_records_every_step() {
    let mut s = Session::new();
    for x in 5..=9 {
        s.grid.paint(Pos::new(x, 5), Cell::Solid);
    }
    let (steps, run, ball) = replay_steps(&s.grid, Pos::new(5, 6), 2, 10);
    // Two level moves use up the charge; the third cannot be paid, and the
    // ball stays put.
    assert_eq!(steps.len(), 3);
    assert_eq!(steps[0].from, Pos::new(5, 6));
    assert_eq!(steps[0].ball.cell, Pos::new(6, 6));
    assert_eq!(steps[1].ball.cell, Pos::new(7, 6));
    assert_eq!(steps[2].from, Pos::new(7, 6));
    assert_eq!(steps[2].ball.cell, Pos::new(7, 6));
    assert_eq!(ball.charge, 0);
    assert_eq!(run.outcome, Outcome::Depleted);
}

#[test]
fn menu_moves_and_wraps() {
    let mut s = Session::new();
    let mut screen = Screen::Menu;
    let mut menu = Menu::default();
    let down = MenuKeys { down: true, ..keys() };
    let up = MenuKeys { up: true, ..keys() };
    assert_eq!(menu_input(&mut s, &mut screen, &mut menu, down), MenuAction::Stay);
    assert_eq!(menu.selected, 1);
    menu_input(&mut s, &mut screen, &mut menu, up);
    menu_input(&mut s, &mut screen, &mut menu, up);
    assert_eq!(menu.selected, 2, "up from the top wraps to the bottom");
    let confirm = MenuKeys { confirm: true, ..keys() };
    assert_eq!(menu_input(&mut s, &mut screen, &mut menu, confirm), MenuAction::Start(Choice::Editor));
    let mut digits = keys();
    digits.digits[1] = true;
    assert_eq!(menu_input(&mut s, &mut screen, &mut menu, digits), MenuAction::Start(Choice::Tutorial));
    assert_eq!(menu.selected, 1);
    // A digit past the list still confirms the current entry.
    let mut four = keys();
    four.digits[3] = true;
    assert_eq!(menu_input(&mut s, &mut screen, &mut menu, four), MenuAction::Start(Choice::Tutorial));
}

#[test]
fn escape_returns_to_the_menu() {
    let mut s = Session::new();
    s.grid.paint(Pos::new(1, 1), Cell::Solid);
    let mut screen = Screen::Game;
    let mut menu = Menu::default();
    assert_eq!(menu_input(&mut s, &mut screen, &mut menu, keys()), MenuAction::Stay);
    assert_eq!(screen, Screen::Game);
    let esc = MenuKeys { escape: true, ..keys() };
    assert_eq!(menu_input(&mut s, &mut screen, &mut menu, esc), MenuAction::Cleared);
    assert_eq!(screen, Screen::Menu);
    assert_eq!(s.grid.count(Cell::Solid), 0);
}

#[test]
fn choices_start_the_right_level() {
    let files = vec![
        "levels/00_tutorial.txt".to_string(),
        "levels/01.txt".to_string(),
        "levels/02.txt".to_string(),
    ];
    let mut s = Session::new();
    let mut screen = Screen::Menu;
    let mut list = Levels { files: files.clone(), current: -1 };
    assert_eq!(start_choice(&mut s, &mut screen, &mut list, Choice::NewGame), Some("levels/01.txt".to_string()));
    assert_eq!(screen, Screen::Game);
    s.progress.saved = Some("02.txt".to_string());
    let mut list = Levels { files: files.clone(), current: -1 };
    assert_eq!(start_choice(&mut s, &mut screen, &mut list, Choice::Continue), Some("levels/02.txt".to_string()));
    s.progress.saved = Some("gone.txt".to_string());
    let mut list = Levels { files: files.clone(), current: -1 };
    assert_eq!(start_choice(&mut s, &mut screen, &mut list, Choice::Continue), Some("levels/01.txt".to_string()));
    let mut list = Levels { files: files.clone(), current: -1 };
    assert_eq!(start_choice(&mut s, &mut screen, &mut list, Choice::Tutorial), Some("levels/00_tutorial.txt".to_string()));
    assert_eq!(start_choice(&mut s, &mut screen, &mut list, Choice::Editor), None);
    assert_eq!(screen, Screen::Editor);
    assert!(s.debug);
}

/// A replay records one step per step taken: a ball with nothing to roll on
/// takes a single, stuck step; a ball on a long ledge uses the whole budget.
#[test]
fn replay_stops_with_the_run_or_the_budget() {
    let s = Session::new();
    let (steps, run, _) = replay_steps(&s.grid, Pos::new(5, 6), 0, 10);
    assert_eq!(steps.len(), 1);
    assert_eq!(steps[0].ball.cell, Pos::new(5, 6));
    assert_eq!(run.outcome, Outcome::Stuck);

    let mut s = Session::new();
    for x in 5..=40 {
        s.grid.paint(Pos::new(x, 5), Cell::Solid);
    }
    let (steps, run, _) = replay_steps(&s.grid, Pos::new(5, 6), 20, 4);
    assert_eq!(steps.len(), 4);
    assert_eq!(run.total_moves, 4);
    assert_eq!(run.outcome, Outcome::Running);
}
