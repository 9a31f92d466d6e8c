use eternal_game::ball::Tuning;
use eternal_game::config::{parse, serialize};
use eternal_game::grid::{Cell, Grid, Pos};
use eternal_game::levels::Levels;

#[test]
fn config_round_trips() {
    let mut grid = Grid::new();
    for y in 10..20 {
        grid.paint(Pos::new(20, y), Cell::Solid);
    }
    let tuning = Tuning { start_charge: 4, manual: false };
    let text = serialize(&grid, Some(Pos::new(19, 20)), &tuning);
    let shown = String::from_utf8(text.clone()).unwrap();
    // Cropped to the shape, not the whole 160x120 board.
    assert!(shown.lines().count() < 20, "should be cropped:\n{shown}");

    let (back, place, loaded_tuning) = parse(&text).expect("parses");
    assert_eq!(place, Some(Pos::new(19, 20)));
    assert_eq!(loaded_tuning.start_charge, 4);
    assert_eq!(back.get(Pos::new(20, 15)), Some(Cell::Solid));
    assert!(back.is_open(Pos::new(19, 15)));
}

fn levels(names: &[&str]) -> Levels {
    Levels {
        files: names.iter().map(|name| name.to_string()).collect(),
        current: -1,
    }
}

fn path(name: &str) -> Option<String> {
    Some(name.to_string())
}

#[test]
fn new_game_skips_the_tutorial() {
    let mut list = levels(&["levels/00_tutorial.txt", "levels/01.txt", "levels/02.txt"]);
    assert_eq!(list.first_game(), path("levels/01.txt"));
    assert_eq!(list.current, 1);
}

#[test]
fn tutorial_finds_the_tutorial_level() {
    let mut list = levels(&["levels/00_tutorial.txt", "levels/01.txt"]);
    assert_eq!(list.tutorial(), path("levels/00_tutorial.txt"));
    assert_eq!(list.current, 0);
}

#[test]
fn tab_skips_the_tutorial_and_wraps() {
    let mut list = levels(&["levels/00_tutorial.txt", "levels/01.txt", "levels/02.txt"]);
    list.current = 2; // sitting on the last level
    // Wrapping forward must not land on the tutorial.
    assert_eq!(list.next_game(), path("levels/01.txt"));
}

#[test]
fn next_game_after_stops_at_the_last_level() {
    let mut list = levels(&["levels/00_tutorial.txt", "levels/01.txt", "levels/02.txt"]);
    // From the tutorial, the next game level is 01.
    list.current = 0;
    assert_eq!(list.next_game_after(), path("levels/01.txt"));
    // From the middle it finds 02, and then there is nothing after it.
    assert_eq!(list.next_game_after(), path("levels/02.txt"));
    assert_eq!(list.next_game_after(), None);
    assert_eq!(list.current, 2);
}

#[test]
fn continue_finds_a_level_by_file_name() {
    let mut list = levels(&["levels/00_tutorial.txt", "levels/01.txt", "levels/02.txt"]);
    assert_eq!(list.find("02.txt"), path("levels/02.txt"));
    assert_eq!(list.current, 2);
    assert_eq!(list.find("missing.txt"), None);
}

/// The smallest saved config: one solid cell at the origin, no placed start,
/// no starting charge. (The texture handle that the game hands the loaded
/// board lives in the frame loop, not in the library.)
#[test]
fn parse_reads_the_one_cell_config() {
    let text = b"# eternal_game_02 config v2\nstart_charge 0\nplace none\norigin 0 0\ngrid 1 1\n#\n";
    let (grid, place, tuning) = parse(text).expect("parses");
    assert!(grid.is_solid(Pos::new(0, 0)));
    assert_eq!(grid.count(Cell::Solid), 1);
    assert_eq!(place, None);
    assert_eq!(tuning.start_charge, 0);
}
