use eternal_game::ball::Tuning;
use eternal_game::config::{ascii, parse, parse_level, serialize};
use eternal_game::grid::{Cell, Grid, Pos, GRID_H, GRID_W};

fn text(bytes: &[u8]) -> String {
    String::from_utf8(bytes.to_vec()).unwrap()
}

#[test]
fn serialize_writes_the_cropped_board() {
    let mut grid = Grid::new();
    grid.paint(Pos::new(3, 4), Cell::Solid);
    grid.paint(Pos::new(4, 5), Cell::Solid);
    let tuning = Tuning { start_charge: -2, manual: true };
    let out = serialize(&grid, None, &tuning);
    assert_eq!(
        text(&out),
        "# eternal_game_02 config v2\nstart_charge -2\nplace none\norigin 3 4\ngrid 2 2\n.#\n#.\n"
    );
}

#[test]
fn a_blank_board_round_trips() {
    let grid = Grid::new();
    let tuning = Tuning { start_charge: 7, manual: false };
    let out = serialize(&grid, Some(Pos::new(-3, 9)), &tuning);
    assert_eq!(
        text(&out),
        "# eternal_game_02 config v2\nstart_charge 7\nplace -3 9\norigin 0 0\ngrid 1 1\n.\n"
    );
    let (back, place, t) = parse(&out).expect("parses");
    assert_eq!(place, Some(Pos::new(-3, 9)));
    assert_eq!(t.start_charge, 7);
    assert!(!t.manual);
    assert_eq!(back.count(Cell::Solid), 0);
}

#[test]
fn every_cell_survives_a_round_trip() {
    let mut grid = Grid::new();
    for (x, y) in [(0, 0), (159, 119), (80, 3), (81, 4), (12, 100)] {
        grid.paint(Pos::new(x, y), Cell::Solid);
    }
    let tuning = Tuning { start_charge: 123456789012, manual: false };
    let out = serialize(&grid, Some(Pos::new(1, 1)), &tuning);
    let (back, place, t) = parse(&out).expect("parses");
    assert_eq!(place, Some(Pos::new(1, 1)));
    assert_eq!(t.start_charge, 123456789012);
    for y in 0..GRID_H {
        for x in 0..GRID_W {
            assert_eq!(back.get(Pos::new(x, y)), grid.get(Pos::new(x, y)), "cell {x},{y}");
        }
    }
}

#[test]
fn parse_rejects_a_text_without_a_grid_line() {
    assert!(parse(b"start_charge 3\nplace none\n#\n").is_none());
}

#[test]
fn parse_rejects_a_wrong_row_count() {
    assert!(parse(b"grid 1 2\n#\n").is_none());
    assert!(parse(b"grid 1 1\n#\n#\n").is_none());
}

#[test]
fn parse_rejects_a_malformed_header_line() {
    assert!(parse(b"start_charge four\ngrid 1 1\n#\n").is_none());
    assert!(parse(b"place 3\ngrid 1 1\n#\n").is_none());
    assert!(parse(b"origin x 2\ngrid 1 1\n#\n").is_none());
    assert!(parse(b"grid 1 one\n#\n").is_none());
    assert!(parse(b"start_charge 4.5\ngrid 1 1\n#\n").is_none());
}

#[test]
fn parse_reads_comments_blanks_and_legacy_marks() {
    let src = "# comment\n\r\n  \nstart_charge  4.00 \r\nplace  2   3\norigin 10 20\ngrid 3 2\n#+o\r\n.#x\n";
    let (grid, place, t) = parse(src.as_bytes()).expect("parses");
    assert_eq!(place, Some(Pos::new(2, 3)));
    assert_eq!(t.start_charge, 4);
    // Top row first: row y=21 is "#+o", y=20 is ".#x".
    assert_eq!(grid.get(Pos::new(10, 21)), Some(Cell::Solid));
    assert_eq!(grid.get(Pos::new(11, 21)), Some(Cell::Empty));
    assert_eq!(grid.get(Pos::new(12, 21)), Some(Cell::Empty));
    assert_eq!(grid.get(Pos::new(11, 20)), Some(Cell::Solid));
    assert_eq!(grid.count(Cell::Solid), 2);
}

#[test]
fn parse_reads_at_most_the_grid_width() {
    let (grid, _, _) = parse(b"grid 2 1\n###\n").expect("parses");
    assert_eq!(grid.count(Cell::Solid), 2);
    assert_eq!(grid.get(Pos::new(2, 0)), Some(Cell::Empty));
}

#[test]
fn ascii_of_a_blank_board_is_empty() {
    assert!(ascii(&Grid::new(), Some(Pos::new(3, 3))).is_empty());
}

#[test]
fn ascii_frames_the_solids_and_marks_the_ball() {
    let mut grid = Grid::new();
    grid.paint(Pos::new(5, 5), Cell::Solid);
    assert_eq!(text(&ascii(&grid, Some(Pos::new(6, 6)))), "..@\n.#.\n...\n");
    // A marker outside the frame stretches it.
    assert_eq!(text(&ascii(&grid, Some(Pos::new(8, 5)))), ".....\n.#..@\n.....\n");
    assert_eq!(text(&ascii(&grid, None)), "...\n.#.\n...\n");
}

#[test]
fn parse_level_centres_and_locks_the_level() {
    let src = "start_charge 2\nplace 0 1\norigin 0 0\ngrid 2 1\n##\n";
    let (mut grid, place, t) = parse_level(src.as_bytes()).expect("parses");
    assert_eq!(t.start_charge, 2);
    // A 2x1 block at x 0..1, y 0 moves by (79, 60) to the board's centre.
    assert_eq!(grid.content_bounds(), Some((Pos::new(79, 60), Pos::new(80, 60))));
    assert_eq!(place, Some(Pos::new(79, 61)));
    grid.paint(Pos::new(79, 60), Cell::Empty);
    assert_eq!(grid.get(Pos::new(79, 60)), Some(Cell::Solid), "level solids are locked");
    assert!(!grid.has_unlocked_solid());
}

#[test]
fn parse_level_rejects_what_parse_rejects() {
    assert!(parse_level(b"grid 1 2\n#\n").is_none());
}
