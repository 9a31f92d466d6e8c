use eternal_game::menu::{choices, Choice, Menu};

#[test]
fn menu_without_progress_has_no_continue() {
    assert_eq!(choices(false), vec![Choice::NewGame, Choice::Tutorial, Choice::Editor]);
    assert_eq!(Menu::default().selected, 0);
}

#[test]
fn continue_is_first_once_there_is_a_save() {
    assert_eq!(
        choices(true),
        vec![Choice::Continue, Choice::NewGame, Choice::Tutorial, Choice::Editor]
    );
}

#[test]
fn the_menu_shows_the_cursor_on_the_selected_entry() {
    assert_eq!(
        eternal_game::menu::menu_text(true, 1),
        "ETERNAL GAME 02\n\n  Continue Game\n> New Game\n  Tutorial\n  Map Editor\n\nUp/Down or W/S to choose\n1-4 to pick directly   Enter to start"
    );
    // A cursor past the end sits on the last entry.
    assert_eq!(
        eternal_game::menu::menu_text(false, 9),
        "ETERNAL GAME 02\n\n  New Game\n  Tutorial\n> Map Editor\n\nUp/Down or W/S to choose\n1-4 to pick directly   Enter to start"
    );
}
