use eternal_game::levels::{is_tutorial, saved_level, Levels};

fn levels(names: &[&str]) -> Levels {
    Levels {
        files: names.iter().map(|name| name.to_string()).collect(),
        current: -1,
    }
}

#[test]
fn tutorial_names_match_in_any_case() {
    assert!(is_tutorial("levels/00_tutorial.txt"));
    assert!(is_tutorial("levels/TUTORIAL_intro.txt"));
    assert!(is_tutorial("levels/a_TuToRiAl"));
    assert!(!is_tutorial("levels/01.txt"));
    assert!(!is_tutorial("levels/tutor.txt"));
    // Only the file name counts, not the directory.
    assert!(!is_tutorial("tutorial/01.txt"));
}

#[test]
fn scan_keeps_text_files_in_order() {
    let list = Levels::scan(vec![
        "levels/02.txt".to_string(),
        "levels/notes.md".to_string(),
        "levels/00_tutorial.txt".to_string(),
        "levels/.txt".to_string(),
        "levels/01.txt".to_string(),
        "levels/readme".to_string(),
    ]);
    assert_eq!(
        list.files,
        vec![
            "levels/00_tutorial.txt".to_string(),
            "levels/01.txt".to_string(),
            "levels/02.txt".to_string()
        ]
    );
    assert_eq!(list.current, -1);
}

#[test]
fn next_game_with_no_levels_is_none() {
    let mut list = levels(&[]);
    assert_eq!(list.next_game(), None);
    assert_eq!(list.current, -1);
}

#[test]
fn next_game_with_only_the_tutorial_is_none() {
    let mut list = levels(&["levels/00_tutorial.txt"]);
    assert_eq!(list.next_game(), None);
    assert_eq!(list.first_game(), None);
    assert_eq!(list.current, 0);
}

#[test]
fn next_game_starts_from_the_first_before_any_is_loaded() {
    let mut list = levels(&["levels/00_tutorial.txt", "levels/01.txt", "levels/02.txt"]);
    assert_eq!(list.next_game(), Some("levels/01.txt".to_string()));
    assert_eq!(list.next_game(), Some("levels/02.txt".to_string()));
    assert_eq!(list.next_game(), Some("levels/01.txt".to_string()));
    assert_eq!(list.current, 1);
}

#[test]
fn label_names_the_loaded_level() {
    let mut list = levels(&["levels/00_tutorial.txt", "levels/01.txt"]);
    assert_eq!(list.label(), "00_tutorial.txt");
    list.current = 1;
    assert_eq!(list.label(), "01.txt");
    list.current = 5;
    assert_eq!(list.label(), "no levels");
    assert_eq!(levels(&[]).label(), "no levels");
}

#[test]
fn saved_level_trims_the_file() {
    assert_eq!(saved_level("  02.txt \n"), Some("02.txt".to_string()));
    assert_eq!(saved_level("\u{3000}01.txt\t"), Some("01.txt".to_string()));
    assert_eq!(saved_level(" \n\t "), None);
    assert_eq!(saved_level(""), None);
}
