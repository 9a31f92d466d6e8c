//! The title menu and the top-level [`Screen`] state.
//!
//! The game starts on the menu:
//!
//! - **Continue Game** resumes the last game level the player loaded,
//! - **New Game** starts at the first non-tutorial level,
//! - **Tutorial** loads the guided level,
//! - **Map Editor** drops you on a blank board with the editor HUD on.
//!
//! `Esc` clears the board and returns to the menu from a game or the editor.
use vstd::prelude::*;
use vstd::string::StringExecFns;

use crate::game::{fresh_run, Session};
use crate::grid::{Cell, GRID_CELLS};
use crate::levels::{file_name_of, tut_at, Levels};
use crate::paint::Mode;
use crate::tutorial::fresh;

verus! {

/// Which top-level screen is showing.
#[derive(Clone, Copy, PartialEq, Eq, Debug, Structural)]
pub enum Screen {
    Menu,
    Game,
    Editor,
}

impl Default for Screen {
    fn default() -> (s: Screen)
        ensures
            s == Screen::Menu,
    {
        Screen::Menu
    }
}

/// A selectable menu entry.
#[derive(Clone, Copy, PartialEq, Eq, Debug, Structural)]
pub enum Choice {
    Continue,
    NewGame,
    Tutorial,
    Editor,
}

/// The text an entry shows.
pub open spec fn choice_label(c: Choice) -> Seq<char> {
    match c {
        Choice::Continue => "Continue Game"@,
        Choice::NewGame => "New Game"@,
        Choice::Tutorial => "Tutorial"@,
        Choice::Editor => "Map Editor"@,
    }
}

impl Choice {
    pub fn label(self) -> (r: &'static str)
        ensures
            r@ == choice_label(self),
    {
        match self {
            Choice::Continue => "Continue Game",
            Choice::NewGame => "New Game",
            Choice::Tutorial => "Tutorial",
            Choice::Editor => "Map Editor",
        }
    }
}

/// The menu entries, in order: Continue only once there is saved progress
/// to resume.
pub open spec fn choice_seq(has_save: bool) -> Seq<Choice> {
    if has_save {
        seq![Choice::Continue, Choice::NewGame, Choice::Tutorial, Choice::Editor]
    } else {
        seq![Choice::NewGame, Choice::Tutorial, Choice::Editor]
    }
}

/// The visible menu entries, in order.
pub fn choices(has_save: bool) -> (items: Vec<Choice>)
    ensures
        items@ == choice_seq(has_save),
{
    let mut items: Vec<Choice> = Vec::new();
    if has_save {
        items.push(Choice::Continue);
    }
    items.push(Choice::NewGame);
    items.push(Choice::Tutorial);
    items.push(Choice::Editor);
    assert(items@ =~= choice_seq(has_save));
    items
}

/// Menu cursor state.
pub struct Menu {
    pub selected: usize,
}

impl Default for Menu {
    fn default() -> (m: Menu)
        ensures
            m.selected == 0,
    {
        Menu { selected: 0 }
    }
}

/// The keys the menu reads in one frame.
#[derive(Clone, Copy, Debug)]
pub struct MenuKeys {
    /// `Esc`.
    pub escape: bool,
    /// Down arrow or `S`.
    pub down: bool,
    /// Up arrow or `W`.
    pub up: bool,
    /// The digit keys `1` to `4`.
    pub digits: [bool; 4],
    /// `Enter` or `Space`.
    pub confirm: bool,
}

/// What the menu decided this frame.
#[derive(Clone, Copy, PartialEq, Eq, Debug, Structural)]
pub enum MenuAction {
    /// Nothing to do.
    Stay,
    /// The board was cleared and the menu is back: reset the view and drop
    /// the ball's sprites.
    Cleared,
    /// Start this entry: the level list is needed, see [`start_choice`].
    Start(Choice),
}

/// The last digit key pressed, as a zero-based entry index.
pub open spec fn direct_pick(digits: Seq<bool>) -> Option<usize> {
    if digits[3] {
        Some(3usize)
    } else if digits[2] {
        Some(2usize)
    } else if digits[1] {
        Some(1usize)
    } else if digits[0] {
        Some(0usize)
    } else {
        None
    }
}

/// The cursor after this frame's keys, over `len` entries: clamped to the
/// list, moved down then up (both wrap), then set by a digit key that names
/// an entry.
pub open spec fn moved_cursor(selected: usize, len: nat, keys: MenuKeys) -> int {
    let s0 = if selected < len - 1 {
        selected as int
    } else {
        len - 1
    };
    let s1 = if keys.down {
        (s0 + 1) % (len as int)
    } else {
        s0
    };
    let s2 = if keys.up {
        (s1 + len - 1) % (len as int)
    } else {
        s1
    };
    match direct_pick(keys.digits@) {
        Some(i) if i < len => i as int,
        _ => s2,
    }
}

/// Move the cursor and confirm a choice; `Esc` clears the board and returns
/// to the menu from a game or the editor.
pub fn menu_input(session: &mut Session, screen: &mut Screen, menu: &mut Menu, keys: MenuKeys) -> (action: MenuAction)
    requires
        old(session).wf(),
    ensures
        final(session).wf(),
        *old(screen) != Screen::Menu ==> if keys.escape {
            &&& action == MenuAction::Cleared
            &&& *final(screen) == Screen::Menu
            &&& final(session).ball is None
            &&& forall|k: int|
                0 <= k < GRID_CELLS ==> final(session).grid.cells@[k] == Cell::Empty
                    && !final(session).grid.locked@[k]
            &&& final(session).grid.dirty
            &&& final(session).placement.start is None
            &&& final(session).tuning.start_charge == 0 && !final(session).tuning.manual
            &&& fresh_run(final(session).run@)
            &&& final(session).mode == Mode::Paint
            &&& !final(session).debug
            &&& final(session).tutorial == fresh(false)
            &&& final(session).progress == old(session).progress
            &&& final(menu).selected == old(menu).selected
        } else {
            action == MenuAction::Stay && *final(screen) == *old(screen) && *final(session) == *old(session)
                && final(menu).selected == old(menu).selected
        },
        *old(screen) == Screen::Menu ==> {
            let items = choice_seq(old(session).progress.saved is Some);
            let sel = moved_cursor(old(menu).selected, items.len(), keys);
            &&& final(menu).selected == sel
            &&& *final(screen) == Screen::Menu
            &&& *final(session) == *old(session)
            &&& action == if keys.confirm || direct_pick(keys.digits@) is Some {
                MenuAction::Start(items[sel])
            } else {
                MenuAction::Stay
            }
        },
{
    if *screen != Screen::Menu {
        if keys.escape {
            session.ball = None;
            session.blank_slate(false);
            *screen = Screen::Menu;
            return MenuAction::Cleared;
        }
        return MenuAction::Stay;
    }
    let items = choices(session.progress.saved.is_some());
    let len = items.len();
    if menu.selected > len - 1 {
        menu.selected = len - 1;
    }
    if keys.down {
        menu.selected = (menu.selected + 1) % len;
    }
    if keys.up {
        menu.selected = (menu.selected + len - 1) % len;
    }
    let direct: Option<usize> = if keys.digits[3] {
        Some(3)
    } else if keys.digits[2] {
        Some(2)
    } else if keys.digits[1] {
        Some(1)
    } else if keys.digits[0] {
        Some(0)
    } else {
        None
    };
    match direct {
        Some(i) => {
            if i < len {
                menu.selected = i;
            }
        },
        None => {},
    }
    if !keys.confirm && direct.is_none() {
        return MenuAction::Stay;
    }
    MenuAction::Start(items[menu.selected])
}

/// The level a confirmed entry starts, from the freshly scanned `levels`:
/// Continue finds the saved level by name (falling back to a new game), New
/// Game takes the first non-tutorial level, Tutorial the tutorial. The Map
/// Editor opens a blank board with the editor HUD on and starts no level;
/// everything else clears the board for the level and switches to the game.
pub fn start_choice(session: &mut Session, screen: &mut Screen, levels: &mut Levels, choice: Choice) -> (path: Option<
    String,
>)
    requires
        old(session).wf(),
        old(levels).files@.len() <= isize::MAX,
    ensures
        final(session).wf(),
        final(levels).files@ == old(levels).files@,
        forall|k: int|
            0 <= k < GRID_CELLS ==> final(session).grid.cells@[k] == Cell::Empty && !final(session).grid.locked@[k],
        final(session).placement.start is None,
        fresh_run(final(session).run@),
        final(session).mode == Mode::Paint,
        final(session).tutorial == fresh(false),
        final(session).progress == old(session).progress,
        final(session).ball == old(session).ball,
        final(session).debug == (choice == Choice::Editor),
        *final(screen) == if choice == Choice::Editor {
            Screen::Editor
        } else {
            Screen::Game
        },
        ({
            let files = old(levels).files@;
            let first_game = exists|i: int| 0 <= i < files.len() && !tut_at(files, i);
            let has_tutorial = exists|i: int| 0 <= i < files.len() && tut_at(files, i);
            let found = match old(session).progress.saved {
                Some(n) => exists|i: int| 0 <= i < files.len() && file_name_of(files[i]@) == Some(n@),
                None => false,
            };
            match choice {
                Choice::Editor => path is None && final(levels).current == old(levels).current,
                Choice::NewGame => (path is Some <==> first_game) && (path matches Some(p) ==> {
                    &&& 0 <= final(levels).current < files.len()
                    &&& p == files[final(levels).current as int]
                    &&& !tut_at(files, final(levels).current as int)
                    &&& forall|j: int| 0 <= j < final(levels).current ==> tut_at(files, j)
                }),
                Choice::Tutorial => (path is Some <==> has_tutorial) && (path matches Some(p) ==> {
                    &&& 0 <= final(levels).current < files.len()
                    &&& p == files[final(levels).current as int]
                    &&& tut_at(files, final(levels).current as int)
                    &&& forall|j: int| 0 <= j < final(levels).current ==> !tut_at(files, j)
                }),
                Choice::Continue => (path is Some <==> (found || first_game)) && (path matches Some(p) ==> {
                    &&& 0 <= final(levels).current < files.len()
                    &&& p == files[final(levels).current as int]
                    &&& if found {
                        &&& file_name_of(p@) == Some(old(session).progress.saved->0@)
                        &&& forall|j: int|
                            0 <= j < final(levels).current ==> file_name_of(files[j]@) != Some(
                                old(session).progress.saved->0@,
                            )
                    } else {
                        &&& !tut_at(files, final(levels).current as int)
                        &&& forall|j: int| 0 <= j < final(levels).current ==> tut_at(files, j)
                    }
                }),
            }
        }),
{
    let path = match choice {
        Choice::Continue => {
            let by_name = match &session.progress.saved {
                Some(name) => levels.find(name.as_str()),
                None => None,
            };
            match by_name {
                Some(p) => Some(p),
                None => levels.first_game(),
            }
        },
        Choice::NewGame => levels.first_game(),
        Choice::Tutorial => levels.tutorial(),
        Choice::Editor => None,
    };
    if choice == Choice::Editor {
        session.blank_slate(true);
        *screen = Screen::Editor;
        return None;
    }
    session.blank_slate(false);
    *screen = Screen::Game;
    path
}

/// The menu's lines from entry `i` on: a cursor mark on the selected one,
/// then the label.
pub open spec fn menu_lines(items: Seq<Choice>, selected: int, i: int) -> Seq<char>
    decreases items.len() - i,
{
    if i >= items.len() || i < 0 {
        Seq::empty()
    } else {
        (if i == selected {
            "> "@
        } else {
            "  "@
        }) + choice_label(items[i]) + "\n"@ + menu_lines(items, selected, i + 1)
    }
}

/// The whole menu text: the title, the entries with the cursor on the
/// selected one (kept within the list), and the key help.
pub open spec fn menu_text_spec(has_save: bool, selected: usize) -> Seq<char> {
    let items = choice_seq(has_save);
    let sel = if selected < items.len() - 1 {
        selected as int
    } else {
        items.len() - 1
    };
    "ETERNAL GAME 02\n\n"@ + menu_lines(items, sel, 0) + "\nUp/Down or W/S to choose\n1-4 to pick directly   Enter to start"@
}

/// Render the menu.
pub fn menu_text(has_save: bool, selected: usize) -> (r: String)
    ensures
        r@ == menu_text_spec(has_save, selected),
{
    let items = choices(has_save);
    let len = items.len();
    let sel = if selected < len - 1 {
        selected
    } else {
        len - 1
    };
    let mut body = String::from_str("ETERNAL GAME 02\n\n");
    let ghost head = body@;
    let mut i: usize = 0;
    while i < len
        invariant
            items@ == choice_seq(has_save),
            len == items@.len(),
            i <= len,
            sel < len,
            head == "ETERNAL GAME 02\n\n"@,
            body@ + menu_lines(items@, sel as int, i as int) == head + menu_lines(items@, sel as int, 0),
        decreases len - i,
    {
        let ghost before = body@;
        if i == sel {
            body.append("> ");
        } else {
            body.append("  ");
        }
        body.append(items[i].label());
        body.append("\n");
        proof {
            let mark = if i == sel {
                "> "@
            } else {
                "  "@
            };
            let rest = menu_lines(items@, sel as int, i + 1);
            assert(menu_lines(items@, sel as int, i as int) == mark + choice_label(items@[i as int]) + "\n"@ + rest);
            assert(before + (mark + choice_label(items@[i as int]) + "\n"@ + rest) =~= body@ + rest);
        }
        i = i + 1;
    }
    body.append("\nUp/Down or W/S to choose\n1-4 to pick directly   Enter to start");
    proof {
        assert(menu_lines(items@, sel as int, len as int) == Seq::<char>::empty());
        assert(body@ =~= menu_text_spec(has_save, selected));
    }
    body
}

/// Continue is offered exactly when there is saved progress, and then it
/// comes first; the other entries keep their order.
pub proof fn continue_first_iff_saved(has_save: bool)
    ensures
        (choice_seq(has_save)[0] == Choice::Continue) == has_save,
        choice_seq(has_save).contains(Choice::Continue) == has_save,
        choice_seq(has_save).len() == if has_save {
            4nat
        } else {
            3nat
        },
        choice_seq(has_save).subrange(choice_seq(has_save).len() - 3, choice_seq(has_save).len() as int) == seq![
            Choice::NewGame,
            Choice::Tutorial,
            Choice::Editor,
        ],
{
    let s = choice_seq(has_save);
    if !has_save {
        assert forall|i: int| 0 <= i < s.len() implies s[i] != Choice::Continue by {
        }
    } else {
        assert(s[0] == Choice::Continue);
    }
    assert(s.subrange(s.len() - 3, s.len() as int) =~= seq![Choice::NewGame, Choice::Tutorial, Choice::Editor]);
}

/// The menu cursor always lands on an entry.
pub proof fn cursor_stays_on_the_menu(selected: usize, has_save: bool, keys: MenuKeys)
    ensures
        0 <= moved_cursor(selected, choice_seq(has_save).len(), keys) < choice_seq(has_save).len(),
{
}

/// The cursor mark before entry `i` when entry `s` is selected.
pub open spec fn mark(i: int, s: int) -> Seq<char> {
    if i == s {
        "> "@
    } else {
        "  "@
    }
}

/// The drawn menu lists the entries in order, one per line, with `> ` before
/// the selected one and two spaces before every other; a cursor past the end
/// marks the last entry.
proof fn lemma_lines_with_save(s: int) -> (l: Seq<char>)
    ensures
        l == menu_lines(choice_seq(true), s, 0),
        l =~= mark(0, s) + "Continue Game"@ + "\n"@ + mark(1, s) + "New Game"@ + "\n"@ + mark(2, s) + "Tutorial"@
            + "\n"@ + mark(3, s) + "Map Editor"@ + "\n"@,
{
    let items = choice_seq(true);
    reveal_with_fuel(menu_lines, 5);
    let l3 = mark(3, s) + "Map Editor"@ + "\n"@;
    let l2 = mark(2, s) + "Tutorial"@ + "\n"@ + l3;
    let l1 = mark(1, s) + "New Game"@ + "\n"@ + l2;
    let l0 = mark(0, s) + "Continue Game"@ + "\n"@ + l1;
    assert(menu_lines(items, s, 4) == Seq::<char>::empty());
    assert(menu_lines(items, s, 3) =~= l3);
    assert(menu_lines(items, s, 2) =~= l2);
    assert(menu_lines(items, s, 1) =~= l1);
    assert(menu_lines(items, s, 0) =~= l0);
    menu_lines(items, s, 0)
}

proof fn lemma_lines_without_save(s: int) -> (l: Seq<char>)
    ensures
        l == menu_lines(choice_seq(false), s, 0),
        l =~= mark(0, s) + "New Game"@ + "\n"@ + mark(1, s) + "Tutorial"@ + "\n"@ + mark(2, s) + "Map Editor"@
            + "\n"@,
{
    let items = choice_seq(false);
    reveal_with_fuel(menu_lines, 4);
    let l2 = mark(2, s) + "Map Editor"@ + "\n"@;
    let l1 = mark(1, s) + "Tutorial"@ + "\n"@ + l2;
    let l0 = mark(0, s) + "New Game"@ + "\n"@ + l1;
    assert(menu_lines(items, s, 3) == Seq::<char>::empty());
    assert(menu_lines(items, s, 2) =~= l2);
    assert(menu_lines(items, s, 1) =~= l1);
    assert(menu_lines(items, s, 0) =~= l0);
    menu_lines(items, s, 0)
}

pub proof fn the_cursor_marks_the_selected_entry(has_save: bool, selected: usize)
    ensures
        ({
            let title = "ETERNAL GAME 02\n\n"@;
            let help = "\nUp/Down or W/S to choose\n1-4 to pick directly   Enter to start"@;
            if has_save {
                let s = if selected < 4 {
                    selected as int
                } else {
                    3
                };
                menu_text_spec(true, selected) == title + (mark(0, s) + "Continue Game"@ + "\n"@ + mark(1, s)
                    + "New Game"@ + "\n"@ + mark(2, s) + "Tutorial"@ + "\n"@ + mark(3, s) + "Map Editor"@ + "\n"@)
                    + help
            } else {
                let s = if selected < 3 {
                    selected as int
                } else {
                    2
                };
                menu_text_spec(false, selected) == title + (mark(0, s) + "New Game"@ + "\n"@ + mark(1, s)
                    + "Tutorial"@ + "\n"@ + mark(2, s) + "Map Editor"@ + "\n"@) + help
            }
        }),
{
    if has_save {
        let s = if selected < 4 {
            selected as int
        } else {
            3
        };
        lemma_lines_with_save(s);
    } else {
        let s = if selected < 3 {
            selected as int
        } else {
            2
        };
        lemma_lines_without_save(s);
    }
}

/// Without a digit key, `Down` moves the cursor to the next entry and wraps
/// from the last to the first, `Up` moves it to the previous entry and wraps
/// from the first to the last, and with neither (or both) it stays put (a
/// cursor past the end first comes back to the last entry). A digit key
/// naming an entry selects that entry, whatever else is pressed.
pub proof fn arrows_step_through_the_entries(selected: usize, has_save: bool, keys: MenuKeys)
    ensures
        ({
            let len = choice_seq(has_save).len() as int;
            let at = if selected < len {
                selected as int
            } else {
                len - 1
            };
            let next = moved_cursor(selected, choice_seq(has_save).len(), keys);
            &&& direct_pick(keys.digits@) is None && keys.down && !keys.up ==> next == if at == len - 1 {
                0
            } else {
                at + 1
            }
            &&& direct_pick(keys.digits@) is None && keys.up && !keys.down ==> next == if at == 0 {
                len - 1
            } else {
                at - 1
            }
            &&& direct_pick(keys.digits@) is None && keys.up == keys.down ==> next == at
            &&& direct_pick(keys.digits@) is Some && direct_pick(keys.digits@)->0 < len ==> next == direct_pick(
                keys.digits@,
            )->0
        }),
{
    if has_save {
        assert(choice_seq(has_save).len() == 4);
    } else {
        assert(choice_seq(has_save).len() == 3);
    }
}

} // verus!
