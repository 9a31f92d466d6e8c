use eternal_game::tutorial::{objectives, Observed, Tutorial};

fn active() -> Tutorial {
    Tutorial {
        active: true,
        ..Tutorial::default()
    }
}

fn all() -> Observed {
    Observed {
        drawn: true,
        stepped: true,
        rolled: true,
        paused: true,
        exited: true,
        zoomed: true,
        panned: true,
        speed_changed: true,
        looped: true,
    }
}

#[test]
fn objectives_latch_independently() {
    let mut tutorial = active();

    // Only scroll: exactly that box is ticked, nothing else.
    tutorial.observe(Observed {
        zoomed: true,
        ..Observed::default()
    });
    assert_eq!(
        tutorial.flags(),
        [false, false, false, false, true, false, false, false, false]
    );
    assert!(!tutorial.complete());

    // Looping before the run controls still latches.
    tutorial.observe(Observed {
        looped: true,
        ..Observed::default()
    });
    assert_eq!(
        tutorial.flags(),
        [false, false, false, false, true, false, false, true, false]
    );
}

#[test]
fn each_action_latches_its_own_objective() {
    let none = Observed::default();
    // (observed action, index in the objectives it should tick)
    let cases: [(Observed, usize); 9] = [
        (Observed { drawn: true, ..none }, 0),
        (Observed { stepped: true, ..none }, 1),
        (Observed { rolled: true, ..none }, 2),
        (Observed { paused: true, ..none }, 3),
        (Observed { zoomed: true, ..none }, 4),
        (Observed { panned: true, ..none }, 5),
        (Observed { speed_changed: true, ..none }, 6),
        (Observed { looped: true, ..none }, 7),
        (Observed { exited: true, ..none }, 8),
    ];

    for (observed, expected) in cases {
        let mut tutorial = active();
        tutorial.observe(observed);
        for (i, done) in tutorial.flags().iter().enumerate() {
            assert_eq!(
                *done,
                i == expected,
                "objective {i} ({}) latched by the wrong action",
                objectives()[i]
            );
        }
    }
}

#[test]
fn all_objectives_together_complete_it() {
    let mut tutorial = active();
    tutorial.observe(all());
    assert!(tutorial.complete());
}

#[test]
fn loading_a_non_tutorial_level_clears_progress() {
    let mut tutorial = Tutorial::default();
    tutorial.set_level(true);
    tutorial.observe(all());
    assert!(tutorial.complete());

    tutorial.set_level(false);
    assert!(!tutorial.active);
    assert!(!tutorial.complete());
}

#[test]
fn reloading_a_tutorial_restarts_it() {
    let mut tutorial = Tutorial::default();
    tutorial.set_level(true);
    tutorial.observe(all());
    tutorial.set_level(true);
    assert!(!tutorial.complete());
}

#[test]
fn the_prompt_ticks_what_is_done() {
    assert_eq!(eternal_game::tutorial::prompt(&Tutorial::default()), "");
    let mut tutorial = active();
    tutorial.observe(Observed { drawn: true, exited: true, ..Observed::default() });
    let text = eternal_game::tutorial::prompt(&tutorial);
    assert!(text.starts_with("TUTORIAL\n\n[x] Draw on the grid (left-click and drag)\n[ ] Press TAB"));
    assert!(text.ends_with("[ ] Make the ball loop forever\n[x] Press E to leave run mode\n"));
    tutorial.observe(all());
    assert_eq!(
        eternal_game::tutorial::prompt(&tutorial),
        "TUTORIAL COMPLETE\n\nPress E to leave run mode,\nor PageDown for the next level."
    );
}
