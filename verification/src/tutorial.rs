//! A guided tutorial for the core loop.
//!
//! The tutorial is active whenever a level whose file name contains
//! `tutorial` is loaded. It walks the player through everything the puzzle
//! assumes they know:
//!
//! 1. drawing solids on the grid,
//! 2. `Tab` to nudge the ball forward one cell,
//! 3. `Space` to start the ball rolling,
//! 4. `Space` again to pause it,
//! 5. the scroll wheel to zoom,
//! 6. `W`/`A`/`S`/`D` to pan,
//! 7. `-`/`=` to change the ball speed,
//! 8. closing an eternal loop,
//! 9. `E` to leave run mode.
//!
//! The objectives are a checklist, not a strict sequence: each is latched the
//! moment it happens, so the player is free to do them in any order.
use vstd::prelude::*;
use vstd::string::StringExecFns;

use crate::ball::{Run, Tuning};
use crate::grid::{Cell, Grid, GRID_CELLS};
use crate::paint::Mode;

verus! {

/// The text of objective `i`, in display order.
pub open spec fn objective_text(i: int) -> Seq<char> {
    if i == 0 {
        "Draw on the grid (left-click and drag)"@
    } else if i == 1 {
        "Press TAB to nudge the ball one step"@
    } else if i == 2 {
        "Press SPACE to start rolling the ball"@
    } else if i == 3 {
        "Press SPACE again to pause the ball"@
    } else if i == 4 {
        "Scroll the mouse wheel to zoom in and out"@
    } else if i == 5 {
        "Hold W, A, S, D to pan the view"@
    } else if i == 6 {
        "Press - / = to change the ball speed"@
    } else if i == 7 {
        "Make the ball loop forever"@
    } else {
        "Press E to leave run mode"@
    }
}

/// The tutorial's objectives, in display order.
pub fn objectives() -> (r: [&'static str; 9])
    ensures
        forall|i: int| 0 <= i < 9 ==> (#[trigger] r@[i])@ == objective_text(i),
{
    let r = [
        "Draw on the grid (left-click and drag)",
        "Press TAB to nudge the ball one step",
        "Press SPACE to start rolling the ball",
        "Press SPACE again to pause the ball",
        "Scroll the mouse wheel to zoom in and out",
        "Hold W, A, S, D to pan the view",
        "Press - / = to change the ball speed",
        "Make the ball loop forever",
        "Press E to leave run mode",
    ];
    assert forall|i: int| 0 <= i < 9 implies (#[trigger] r@[i])@ == objective_text(i) by {
        if i == 0 {
        } else if i == 1 {
        } else if i == 2 {
        } else if i == 3 {
        } else if i == 4 {
        } else if i == 5 {
        } else if i == 6 {
        } else if i == 7 {
        } else {
        }
    }
    r
}

/// Everything the tutorial can observe about a frame.
#[derive(Clone, Copy, PartialEq, Eq, Debug, Structural)]
pub struct Observed {
    pub drawn: bool,
    pub stepped: bool,
    pub rolled: bool,
    pub paused: bool,
    pub exited: bool,
    pub zoomed: bool,
    pub panned: bool,
    pub speed_changed: bool,
    pub looped: bool,
}

impl Default for Observed {
    /// Nothing seen.
    fn default() -> (r: Observed)
        ensures
            r == (Observed {
                drawn: false,
                stepped: false,
                rolled: false,
                paused: false,
                exited: false,
                zoomed: false,
                panned: false,
                speed_changed: false,
                looped: false,
            }),
    {
        Observed {
            drawn: false,
            stepped: false,
            rolled: false,
            paused: false,
            exited: false,
            zoomed: false,
            panned: false,
            speed_changed: false,
            looped: false,
        }
    }
}

/// Progress through the tutorial. Each flag latches once its action is seen.
#[derive(Clone, Copy, PartialEq, Eq, Debug, Structural)]
pub struct Tutorial {
    /// True while a tutorial level is loaded.
    pub active: bool,
    pub drawn: bool,
    pub stepped: bool,
    pub rolled: bool,
    pub paused: bool,
    pub exited: bool,
    pub zoomed: bool,
    pub panned: bool,
    pub speed_changed: bool,
    pub looped: bool,
}

/// A tutorial with nothing latched.
pub open spec fn fresh(active: bool) -> Tutorial {
    Tutorial {
        active,
        drawn: false,
        stepped: false,
        rolled: false,
        paused: false,
        exited: false,
        zoomed: false,
        panned: false,
        speed_changed: false,
        looped: false,
    }
}

/// The latches after seeing `o`: a flag once set stays set.
pub open spec fn latched(t: Tutorial, o: Observed) -> Tutorial {
    Tutorial {
        active: t.active,
        drawn: t.drawn || o.drawn,
        stepped: t.stepped || o.stepped,
        rolled: t.rolled || o.rolled,
        paused: t.paused || o.paused,
        exited: t.exited || o.exited,
        zoomed: t.zoomed || o.zoomed,
        panned: t.panned || o.panned,
        speed_changed: t.speed_changed || o.speed_changed,
        looped: t.looped || o.looped,
    }
}

/// The per-objective latches, in display order.
pub open spec fn flag_seq(t: Tutorial) -> Seq<bool> {
    seq![t.drawn, t.stepped, t.rolled, t.paused, t.zoomed, t.panned, t.speed_changed, t.looped, t.exited]
}

/// Every objective has been met.
pub open spec fn all_done(t: Tutorial) -> bool {
    t.drawn && t.stepped && t.rolled && t.paused && t.zoomed && t.panned && t.speed_changed && t.looped && t.exited
}

impl Default for Tutorial {
    /// Off, with nothing latched.
    fn default() -> (r: Tutorial)
        ensures
            r == fresh(false),
    {
        Tutorial {
            active: false,
            drawn: false,
            stepped: false,
            rolled: false,
            paused: false,
            exited: false,
            zoomed: false,
            panned: false,
            speed_changed: false,
            looped: false,
        }
    }
}

impl Tutorial {
    /// Called whenever a level is loaded. Loading a tutorial level (re)starts
    /// the walkthrough; any other level switches it off.
    pub fn set_level(&mut self, tutorial_level: bool)
        ensures
            *final(self) == fresh(tutorial_level),
    {
        *self = Tutorial {
            active: tutorial_level,
            drawn: false,
            stepped: false,
            rolled: false,
            paused: false,
            exited: false,
            zoomed: false,
            panned: false,
            speed_changed: false,
            looped: false,
        };
    }

    /// Has every objective been met?
    pub fn complete(&self) -> (r: bool)
        ensures
            r == all_done(*self),
    {
        self.drawn && self.stepped && self.rolled && self.paused && self.zoomed && self.panned && self.speed_changed
            && self.looped && self.exited
    }

    /// Per-objective latches, in [`objectives`] order.
    pub fn flags(&self) -> (r: [bool; 9])
        ensures
            r@ == flag_seq(*self),
    {
        let r = [
            self.drawn,
            self.stepped,
            self.rolled,
            self.paused,
            self.zoomed,
            self.panned,
            self.speed_changed,
            self.looped,
            self.exited,
        ];
        assert(r@ =~= flag_seq(*self));
        r
    }

    /// Latch the actions seen this frame.
    pub fn observe(&mut self, observed: Observed)
        ensures
            *final(self) == latched(*old(self), observed),
    {
        self.drawn = self.drawn || observed.drawn;
        self.stepped = self.stepped || observed.stepped;
        self.rolled = self.rolled || observed.rolled;
        self.paused = self.paused || observed.paused;
        self.exited = self.exited || observed.exited;
        self.zoomed = self.zoomed || observed.zoomed;
        self.panned = self.panned || observed.panned;
        self.speed_changed = self.speed_changed || observed.speed_changed;
        self.looped = self.looped || observed.looped;
    }
}

/// The keys and wheel of one frame, as the tutorial reads them.
#[derive(Clone, Copy, PartialEq, Eq, Debug, Structural)]
pub struct TutorialKeys {
    /// `Space` was pressed.
    pub space: bool,
    /// `Tab` was pressed.
    pub tab: bool,
    /// `E` was pressed.
    pub exit: bool,
    /// One of `W`, `A`, `S`, `D` was pressed.
    pub pan: bool,
    /// `-` or `=` was pressed.
    pub speed: bool,
    /// The mouse wheel turned.
    pub scrolled: bool,
}

/// What the tutorial remembers between frames.
#[derive(Clone, Copy, PartialEq, Eq, Debug, Structural)]
pub struct TutorialMemory {
    /// Length of the itinerary last frame.
    pub last_steps: usize,
    /// Whether the ball was in run mode last frame.
    pub last_running: bool,
}

impl TutorialMemory {
    pub fn new() -> (m: TutorialMemory)
        ensures
            m.last_steps == 0,
            !m.last_running,
    {
        TutorialMemory { last_steps: 0, last_running: false }
    }
}

/// Did the ball advance since last frame? A shorter itinerary means a fresh
/// run started this frame, which counts when it already holds a step.
pub open spec fn took_step(last: usize, steps: usize) -> bool {
    if steps < last {
        steps > 0
    } else {
        steps > last
    }
}

/// The player has drawn something of their own: a solid the level did not
/// lock.
pub open spec fn drawn_own(g: Grid) -> bool {
    exists|k: int| 0 <= k < GRID_CELLS && #[trigger] g.cells@[k] == Cell::Solid && !g.locked@[k]
}

/// What one frame shows the tutorial.
pub open spec fn observation(
    keys: TutorialKeys,
    mode: Mode,
    g: Grid,
    run_solved: bool,
    manual: bool,
    stepped: bool,
    was_running: bool,
) -> Observed {
    let running = mode == Mode::Run;
    Observed {
        drawn: drawn_own(g),
        stepped: keys.tab && stepped,
        rolled: keys.space && running && !manual,
        paused: keys.space && running && manual,
        exited: keys.exit && was_running,
        zoomed: keys.scrolled,
        panned: keys.pan,
        speed_changed: keys.speed,
        looped: run_solved,
    }
}

/// Each objective is ticked only by its own action, and a ticked one stays
/// ticked: the nudge needs `Tab` and a step of the ball; rolling needs
/// `Space` in run mode with automatic stepping, pausing `Space` in run mode
/// with manual stepping; leaving run mode needs `E` in a frame that began in
/// run mode; zooming, panning and the speed keys need the wheel, `WASD` and
/// `-`/`=`; the loop needs a solved run; drawing needs a solid of the
/// player's own.
pub proof fn each_objective_needs_its_action(
    t: Tutorial,
    keys: TutorialKeys,
    mode: Mode,
    g: Grid,
    run_solved: bool,
    manual: bool,
    stepped: bool,
    was_running: bool,
)
    ensures
        ({
            let t2 = latched(t, observation(keys, mode, g, run_solved, manual, stepped, was_running));
            let running = mode == Mode::Run;
            &&& t2.active == t.active
            &&& (t2.stepped <==> t.stepped || (keys.tab && stepped))
            &&& (t2.rolled <==> t.rolled || (keys.space && running && !manual))
            &&& (t2.paused <==> t.paused || (keys.space && running && manual))
            &&& (t2.exited <==> t.exited || (keys.exit && was_running))
            &&& (t2.zoomed <==> t.zoomed || keys.scrolled)
            &&& (t2.panned <==> t.panned || keys.pan)
            &&& (t2.speed_changed <==> t.speed_changed || keys.speed)
            &&& (t2.looped <==> t.looped || run_solved)
            &&& (t2.drawn <==> t.drawn || exists|k: int|
                0 <= k < GRID_CELLS && #[trigger] g.cells@[k] == Cell::Solid && !g.locked@[k])
            &&& !keys.tab ==> t2.stepped == t.stepped
            &&& !was_running ==> t2.exited == t.exited
            &&& !keys.space ==> t2.rolled == t.rolled && t2.paused == t.paused
        }),
{
}

/// Watch the player and latch what this frame achieved. Nothing is latched
/// outside a tutorial or once it is complete; the mode is remembered every
/// frame, the itinerary length only while the tutorial watches.
pub fn track_tutorial(
    tutorial: &mut Tutorial,
    memory: &mut TutorialMemory,
    keys: TutorialKeys,
    mode: Mode,
    grid: &Grid,
    run: &Run,
    tuning: &Tuning,
)
    requires
        grid.wf(),
    ensures
        final(memory).last_running == (mode == Mode::Run),
        !keys.tab ==> final(tutorial).stepped == old(tutorial).stepped,
        !old(memory).last_running ==> final(tutorial).exited == old(tutorial).exited,
        !keys.space ==> final(tutorial).rolled == old(tutorial).rolled && final(tutorial).paused == old(
            tutorial,
        ).paused,
        if !old(tutorial).active || all_done(*old(tutorial)) {
            *final(tutorial) == *old(tutorial) && final(memory).last_steps == old(memory).last_steps
        } else {
            &&& *final(tutorial) == latched(
                *old(tutorial),
                observation(
                    keys,
                    mode,
                    *grid,
                    run.solved,
                    tuning.manual,
                    took_step(old(memory).last_steps, run.itinerary@.len() as usize),
                    old(memory).last_running,
                ),
            )
            &&& final(memory).last_steps == run.itinerary@.len()
        },
{
    let was_running = memory.last_running;
    memory.last_running = mode == Mode::Run;
    if !tutorial.active || tutorial.complete() {
        return;
    }
    let running = mode == Mode::Run;
    let steps = run.itinerary.len();
    let stepped = if steps < memory.last_steps {
        steps > 0
    } else {
        steps > memory.last_steps
    };
    memory.last_steps = steps;
    let drawn = grid.has_unlocked_solid();
    tutorial.observe(
        Observed {
            drawn,
            stepped: keys.tab && stepped,
            rolled: keys.space && running && !tuning.manual,
            paused: keys.space && running && tuning.manual,
            exited: keys.exit && was_running,
            zoomed: keys.scrolled,
            panned: keys.pan,
            speed_changed: keys.speed,
            looped: run.solved,
        },
    );
}

/// The checklist lines from objective `i` on: `[x]` for a met one, `[ ]`
/// for the rest.
pub open spec fn checklist(flags: Seq<bool>, i: int) -> Seq<char>
    decreases 9 - i,
{
    if i >= 9 || i < 0 {
        Seq::empty()
    } else {
        "["@ + (if flags[i] {
            "x"@
        } else {
            " "@
        }) + "] "@ + objective_text(i) + "\n"@ + checklist(flags, i + 1)
    }
}

/// The tutorial prompt: nothing outside a tutorial, a closing note once
/// complete, else the checklist.
pub open spec fn prompt_text(t: Tutorial) -> Seq<char> {
    if !t.active {
        Seq::empty()
    } else if all_done(t) {
        "TUTORIAL COMPLETE\n\nPress E to leave run mode,\nor PageDown for the next level."@
    } else {
        "TUTORIAL\n\n"@ + checklist(flag_seq(t), 0)
    }
}

/// Write the checklist into the prompt.
pub fn prompt(t: &Tutorial) -> (r: String)
    ensures
        r@ == prompt_text(*t),
{
    if !t.active {
        return String::new();
    }
    if t.complete() {
        return String::from_str("TUTORIAL COMPLETE\n\nPress E to leave run mode,\nor PageDown for the next level.");
    }
    let flags = t.flags();
    let texts = objectives();
    let mut body = String::from_str("TUTORIAL\n\n");
    let ghost head = body@;
    let mut i: usize = 0;
    while i < 9
        invariant
            flags@ == flag_seq(*t),
            forall|j: int| 0 <= j < 9 ==> (#[trigger] texts@[j])@ == objective_text(j),
            i <= 9,
            head == "TUTORIAL\n\n"@,
            body@ + checklist(flags@, i as int) == head + checklist(flags@, 0),
        decreases 9 - i,
    {
        let ghost before = body@;
        body.append("[");
        if flags[i] {
            body.append("x");
        } else {
            body.append(" ");
        }
        body.append("] ");
        body.append(texts[i]);
        body.append("\n");
        proof {
            let mark = if flags@[i as int] {
                "x"@
            } else {
                " "@
            };
            let rest = checklist(flags@, i + 1);
            assert(texts@[i as int]@ == objective_text(i as int));
            assert(checklist(flags@, i as int) == "["@ + mark + "] "@ + objective_text(i as int) + "\n"@ + rest);
            assert(before + ("["@ + mark + "] "@ + objective_text(i as int) + "\n"@ + rest) =~= body@ + rest);
        }
        i = i + 1;
    }
    proof {
        assert(checklist(flags@, 9) == Seq::<char>::empty());
        assert(body@ =~= prompt_text(*t));
    }
    body
}

/// Once every objective is met the tutorial stays complete, whatever else it
/// sees.
pub proof fn completion_is_kept(t: Tutorial, o: Observed)
    requires
        all_done(t),
    ensures
        all_done(latched(t, o)),
{
}

/// What an observation shows, in display order.
pub open spec fn seen_seq(o: Observed) -> Seq<bool> {
    seq![o.drawn, o.stepped, o.rolled, o.paused, o.zoomed, o.panned, o.speed_changed, o.looped, o.exited]
}

/// The objectives latch independently: after an observation, each objective
/// is met exactly when it was met before or the observation shows its own
/// action; being in a tutorial does not change.
pub proof fn objectives_latch(t: Tutorial, o: Observed)
    ensures
        forall|i: int| 0 <= i < 9 ==> #[trigger] flag_seq(latched(t, o))[i] == (flag_seq(t)[i] || seen_seq(o)[i]),
        latched(t, o).active == t.active,
{
}

/// Seeing everything at once completes the tutorial.
pub proof fn everything_completes(t: Tutorial)
    ensures
        all_done(
            latched(
                t,
                Observed {
                    drawn: true,
                    stepped: true,
                    rolled: true,
                    paused: true,
                    exited: true,
                    zoomed: true,
                    panned: true,
                    speed_changed: true,
                    looped: true,
                },
            ),
        ),
{
}

/// Loading a level restarts the checklist: nothing is met, whether the level
/// is a tutorial or not.
pub proof fn loading_restarts(tutorial_level: bool)
    ensures
        !all_done(fresh(tutorial_level)),
        fresh(tutorial_level).active == tutorial_level,
{
}

} // verus!
