//! The state of a game in progress and the decisions that change it: pen and
//! run modes, loading levels and debug configurations, stepping the ball.
use vstd::prelude::*;

use crate::ball::{
    unlabelled, can_step, lemma_steps_split, run_steps, start_run, step_allowed, step_once, step_result, steps_result, Ball, Outcome, Run, RunModel,
    Tuning,
};
use crate::components::{components_valid, labels_linked, scan_ordered};
use crate::config::{centre_shift, moved_place, parse, parse_level, parse_state, parsed_cell, parsed_cells, ParseState};
use crate::grid::{col, row, shifted_cell, Cell, Grid, Pos, GRID_CELLS};
use crate::levels::{file_name_of, is_tutorial, tutorial_path, Progress};
use crate::paint::{choose_start, open_opt, Mode, Placement};
use crate::tutorial::{fresh, Tutorial};

verus! {

/// A ball fresh on `cell`, heading right, not yet anchored.
pub open spec fn new_ball(cell: Pos, charge: i64) -> Ball {
    Ball { cell, dir: Pos { x: 1, y: 0 }, charge, anchor: None, moved: false, prev: cell }
}

/// A run with nothing recorded.
pub open spec fn fresh_run(r: RunModel) -> bool {
    &&& r.visits.len() == 0
    &&& r.components == unlabelled()
    &&& r.itinerary.len() == 0
    &&& r.outcome == Outcome::Running
    &&& !r.just_entered
    &&& r.closure is None
    &&& !r.solved
    &&& r.laps == 0
    &&& r.total_moves == 0
}

/// A run just started on a board of `cells`: the solids labelled by their
/// 8-connected masses, nothing else recorded.
pub open spec fn started_run(r: RunModel, cells: Seq<Cell>) -> bool {
    &&& components_valid(cells, r.components)
    &&& labels_linked(cells, r.components)
    &&& scan_ordered(r.components)
    &&& r.visits.len() == 0
    &&& r.itinerary.len() == 0
    &&& r.outcome == Outcome::Running
    &&& !r.just_entered
    &&& r.closure is None
    &&& !r.solved
    &&& r.laps == 0
    &&& r.total_moves == 0
}

/// The cell a run starts from: the placed start while it is open, else the
/// topmost open cell.
pub open spec fn start_of(g: Grid, placed: Option<Pos>) -> Option<Pos> {
    if open_opt(g, placed) {
        placed
    } else {
        g.start_cell()
    }
}

/// The board of a level read from `st`: centred, with its solids locked.
pub open spec fn level_board(g: Grid, st: ParseState) -> bool {
    let pc = parsed_cells(st);
    let s = centre_shift(pc);
    &&& g.wf()
    &&& g.dirty
    &&& forall|k: int| 0 <= k < GRID_CELLS ==> #[trigger] g.cells@[k] == shifted_cell(pc, s.x as int, s.y as int, k)
    &&& forall|k: int| 0 <= k < GRID_CELLS ==> #[trigger] g.locked@[k] == (g.cells@[k] == Cell::Solid)
}

/// The board of a debug configuration read from `st`, nothing locked.
pub open spec fn config_board(g: Grid, st: ParseState) -> bool {
    &&& g.wf()
    &&& g.dirty
    &&& forall|k: int|
        0 <= k < GRID_CELLS ==> !g.locked@[k] && #[trigger] g.cells@[k] == parsed_cell(st, col(k), row(k))
}

/// The game in progress.
pub struct Session {
    pub grid: Grid,
    pub placement: Placement,
    pub tuning: Tuning,
    pub run: Run,
    pub mode: Mode,
    /// Whether the editor's debug keys and HUD are on.
    pub debug: bool,
    pub tutorial: Tutorial,
    pub progress: Progress,
    /// The ball, while a run is on screen.
    pub ball: Option<Ball>,
}

impl Session {
    pub open spec fn wf(&self) -> bool {
        self.grid.wf()
    }

    /// A blank board in pen mode, no progress.
    pub fn new() -> (s: Session)
        ensures
            s.wf(),
            s.grid.dirty,
            forall|k: int| 0 <= k < GRID_CELLS ==> s.grid.cells@[k] == Cell::Empty && !s.grid.locked@[k],
            s.placement.start is None,
            s.tuning.start_charge == 0 && !s.tuning.manual,
            fresh_run(s.run@),
            s.mode == Mode::Paint,
            !s.debug,
            s.tutorial == fresh(false),
            s.progress.saved is None,
            s.ball is None,
    {
        Session {
            grid: Grid::new(),
            placement: Placement::new(),
            tuning: Tuning::new(),
            run: Run::new(),
            mode: Mode::Paint,
            debug: false,
            tutorial: Tutorial::default(),
            progress: Progress { saved: None },
            ball: None,
        }
    }

    /// `Space`: toggle between pen and run. Entering run mode starts a fresh
    /// run and drops a ball on the start, if there is one; entering pen mode
    /// removes the ball.
    pub fn handle_mode(&mut self, space: bool)
        requires
            old(self).wf(),
        ensures
            final(self).wf(),
            final(self).grid == old(self).grid,
            final(self).placement == old(self).placement,
            final(self).tuning == old(self).tuning,
            final(self).debug == old(self).debug,
            final(self).tutorial == old(self).tutorial,
            final(self).progress == old(self).progress,
            !space ==> final(self).mode == old(self).mode && final(self).run@ == old(self).run@ && final(self).ball
                == old(self).ball,
            space && old(self).mode == Mode::Paint ==> {
                &&& final(self).mode == Mode::Run
                &&& match start_of(old(self).grid, old(self).placement.start) {
                    Some(s) => started_run(final(self).run@, old(self).grid.cells@) && final(self).ball == Some(
                        new_ball(s, old(self).tuning.start_charge),
                    ),
                    None => fresh_run(final(self).run@) && final(self).ball == old(self).ball,
                }
            },
            space && old(self).mode == Mode::Run ==> final(self).mode == Mode::Paint && final(self).run@ == old(
                self,
            ).run@ && final(self).ball is None,
    {
        if !space {
            return;
        }
        match self.mode {
            Mode::Paint => {
                self.mode = Mode::Run;
                self.run = Run::new();
                match choose_start(&self.grid, self.placement.start) {
                    Some(start) => {
                        start_run(&mut self.run, &self.grid);
                        self.ball = Some(Ball::new(start, self.tuning.start_charge));
                    },
                    None => {},
                }
            },
            Mode::Run => {
                self.mode = Mode::Paint;
                self.ball = None;
            },
        }
    }

    /// Replace the running state with the level in `text`, read from `path`.
    /// A text that does not parse changes nothing and gives `None`; otherwise
    /// the result says whether the level is a tutorial. The starting charge
    /// comes from the level, the run starts over in pen mode, the tutorial
    /// restarts or switches off, and a game level (not the tutorial) becomes
    /// the saved progress.
    pub fn load_level(&mut self, path: &str, text: &[u8]) -> (r: Option<bool>)
        requires
            old(self).wf(),
        ensures
            final(self).wf(),
            match parse_state(text@) {
                None => r is None && *final(self) == *old(self),
                Some(st) => {
                    let tut = tutorial_path(path@);
                    &&& r == Some(tut)
                    &&& level_board(final(self).grid, st)
                    &&& final(self).placement.start == moved_place(st.place, centre_shift(parsed_cells(st)))
                    &&& final(self).tuning.start_charge == st.start_charge
                    &&& !final(self).tuning.manual
                    &&& fresh_run(final(self).run@)
                    &&& final(self).mode == Mode::Paint
                    &&& final(self).debug == old(self).debug
                    &&& final(self).tutorial == fresh(tut)
                    &&& final(self).ball == old(self).ball
                    &&& if tut {
                        final(self).progress == old(self).progress
                    } else {
                        match final(self).progress.saved {
                            Some(n) => file_name_of(path@) == Some(n@),
                            None => file_name_of(path@) is None,
                        }
                    }
                },
            },
    {
        let (grid, place, tuning) = match parse_level(text) {
            None => {
                return None;
            },
            Some(p) => p,
        };
        self.grid = grid;
        self.placement.start = place;
        self.tuning = tuning;
        self.run = Run::new();
        self.mode = Mode::Paint;
        let tut = is_tutorial(path);
        self.tutorial.set_level(tut);
        if !tut {
            self.progress.saved = crate::levels::level_name(path);
        }
        Some(tut)
    }

    /// The debug `L` key: replace the board, start and starting charge with a
    /// saved configuration. A text that does not parse changes nothing.
    pub fn apply_config(&mut self, text: &[u8]) -> (ok: bool)
        requires
            old(self).wf(),
        ensures
            final(self).wf(),
            match parse_state(text@) {
                None => !ok && *final(self) == *old(self),
                Some(st) => {
                    &&& ok
                    &&& config_board(final(self).grid, st)
                    &&& final(self).placement.start == st.place
                    &&& final(self).tuning.start_charge == st.start_charge
                    &&& !final(self).tuning.manual
                    &&& fresh_run(final(self).run@)
                    &&& final(self).mode == Mode::Paint
                    &&& final(self).debug == old(self).debug
                    &&& final(self).tutorial == old(self).tutorial
                    &&& final(self).progress == old(self).progress
                    &&& final(self).ball == old(self).ball
                },
            },
    {
        match parse(text) {
            None => false,
            Some((grid, place, tuning)) => {
                self.grid = grid;
                self.placement.start = place;
                self.tuning = tuning;
                self.run = Run::new();
                self.mode = Mode::Paint;
                true
            },
        }
    }

    /// Reset to an empty board in pen mode. `editor` decides whether the
    /// editor's debug keys and HUD come back on.
    pub fn blank_slate(&mut self, editor: bool)
        requires
            old(self).wf(),
        ensures
            final(self).wf(),
            forall|k: int|
                0 <= k < GRID_CELLS ==> final(self).grid.cells@[k] == Cell::Empty && !final(self).grid.locked@[k],
            final(self).grid.dirty,
            final(self).placement.start is None,
            final(self).tuning.start_charge == 0 && !final(self).tuning.manual,
            fresh_run(final(self).run@),
            final(self).mode == Mode::Paint,
            final(self).debug == editor,
            final(self).tutorial == fresh(false),
            final(self).progress == old(self).progress,
            final(self).ball == old(self).ball,
    {
        self.grid = Grid::new();
        self.placement = Placement::new();
        self.tuning = Tuning::new();
        self.run = Run::new();
        self.mode = Mode::Paint;
        self.debug = editor;
        self.tutorial = Tutorial::default();
    }

    /// One frame of automatic stepping: `n` steps are due by the clock. A
    /// manual, finished or ball-less run does not move.
    pub fn step_ball(&mut self, n: usize)
        requires
            old(self).wf(),
        ensures
            final(self).wf(),
            final(self).grid == old(self).grid,
            final(self).mode == old(self).mode,
            final(self).tuning == old(self).tuning,
            if old(self).run.outcome != Outcome::Running || old(self).tuning.manual || old(self).ball is None {
                final(self).run@ == old(self).run@ && final(self).ball == old(self).ball
            } else {
                (final(self).run@, final(self).ball->0) == steps_result(
                    old(self).grid,
                    old(self).run@,
                    old(self).ball->0,
                    n as nat,
                ) && final(self).ball is Some
            },
    {
        if self.run.outcome != Outcome::Running || self.tuning.manual {
            return;
        }
        match self.ball {
            Some(b) => {
                let mut b = b;
                run_steps(&self.grid, &mut self.run, &mut b, n);
                self.ball = Some(b);
            },
            None => {},
        }
    }

    /// `Tab` nudges the ball one cell; `N` does too, in manual mode. The first
    /// press after entering run mode only takes manual control.
    pub fn manual_step(&mut self, tab: bool, n_key: bool)
        requires
            old(self).wf(),
        ensures
            final(self).wf(),
            final(self).grid == old(self).grid,
            final(self).mode == old(self).mode,
            final(self).tuning == old(self).tuning,
            ({
                let nudge = tab || (old(self).tuning.manual && n_key);
                if old(self).run.just_entered {
                    final(self).run@ == (RunModel { just_entered: false, ..old(self).run@ }) && final(self).ball
                        == old(self).ball
                } else if nudge && old(self).run.outcome == Outcome::Running && old(self).ball is Some && can_step(
                    old(self).run@,
                    old(self).ball->0,
                ) {
                    (final(self).run@, final(self).ball->0) == step_result(
                        old(self).grid,
                        old(self).run@,
                        old(self).ball->0,
                    ) && final(self).ball is Some
                } else {
                    final(self).run@ == old(self).run@ && final(self).ball == old(self).ball
                }
            }),
    {
        if self.run.just_entered {
            self.run.just_entered = false;
            return;
        }
        let nudge = tab || (self.tuning.manual && n_key);
        if !nudge || self.run.outcome != Outcome::Running {
            return;
        }
        match self.ball {
            Some(b) => {
                if step_allowed(&self.run, &b) {
                    let mut b = b;
                    step_once(&self.grid, &mut self.run, &mut b);
                    self.ball = Some(b);
                }
            },
            None => {},
        }
    }

    /// `[` / `]` nudge the starting charge (never below zero) and `M`
    /// switches manual stepping, while the debug keys are on.
    pub fn tune_start_charge(&mut self, lower: bool, raise: bool, toggle: bool)
        ensures
            !old(self).debug ==> final(self).tuning == old(self).tuning,
            old(self).debug ==> {
                let c1 = if lower {
                    if old(self).tuning.start_charge - 1 >= 0 {
                        old(self).tuning.start_charge - 1
                    } else {
                        0
                    }
                } else {
                    old(self).tuning.start_charge as int
                };
                &&& final(self).tuning.start_charge == if raise && c1 < i64::MAX {
                    c1 + 1
                } else {
                    c1
                }
                &&& final(self).tuning.manual == (old(self).tuning.manual != toggle)
            },
            final(self).grid == old(self).grid,
            final(self).run@ == old(self).run@,
            final(self).ball == old(self).ball,
            final(self).debug == old(self).debug,
    {
        if !self.debug {
            return;
        }
        if lower {
            self.tuning.lower_start_charge();
        }
        if raise && self.tuning.start_charge < i64::MAX {
            self.tuning.raise_start_charge();
        }
        if toggle {
            self.tuning.toggle_manual();
        }
    }

    /// The charge the readout shows: the ball's, or the starting charge when
    /// there is no ball.
    pub fn charge_readout(&self) -> (c: i64)
        ensures
            c == match self.ball {
                Some(b) => b.charge,
                None => self.tuning.start_charge,
            },
    {
        match self.ball {
            Some(b) => b.charge,
            None => self.tuning.start_charge,
        }
    }
}

/// Fires once per finished run: true the first time `outcome` shows the run
/// over, false while it goes on (which re-arms `fired`) and on every later
/// frame of the same ending.
pub fn end_of_run(outcome: Outcome, fired: &mut bool) -> (now: bool)
    ensures
        outcome == Outcome::Running ==> !now && !*final(fired),
        outcome != Outcome::Running ==> now == !*old(fired) && *final(fired),
{
    if outcome == Outcome::Running {
        *fired = false;
        return false;
    }
    if *fired {
        return false;
    }
    *fired = true;
    true
}

/// One step of a replay: where the ball left from, and the ball after it.
#[derive(Clone, Copy, PartialEq, Eq, Debug, Structural)]
pub struct ReplayStep {
    pub from: Pos,
    pub ball: Ball,
}

/// After `n` steps from `(r0, b0)` the run still goes on and may take
/// another step.
pub open spec fn goes_on(g: Grid, r0: RunModel, b0: Ball, n: nat) -> bool {
    let s = steps_result(g, r0, b0, n);
    s.0.outcome == Outcome::Running && can_step(s.0, s.1)
}

/// Run a fresh ball from `start` for up to `max_steps` steps, as the
/// headless replay does, recording every step. Gives the steps, the run and
/// the ball at the end.
/// One step is recorded for each step the run takes: the list is as long as
/// the run went on, up to `max_steps`.
pub fn replay_steps(grid: &Grid, start: Pos, charge: i64, max_steps: usize) -> (r: (Vec<ReplayStep>, Run, Ball))
    requires
        grid.wf(),
    ensures
        exists|r0: RunModel|
            #![trigger started_run(r0, grid.cells@)]
            started_run(r0, grid.cells@) && (r.1@, r.2) == steps_result(
                *grid,
                r0,
                new_ball(start, charge),
                max_steps as nat,
            ) && r.0@.len() <= max_steps && (forall|i: int|
                0 <= i < r.0@.len() ==> #[trigger] goes_on(*grid, r0, new_ball(start, charge), i as nat)) && (
            r.0@.len() < max_steps ==> !goes_on(*grid, r0, new_ball(start, charge), r.0@.len() as nat))
                && forall|i: int|
                0 <= i < r.0@.len() ==> (#[trigger] r.0@[i]).ball == steps_result(
                    *grid,
                    r0,
                    new_ball(start, charge),
                    (i + 1) as nat,
                ).1 && r.0@[i].from == steps_result(*grid, r0, new_ball(start, charge), i as nat).1.cell,
{
    let mut run = Run::new();
    let mut ball = Ball::new(start, charge);
    start_run(&mut run, grid);
    let ghost r0 = run@;
    let ghost b0 = ball;
    assert(b0 == new_ball(start, charge));
    let mut steps: Vec<ReplayStep> = Vec::new();
    let mut i: usize = 0;
    while i < max_steps
        invariant
            grid.wf(),
            started_run(r0, grid.cells@),
            b0 == new_ball(start, charge),
            i <= max_steps,
            steps@.len() == i,
            (run@, ball) == steps_result(*grid, r0, b0, i as nat),
            forall|j: int| 0 <= j < i ==> #[trigger] goes_on(*grid, r0, b0, j as nat),
            forall|j: int|
                0 <= j < i ==> (#[trigger] steps@[j]).ball == steps_result(*grid, r0, b0, (j + 1) as nat).1
                    && steps@[j].from == steps_result(*grid, r0, b0, j as nat).1.cell,
        decreases max_steps - i,
    {
        if run.outcome != Outcome::Running || !step_allowed(&run, &ball) {
            proof {
                lemma_steps_split(*grid, r0, b0, i as nat, (max_steps - i) as nat);
            }
            return (steps, run, ball);
        }
        assert(goes_on(*grid, r0, b0, i as nat));
        let from = ball.cell;
        let ghost rb = run@;
        let ghost bb = ball;
        step_once(grid, &mut run, &mut ball);
        proof {
            lemma_steps_split(*grid, r0, b0, i as nat, 1);
            let (r1, b1) = step_result(*grid, rb, bb);
            assert(steps_result(*grid, r1, b1, 0) == (r1, b1));
            assert(steps_result(*grid, rb, bb, 1) == (r1, b1));
            assert(steps_result(*grid, r0, b0, (i + 1) as nat) == (r1, b1));
        }
        steps.push(ReplayStep { from, ball });
        i = i + 1;
    }
    (steps, run, ball)
}

} // verus!
