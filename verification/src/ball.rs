//! The ball that walks the surface of the drawn solids.
//!
//! The ball steps cell by cell clockwise around a solid anchor, laying no
//! trail: `(cell, anchor)` is the whole state of the walk.
//!
//! Energy is accumulated distance, measured in cells moved:
//! * moving **down** accumulates one unit of charge per step,
//! * moving **up** consumes one unit,
//! * a level move takes the sign of the vertical move before it (the combo),
//!   and costs one unit when there was none,
//! * a move the battery cannot pay for ends the run.
use vstd::prelude::*;

use crate::grid::{idx, in_bounds, n4, n8, neighbor4, neighbor8, Cell, Grid, Pos, GRID_CELLS, GRID_H, GRID_W};

verus! {

/// Charge gained or spent per cell moved.
pub const CHARGE_PER_CELL: i64 = 1;

/// Completed laps a solved loop survives before it overloads and takes the
/// whole level with it — the victory.
pub const VICTORY_LAPS: u32 = 8;

/// Longest arrow history kept, so a run that loops forever does not grow
/// without bound. Older moves fall off the front.
pub const MAX_ITINERARY: usize = 1024;

/// Tunable run parameters.
pub struct Tuning {
    /// Charge the ball starts a run with. Zero by default, so the ball has to
    /// earn its energy.
    pub start_charge: i64,
    /// When true the ball only steps on request instead of on a timer.
    pub manual: bool,
}

impl Tuning {
    /// The game's defaults: no starting charge, automatic stepping.
    pub fn new() -> (t: Tuning)
        ensures
            t.start_charge == 0,
            !t.manual,
    {
        Tuning { start_charge: 0, manual: false }
    }

    /// Lower the starting charge by one, never below zero.
    pub fn lower_start_charge(&mut self)
        ensures
            final(self).start_charge == if old(self).start_charge - 1 >= 0 {
                old(self).start_charge - 1
            } else {
                0
            },
            final(self).manual == old(self).manual,
    {
        if self.start_charge > 0 {
            self.start_charge = self.start_charge - 1;
        } else {
            self.start_charge = 0;
        }
    }

    /// Raise the starting charge by one.
    pub fn raise_start_charge(&mut self)
        requires
            old(self).start_charge < i64::MAX,
        ensures
            final(self).start_charge == old(self).start_charge + 1,
            final(self).manual == old(self).manual,
    {
        self.start_charge = self.start_charge + 1;
    }

    /// Switch between manual and automatic stepping.
    pub fn toggle_manual(&mut self)
        ensures
            final(self).start_charge == old(self).start_charge,
            final(self).manual == !old(self).manual,
    {
        self.manual = !self.manual;
    }
}

impl Default for Tuning {
    /// No starting charge, automatic stepping.
    fn default() -> (t: Tuning)
        ensures
            t.start_charge == 0,
            !t.manual,
    {
        Tuning::new()
    }
}

/// The ball. `cell` is its grid position, `dir` its last step direction, and
/// `anchor` the solid cell it is currently stuck to. The next move is a pure
/// function of `(cell, anchor)`.
#[derive(Clone, Copy, PartialEq, Eq, Debug, Structural)]
pub struct Ball {
    pub cell: Pos,
    pub dir: Pos,
    pub charge: i64,
    /// The solid cell the ball is stuck to. `None` until the first step
    /// resolves it from the adjacent solids.
    pub anchor: Option<Pos>,
    /// Whether the ball has made a real move yet (so the first heading isn't
    /// mistaken for a previous direction when detecting combos).
    pub moved: bool,
    /// The cell the current move started from.
    pub prev: Pos,
}

impl Ball {
    pub fn new(cell: Pos, charge: i64) -> (b: Ball)
        ensures
            b.cell == cell,
            b.dir == (Pos { x: 1, y: 0 }),
            b.charge == charge,
            b.anchor is None,
            !b.moved,
            b.prev == cell,
    {
        Ball { cell, dir: Pos { x: 1, y: 0 }, charge, anchor: None, moved: false, prev: cell }
    }
}

/// How the current run is going.
#[derive(Clone, Copy, PartialEq, Eq, Debug, Structural)]
pub enum Outcome {
    Running,
    /// Nowhere legal to go.
    Stuck,
    /// Tried to move but the battery could not pay for it.
    Depleted,
    /// A self-sustaining loop ran long enough to overload: the victory.
    Victory,
}

/// One step the ball took, kept for the on-screen itinerary.
#[derive(Clone, Copy, PartialEq, Eq, Debug, Structural)]
pub struct MoveRecord {
    pub cell: Pos,
    pub dir: Pos,
    /// True when this was a level move right after a vertical one.
    pub combo: bool,
    /// Charge this move added (positive accumulates, negative consumes).
    pub charge: i64,
}

/// The charge the ball had on its first arrival in a `(cell, anchor)` state.
#[derive(Clone, Copy, PartialEq, Eq, Debug, Structural)]
pub struct Visit {
    pub cell: Pos,
    pub anchor: Pos,
    pub charge: i64,
}

/// Per-run bookkeeping: the first-arrival charge at each `(cell, anchor)`
/// state, the solid components, the itinerary of moves taken, and how many
/// laps the ball has completed.
pub struct Run {
    /// First-arrival charges; no state occurs twice (see [`visits_distinct`]).
    pub visits: Vec<Visit>,
    /// Per board cell, the 8-connected component id of a solid.
    pub components: Vec<Option<usize>>,
    pub itinerary: Vec<MoveRecord>,
    pub outcome: Outcome,
    /// Set for one frame when run mode is entered, so that first press only
    /// takes manual control instead of also nudging the ball.
    pub just_entered: bool,
    /// The `(cell, anchor)` state where the ball first closed its loop. Each
    /// time it returns here a lap is complete.
    pub closure: Option<(Pos, Pos)>,
    /// True once a loop closure met its charge guarantee — the level is solved.
    pub solved: bool,
    /// Laps completed since the run began.
    pub laps: u32,
    /// Total moves made since the run began, including ones dropped from the
    /// front of the itinerary.
    pub total_moves: u64,
}

/// The mathematical state of a [`Run`].
#[verifier::ext_equal]
pub struct RunModel {
    pub visits: Seq<Visit>,
    pub components: Seq<Option<usize>>,
    pub itinerary: Seq<MoveRecord>,
    pub outcome: Outcome,
    pub just_entered: bool,
    pub closure: Option<(Pos, Pos)>,
    pub solved: bool,
    pub laps: int,
    pub total_moves: int,
}

impl View for Run {
    type V = RunModel;

    open spec fn view(&self) -> RunModel {
        RunModel {
            visits: self.visits@,
            components: self.components@,
            itinerary: self.itinerary@,
            outcome: self.outcome,
            just_entered: self.just_entered,
            closure: self.closure,
            solved: self.solved,
            laps: self.laps as int,
            total_moves: self.total_moves as int,
        }
    }
}

/// The component label at `(x, y)`, or `None` off the board or off the solids.
pub open spec fn label_at(labels: Seq<Option<usize>>, x: int, y: int) -> Option<usize> {
    if in_bounds(x, y) {
        labels[idx(x, y)]
    } else {
        None
    }
}

/// Rotate an 8-neighbour offset 45 degrees clockwise (`+y` is up), so a ball
/// stepping through the ring walks clockwise around its anchor. Any other
/// offset is left alone.
pub open spec fn cw45(o: (int, int)) -> (int, int) {
    if o == (1int, 0int) {
        (1, -1)
    } else if o == (1int, -1int) {
        (0, -1)
    } else if o == (0int, -1int) {
        (-1, -1)
    } else if o == (-1int, -1int) {
        (-1, 0)
    } else if o == (-1int, 0int) {
        (-1, 1)
    } else if o == (-1int, 1int) {
        (0, 1)
    } else if o == (0int, 1int) {
        (1, 1)
    } else if o == (1int, 1int) {
        (1, 0)
    } else {
        o
    }
}

/// The label of the first labelled 8-neighbour of `(cx, cy)`, scanning the
/// directions from `k` on.
pub open spec fn first_component(labels: Seq<Option<usize>>, cx: int, cy: int, k: int) -> Option<usize>
    decreases 8 - k,
{
    if k >= 8 {
        None
    } else {
        match label_at(labels, cx + n8(k).0, cy + n8(k).1) {
            Some(l) => Some(l),
            None => first_component(labels, cx, cy, k + 1),
        }
    }
}

/// How many of the three cells on the right of heading `h` (beside, ahead,
/// behind) belong to component `comp`.
pub open spec fn heading_score(labels: Seq<Option<usize>>, comp: usize, cx: int, cy: int, h: (int, int)) -> int {
    let r = (h.1, -h.0);
    (if label_at(labels, cx + r.0, cy + r.1) == Some(comp) {
        1int
    } else {
        0int
    }) + (if label_at(labels, cx + h.0 + r.0, cy + h.1 + r.1) == Some(comp) {
        1int
    } else {
        0int
    }) + (if label_at(labels, cx - h.0 + r.0, cy - h.1 + r.1) == Some(comp) {
        1int
    } else {
        0int
    })
}

/// Scanning the orthogonal headings from `k` on, the index of the first one
/// with the highest score, given the best so far.
pub open spec fn best_heading_from(
    labels: Seq<Option<usize>>,
    comp: usize,
    cx: int,
    cy: int,
    k: int,
    best: int,
    best_score: int,
) -> int
    decreases 4 - k,
{
    if k >= 4 {
        best
    } else {
        let s = heading_score(labels, comp, cx, cy, n4(k));
        if s > best_score {
            best_heading_from(labels, comp, cx, cy, k + 1, k, s)
        } else {
            best_heading_from(labels, comp, cx, cy, k + 1, best, best_score)
        }
    }
}

/// The starting heading that puts component `comp` on the ball's right.
pub open spec fn best_heading(labels: Seq<Option<usize>>, comp: usize, cx: int, cy: int) -> (int, int) {
    n4(best_heading_from(labels, comp, cx, cy, 0, 0, -1))
}

/// The 8-neighbour of `(cx, cy)` in direction `k` belongs to `comp`, and, if
/// `check` is set, stepping clockwise around it from `(cx, cy)` follows
/// `heading`.
pub open spec fn anchor_fits(
    labels: Seq<Option<usize>>,
    comp: usize,
    cx: int,
    cy: int,
    heading: (int, int),
    check: bool,
    k: int,
) -> bool {
    let ax = cx + n8(k).0;
    let ay = cy + n8(k).1;
    let o = (cx - ax, cy - ay);
    &&& label_at(labels, ax, ay) == Some(comp)
    &&& check ==> (cw45(o).0 - o.0, cw45(o).1 - o.1) == heading
}

/// The first neighbour, scanning the directions from `k` on, that fits.
pub open spec fn first_anchor_from(
    labels: Seq<Option<usize>>,
    comp: usize,
    cx: int,
    cy: int,
    heading: (int, int),
    check: bool,
    k: int,
) -> Option<(int, int)>
    decreases 8 - k,
{
    if k >= 8 {
        None
    } else if anchor_fits(labels, comp, cx, cy, heading, check, k) {
        Some((cx + n8(k).0, cy + n8(k).1))
    } else {
        first_anchor_from(labels, comp, cx, cy, heading, check, k + 1)
    }
}

/// The solid stick point a ball at `(cx, cy)` starts on. It prefers the
/// adjacent solid whose clockwise step follows the anchor-derived heading, so
/// the ball sets off clockwise; it falls back to any adjacent solid of the
/// same mass.
pub open spec fn initial_anchor_at(labels: Seq<Option<usize>>, cx: int, cy: int) -> Option<(int, int)> {
    match first_component(labels, cx, cy, 0) {
        None => None,
        Some(comp) => {
            let heading = best_heading(labels, comp, cx, cy);
            match first_anchor_from(labels, comp, cx, cy, heading, true, 0) {
                Some(a) => Some(a),
                None => first_anchor_from(labels, comp, cx, cy, heading, false, 0),
            }
        },
    }
}

/// Follow the contour clockwise from `(fx, fy)` around anchor `a`: step to the
/// next cell around the anchor; if that cell is solid, pivot the anchor onto it
/// and retry, at most `fuel` times. Gives the cell stepped onto and the final
/// anchor, or `None` if no step is possible.
pub open spec fn walk(g: Grid, fx: int, fy: int, a: (int, int), fuel: nat) -> Option<((int, int), (int, int))>
    decreases fuel,
{
    if fuel == 0 {
        None
    } else {
        let o = cw45((fx - a.0, fy - a.1));
        let t = (a.0 + o.0, a.1 + o.1);
        match g.cell(t.0, t.1) {
            Some(Cell::Solid) => walk(g, fx, fy, t, (fuel - 1) as nat),
            Some(Cell::Empty) => Some((t, a)),
            None => None,
        }
    }
}

/// What a move costs: moving down gains a unit, moving up spends one, and a
/// level move gains right after a descent and spends otherwise.
pub open spec fn move_charge(dy: int, prev: Option<Pos>) -> int {
    if dy < 0 {
        1
    } else if dy > 0 {
        -1
    } else if prev matches Some(p) && p.y < 0 {
        1
    } else {
        -1
    }
}

/// The first-arrival charge recorded for `(cell, anchor)`.
pub open spec fn lookup(v: Seq<Visit>, cell: Pos, anchor: Pos) -> Option<i64>
    decreases v.len(),
{
    if v.len() == 0 {
        None
    } else {
        match lookup(v.drop_last(), cell, anchor) {
            Some(c) => Some(c),
            None => if v.last().cell == cell && v.last().anchor == anchor {
                Some(v.last().charge)
            } else {
                None
            },
        }
    }
}

/// Record `charge` for `(cell, anchor)` unless the state was already visited.
pub open spec fn or_insert(v: Seq<Visit>, cell: Pos, anchor: Pos, charge: i64) -> Seq<Visit> {
    if lookup(v, cell, anchor) is Some {
        v
    } else {
        v.push(Visit { cell, anchor, charge })
    }
}

pub open spec fn to_pos(p: (int, int)) -> Pos {
    Pos { x: p.0 as i32, y: p.1 as i32 }
}

/// The itinerary after recording `rec`, keeping only the newest moves.
pub open spec fn push_bounded(it: Seq<MoveRecord>, rec: MoveRecord) -> Seq<MoveRecord> {
    let pushed = it.push(rec);
    if pushed.len() > MAX_ITINERARY {
        pushed.skip(pushed.len() - MAX_ITINERARY)
    } else {
        pushed
    }
}

/// No `(cell, anchor)` state is recorded twice.
pub open spec fn visits_distinct(v: Seq<Visit>) -> bool {
    forall|i: int, j: int|
        0 <= i < j < v.len() ==> !(#[trigger] v[i].cell == #[trigger] v[j].cell && v[i].anchor == v[j].anchor)
}

/// A state that is not found was never recorded.
proof fn lemma_lookup_none(v: Seq<Visit>, cell: Pos, anchor: Pos)
    requires
        lookup(v, cell, anchor) is None,
    ensures
        forall|i: int| 0 <= i < v.len() ==> !(#[trigger] v[i].cell == cell && v[i].anchor == anchor),
    decreases v.len(),
{
    if v.len() > 0 {
        lemma_lookup_none(v.drop_last(), cell, anchor);
        assert forall|i: int| 0 <= i < v.len() implies !(#[trigger] v[i].cell == cell && v[i].anchor == anchor) by {
            if i < v.len() - 1 {
                assert(v[i] == v.drop_last()[i]);
            }
        }
    }
}

/// Recording a state only when it is new keeps the record free of repeats.
proof fn lemma_or_insert_distinct(v: Seq<Visit>, cell: Pos, anchor: Pos, charge: i64)
    requires
        visits_distinct(v),
    ensures
        visits_distinct(or_insert(v, cell, anchor, charge)),
{
    if lookup(v, cell, anchor) is None {
        lemma_lookup_none(v, cell, anchor);
        let w = v.push(Visit { cell, anchor, charge });
        assert forall|i: int, j: int| 0 <= i < j < w.len() implies !(#[trigger] w[i].cell == #[trigger] w[j].cell
            && w[i].anchor == w[j].anchor) by {
            if j < v.len() {
                assert(w[i] == v[i] && w[j] == v[j]);
            } else {
                assert(w[i] == v[i]);
            }
        }
    }
}

/// A step never records a `(cell, anchor)` state twice.
pub proof fn lemma_step_keeps_visits_distinct(g: Grid, r: RunModel, b: Ball)
    requires
        visits_distinct(r.visits),
    ensures
        visits_distinct(step_result(g, r, b).0.visits),
{
    let from = b.cell;
    if resolved_anchor(r, b) is Some {
        let a = resolved_anchor(r, b)->0;
        lemma_or_insert_distinct(r.visits, from, a, b.charge);
        let visits1 = if b.anchor is None {
            or_insert(r.visits, from, a, b.charge)
        } else {
            r.visits
        };
        match walk(g, from.x as int, from.y as int, (a.x as int, a.y as int), 8) {
            Some((t, a1)) => {
                let next = to_pos(t);
                let d = Pos { x: (next.x - from.x) as i32, y: (next.y - from.y) as i32 };
                let prev = if b.moved {
                    Some(b.dir)
                } else {
                    None
                };
                let c = move_charge(d.y as int, prev);
                lemma_or_insert_distinct(visits1, next, to_pos(a1), (b.charge + c) as i64);
            },
            None => {},
        }
    }
}

/// The anchor the ball walks around this step: its own, or the one resolved
/// from the solids next to it.
pub open spec fn resolved_anchor(r: RunModel, b: Ball) -> Option<Pos> {
    match b.anchor {
        Some(a) => Some(a),
        None => match initial_anchor_at(r.components, b.cell.x as int, b.cell.y as int) {
            Some(p) => Some(to_pos(p)),
            None => None,
        },
    }
}

/// One tile of movement, as a function of the board, the run and the ball.
pub open spec fn step_result(g: Grid, r: RunModel, b: Ball) -> (RunModel, Ball) {
    let from = b.cell;
    match resolved_anchor(r, b) {
        None => (RunModel { outcome: Outcome::Stuck, ..r }, b),
        Some(a) => {
            let visits1 = if b.anchor is None {
                or_insert(r.visits, from, a, b.charge)
            } else {
                r.visits
            };
            let b1 = Ball { anchor: Some(a), ..b };
            match walk(g, from.x as int, from.y as int, (a.x as int, a.y as int), 8) {
                None => (RunModel { outcome: Outcome::Stuck, visits: visits1, ..r }, b1),
                Some((t, a1)) => {
                    let next = to_pos(t);
                    let anc = to_pos(a1);
                    let d = Pos { x: (next.x - from.x) as i32, y: (next.y - from.y) as i32 };
                    let prev = if b.moved {
                        Some(b.dir)
                    } else {
                        None
                    };
                    let c = move_charge(d.y as int, prev);
                    let b2 = Ball { anchor: Some(anc), ..b };
                    if b.charge + c < 0 {
                        (RunModel { outcome: Outcome::Depleted, visits: visits1, ..r }, b2)
                    } else {
                        let arrival = b.charge + c;
                        let found = lookup(visits1, next, anc);
                        let closure1 = if found is Some && r.closure is None {
                            Some((next, anc))
                        } else {
                            r.closure
                        };
                        let solved1 = r.solved || (found matches Some(best) && arrival >= best);
                        let rec = MoveRecord {
                            cell: from,
                            dir: d,
                            combo: d.y == 0 && (prev matches Some(p) && p.y != 0),
                            charge: c as i64,
                        };
                        let lap = closure1 == Some((next, anc));
                        let laps1 = if lap {
                            r.laps + 1
                        } else {
                            r.laps
                        };
                        let outcome1 = if lap && solved1 && laps1 >= VICTORY_LAPS && r.outcome
                            == Outcome::Running {
                            Outcome::Victory
                        } else {
                            r.outcome
                        };
                        (
                            RunModel {
                                visits: or_insert(visits1, next, anc, arrival as i64),
                                itinerary: push_bounded(r.itinerary, rec),
                                outcome: outcome1,
                                closure: closure1,
                                solved: solved1,
                                laps: laps1,
                                total_moves: r.total_moves + 1,
                                ..r
                            },
                            Ball {
                                cell: next,
                                dir: d,
                                charge: arrival as i64,
                                anchor: Some(anc),
                                moved: true,
                                prev: from,
                            },
                        )
                    }
                },
            }
        },
    }
}


proof fn lemma_lookup_prefix(v: Seq<Visit>, n: int, cell: Pos, anchor: Pos)
    requires
        0 <= n <= v.len(),
        lookup(v.take(n), cell, anchor) is Some,
    ensures
        lookup(v, cell, anchor) == lookup(v.take(n), cell, anchor),
    decreases v.len() - n,
{
    if n == v.len() {
        assert(v.take(n) =~= v);
    } else {
        assert(v.drop_last().take(n) =~= v.take(n));
        lemma_lookup_prefix(v.drop_last(), n, cell, anchor);
    }
}

/// The recorded first-arrival charge of `(cell, anchor)`.
fn find_visit(visits: &Vec<Visit>, cell: Pos, anchor: Pos) -> (r: Option<i64>)
    ensures
        r == lookup(visits@, cell, anchor),
{
    let mut i: usize = 0;
    while i < visits.len()
        invariant
            i <= visits@.len(),
            lookup(visits@.take(i as int), cell, anchor) is None,
        decreases visits@.len() - i,
    {
        let v = visits[i];
        assert(visits@.take(i + 1).drop_last() =~= visits@.take(i as int));
        if v.cell == cell && v.anchor == anchor {
            proof {
                lemma_lookup_prefix(visits@, i + 1, cell, anchor);
            }
            return Some(v.charge);
        }
        i = i + 1;
    }
    assert(visits@.take(i as int) =~= visits@);
    None
}

/// Record the first arrival in `(cell, anchor)`.
fn record_visit(visits: &mut Vec<Visit>, cell: Pos, anchor: Pos, charge: i64)
    ensures
        final(visits)@ == or_insert(old(visits)@, cell, anchor, charge),
{
    if find_visit(visits, cell, anchor).is_none() {
        visits.push(Visit { cell, anchor, charge });
    }
}

/// The component label at integer coordinates.
fn component_at(components: &Vec<Option<usize>>, x: i64, y: i64) -> (r: Option<usize>)
    requires
        components@.len() == GRID_CELLS,
    ensures
        r == label_at(components@, x as int, y as int),
{
    if x >= 0 && y >= 0 && x < GRID_W as i64 && y < GRID_H as i64 {
        components[(y * GRID_W as i64 + x) as usize]
    } else {
        None
    }
}

/// Rotate an offset 45 degrees clockwise around the ring of 8-neighbours.
fn cw45_exec(ox: i64, oy: i64) -> (r: (i64, i64))
    ensures
        (r.0 as int, r.1 as int) == cw45((ox as int, oy as int)),
{
    if ox == 1 && oy == 0 {
        (1, -1)
    } else if ox == 1 && oy == -1 {
        (0, -1)
    } else if ox == 0 && oy == -1 {
        (-1, -1)
    } else if ox == -1 && oy == -1 {
        (-1, 0)
    } else if ox == -1 && oy == 0 {
        (-1, 1)
    } else if ox == -1 && oy == 1 {
        (0, 1)
    } else if ox == 0 && oy == 1 {
        (1, 1)
    } else if ox == 1 && oy == 1 {
        (1, 0)
    } else {
        (ox, oy)
    }
}

fn heading_score_exec(components: &Vec<Option<usize>>, comp: usize, cx: i64, cy: i64, h: Pos) -> (s: i64)
    requires
        components@.len() == GRID_CELLS,
        -3 <= h.x <= 3,
        -3 <= h.y <= 3,
        -0x1_0000_0000 <= cx <= 0x1_0000_0000,
        -0x1_0000_0000 <= cy <= 0x1_0000_0000,
    ensures
        s == heading_score(components@, comp, cx as int, cy as int, (h.x as int, h.y as int)),
{
    let rx = h.y as i64;
    let ry = -(h.x as i64);
    let hx = h.x as i64;
    let hy = h.y as i64;
    let mut s: i64 = 0;
    if component_at(components, cx + rx, cy + ry) == Some(comp) {
        s = s + 1;
    }
    if component_at(components, cx + hx + rx, cy + hy + ry) == Some(comp) {
        s = s + 1;
    }
    if component_at(components, cx - hx + rx, cy - hy + ry) == Some(comp) {
        s = s + 1;
    }
    s
}

/// Pick the starting heading so the solid sits on the ball's right (clockwise).
fn initial_heading(run: &Run, component: usize, cell: Pos) -> (h: Pos)
    requires
        run.components@.len() == GRID_CELLS,
    ensures
        (h.x as int, h.y as int) == best_heading(run.components@, component, cell.x as int, cell.y as int),
{
    let cx = cell.x as i64;
    let cy = cell.y as i64;
    let mut best: usize = 0;
    let mut best_score: i64 = -1;
    let mut k: usize = 0;
    while k < 4
        invariant
            run.components@.len() == GRID_CELLS,
            cx == cell.x,
            cy == cell.y,
            k <= 4,
            best < 4,
            best_heading_from(run.components@, component, cx as int, cy as int, k as int, best as int, best_score as int)
                == best_heading_from(run.components@, component, cx as int, cy as int, 0, 0, -1),
        decreases 4 - k,
    {
        let h = neighbor4(k);
        let s = heading_score_exec(&run.components, component, cx, cy, h);
        if s > best_score {
            best_score = s;
            best = k;
        }
        k = k + 1;
    }
    neighbor4(best)
}

/// The first neighbour of `cell`, scanning from direction `0`, that fits
/// `comp` (and, if `check`, the heading).
fn first_anchor(run: &Run, comp: usize, cell: Pos, heading: Pos, check: bool) -> (r: Option<Pos>)
    requires
        run.components@.len() == GRID_CELLS,
        -1 <= heading.x <= 1,
        -1 <= heading.y <= 1,
    ensures
        r matches Some(p) ==> first_anchor_from(run.components@, comp, cell.x as int, cell.y as int, (heading.x as int, heading.y as int), check, 0) == Some((p.x as int, p.y as int)),
        r is None ==> first_anchor_from(run.components@, comp, cell.x as int, cell.y as int, (heading.x as int, heading.y as int), check, 0) is None,
{
    let cx = cell.x as i64;
    let cy = cell.y as i64;
    let ghost hd = (heading.x as int, heading.y as int);
    let mut k: usize = 0;
    while k < 8
        invariant
            run.components@.len() == GRID_CELLS,
            cx == cell.x,
            cy == cell.y,
            k <= 8,
            -1 <= heading.x <= 1,
            -1 <= heading.y <= 1,
            hd == (heading.x as int, heading.y as int),
            first_anchor_from(run.components@, comp, cx as int, cy as int, hd, check, k as int)
                == first_anchor_from(run.components@, comp, cx as int, cy as int, hd, check, 0),
        decreases 8 - k,
    {
        let o = neighbor8(k);
        let ax = cx + o.x as i64;
        let ay = cy + o.y as i64;
        if component_at(&run.components, ax, ay) == Some(comp) {
            let (wx, wy) = cw45_exec(cx - ax, cy - ay);
            let fits = !check || (wx - (cx - ax) == heading.x as i64 && wy - (cy - ay) == heading.y as i64);
            if fits {
                return Some(Pos { x: ax as i32, y: ay as i32 });
            }
        }
        k = k + 1;
    }
    None
}

/// The label of the first labelled 8-neighbour of `cell`.
fn first_labelled(run: &Run, cell: Pos) -> (r: Option<usize>)
    requires
        run.components@.len() == GRID_CELLS,
    ensures
        r == first_component(run.components@, cell.x as int, cell.y as int, 0),
{
    let cx = cell.x as i64;
    let cy = cell.y as i64;
    let mut k: usize = 0;
    while k < 8
        invariant
            run.components@.len() == GRID_CELLS,
            cx == cell.x,
            cy == cell.y,
            k <= 8,
            first_component(run.components@, cx as int, cy as int, k as int) == first_component(
                run.components@,
                cx as int,
                cy as int,
                0,
            ),
        decreases 8 - k,
    {
        let o = neighbor8(k);
        let l = component_at(&run.components, cx + o.x as i64, cy + o.y as i64);
        if l.is_some() {
            return l;
        }
        k = k + 1;
    }
    None
}

/// The solid stick point the ball starts on.
fn initial_anchor(run: &Run, cell: Pos) -> (r: Option<Pos>)
    requires
        run.components@.len() == GRID_CELLS,
    ensures
        r == (match initial_anchor_at(run.components@, cell.x as int, cell.y as int) {
            Some(p) => Some(to_pos(p)),
            None => None,
        }),
{
    let comp = match first_labelled(run, cell) {
        None => {
            return None;
        },
        Some(c) => c,
    };
    let heading = initial_heading(run, comp, cell);
    match first_anchor(run, comp, cell, heading, true) {
        Some(a) => Some(a),
        None => first_anchor(run, comp, cell, heading, false),
    }
}

/// A board's worth of component labels with no solid labelled yet.
pub open spec fn unlabelled() -> Seq<Option<usize>> {
    Seq::new(GRID_CELLS as nat, |i: int| None)
}

impl Run {
    /// A fresh run with nothing recorded.
    pub fn new() -> (r: Run)
        ensures
            r@.visits.len() == 0,
            r@.components == unlabelled(),
            r@.itinerary.len() == 0,
            r.outcome == Outcome::Running,
            !r.just_entered,
            r.closure is None,
            !r.solved,
            r.laps == 0,
            r.total_moves == 0,
    {
        let mut components: Vec<Option<usize>> = Vec::new();
        let mut k: usize = 0;
        while k < GRID_CELLS
            invariant
                k <= GRID_CELLS,
                components@ == Seq::<Option<usize>>::new(k as nat, |i: int| None),
            decreases GRID_CELLS - k,
        {
            components.push(None);
            k = k + 1;
        }
        Run {
            visits: Vec::new(),
            components,
            itinerary: Vec::new(),
            outcome: Outcome::Running,
            just_entered: false,
            closure: None,
            solved: false,
            laps: 0,
            total_moves: 0,
        }
    }

    /// The component id of the solid at `cell`, if it is one.
    pub fn component_of(&self, cell: Pos) -> (r: Option<usize>)
        requires
            self.components@.len() == GRID_CELLS,
        ensures
            r == label_at(self.components@, cell.x as int, cell.y as int),
    {
        component_at(&self.components, cell.x as i64, cell.y as i64)
    }
}

impl Default for Run {
    /// A fresh run with nothing recorded.
    fn default() -> (r: Run)
        ensures
            r@.visits.len() == 0,
            r@.components == unlabelled(),
            r@.itinerary.len() == 0,
            r.outcome == Outcome::Running,
            !r.just_entered,
            r.closure is None,
            !r.solved,
            r.laps == 0,
            r.total_moves == 0,
    {
        Run::new()
    }
}

/// Set up a fresh run on `grid`. The ball's anchor is resolved lazily on its
/// first step (it needs the solid components).
pub fn start_run(run: &mut Run, grid: &Grid)
    requires
        grid.wf(),
    ensures
        crate::components::components_valid(grid.cells@, final(run)@.components),
        crate::components::labels_linked(grid.cells@, final(run)@.components),
        crate::components::scan_ordered(final(run)@.components),
        final(run)@.visits.len() == 0,
        final(run)@.itinerary.len() == 0,
        final(run).outcome == Outcome::Running,
        final(run).just_entered == old(run).just_entered,
        final(run).closure is None,
        !final(run).solved,
        final(run).laps == 0,
        final(run).total_moves == 0,
{
    run.components = grid.solid_components();
    run.visits.clear();
    run.itinerary.clear();
    run.outcome = Outcome::Running;
    run.closure = None;
    run.solved = false;
    run.laps = 0;
    run.total_moves = 0;
}


pub proof fn lemma_cw45_small(o: (int, int))
    ensures
        -1 <= cw45(o).0 - o.0 <= 1,
        -1 <= cw45(o).1 - o.1 <= 1,
{
}

/// A successful walk steps onto an on-board cell next to its final anchor,
/// which is either the anchor it started from or an on-board solid.
pub proof fn lemma_walk_shape(g: Grid, fx: int, fy: int, a: (int, int), fuel: nat)
    requires
        walk(g, fx, fy, a, fuel) is Some,
    ensures
        ({
            let (t, a1) = walk(g, fx, fy, a, fuel)->0;
            &&& t == (a1.0 + cw45((fx - a1.0, fy - a1.1)).0, a1.1 + cw45((fx - a1.0, fy - a1.1)).1)
            &&& in_bounds(t.0, t.1)
            &&& g.cell(t.0, t.1) == Some(Cell::Empty)
            &&& (a1 == a || g.solid_at(a1.0, a1.1))
        }),
    decreases fuel,
{
    let o = cw45((fx - a.0, fy - a.1));
    let t = (a.0 + o.0, a.1 + o.1);
    if g.cell(t.0, t.1) == Some(Cell::Solid) {
        lemma_walk_shape(g, fx, fy, t, (fuel - 1) as nat);
    }
}

/// Follow the contour clockwise from `from` around `anchor`: the cell stepped
/// onto and the final anchor.
fn walk_exec(grid: &Grid, from: Pos, anchor: Pos) -> (r: Option<(Pos, Pos)>)
    requires
        grid.wf(),
    ensures
        match walk(*grid, from.x as int, from.y as int, (anchor.x as int, anchor.y as int), 8) {
            None => r is None,
            Some((t, a1)) => r == Some((to_pos(t), to_pos(a1))) && (r matches Some((p, q)) && t == (
                p.x as int,
                p.y as int,
            ) && a1 == (q.x as int, q.y as int)),
        },
{
    let fx = from.x as i64;
    let fy = from.y as i64;
    let mut ax = anchor.x as i64;
    let mut ay = anchor.y as i64;
    let mut n: usize = 0;
    while n < 8
        invariant
            grid.wf(),
            fx == from.x,
            fy == from.y,
            n <= 8,
            i32::MIN <= ax <= i32::MAX,
            i32::MIN <= ay <= i32::MAX,
            walk(*grid, fx as int, fy as int, (ax as int, ay as int), (8 - n) as nat) == walk(
                *grid,
                fx as int,
                fy as int,
                (anchor.x as int, anchor.y as int),
                8,
            ),
        decreases 8 - n,
    {
        let (ox, oy) = cw45_exec(fx - ax, fy - ay);
        let tx = ax + ox;
        let ty = ay + oy;
        match grid.get_at(tx, ty) {
            Some(Cell::Solid) => {
                ax = tx;
                ay = ty;
            },
            Some(Cell::Empty) => {
                return Some((Pos { x: tx as i32, y: ty as i32 }, Pos { x: ax as i32, y: ay as i32 }));
            },
            None => {
                return None;
            },
        }
        n = n + 1;
    }
    None
}

/// One tile of movement. The ball resolves its anchor if it has none, walks
/// clockwise around it, pays (or gains) the move's charge, and the run records
/// the arrival, the loop closure, laps and the victory.
pub fn step_once(grid: &Grid, run: &mut Run, ball: &mut Ball)
    requires
        grid.wf(),
        old(run).components@.len() == GRID_CELLS,
        old(run).itinerary@.len() <= MAX_ITINERARY,
        i64::MIN < old(ball).charge < i64::MAX,
        old(run).laps < u32::MAX,
        old(run).total_moves < u64::MAX,
    ensures
        (final(run)@, *final(ball)) == step_result(*grid, old(run)@, *old(ball)),
        final(run)@.components == old(run)@.components,
        final(run)@.itinerary.len() <= MAX_ITINERARY,
        visits_distinct(old(run)@.visits) ==> visits_distinct(final(run)@.visits),
{
    proof {
        if visits_distinct(run@.visits) {
            lemma_step_keeps_visits_distinct(*grid, run@, *ball);
        }
    }
    let from = ball.cell;
    if ball.anchor.is_none() {
        match initial_anchor(run, from) {
            None => {
                run.outcome = Outcome::Stuck;
                return;
            },
            Some(a) => {
                ball.anchor = Some(a);
                record_visit(&mut run.visits, from, a, ball.charge);
            },
        }
    }
    let anchor = match ball.anchor {
        Some(a) => a,
        None => {
            return;
        },
    };
    let (next, anc) = match walk_exec(grid, from, anchor) {
        None => {
            run.outcome = Outcome::Stuck;
            return;
        },
        Some(p) => p,
    };
    proof {
        lemma_walk_shape(*grid, from.x as int, from.y as int, (anchor.x as int, anchor.y as int), 8);
        lemma_cw45_small((from.x - anc.x, from.y - anc.y));
    }
    ball.anchor = Some(anc);
    let prev_dir = if ball.moved {
        Some(ball.dir)
    } else {
        None
    };
    let d = Pos { x: (next.x as i64 - from.x as i64) as i32, y: (next.y as i64 - from.y as i64) as i32 };
    let after_vertical = match prev_dir {
        Some(p) => p.y != 0,
        None => false,
    };
    let after_descent = match prev_dir {
        Some(p) => p.y < 0,
        None => false,
    };
    let combo = d.y == 0 && after_vertical;
    let charge: i64 = if d.y < 0 {
        CHARGE_PER_CELL
    } else if d.y > 0 {
        -CHARGE_PER_CELL
    } else if after_descent {
        CHARGE_PER_CELL
    } else {
        -CHARGE_PER_CELL
    };
    if ball.charge + charge < 0 {
        run.outcome = Outcome::Depleted;
        return;
    }
    let arrival = ball.charge + charge;
    match find_visit(&run.visits, next, anc) {
        Some(best) => {
            if run.closure.is_none() {
                run.closure = Some((next, anc));
            }
            if arrival >= best && !run.solved {
                run.solved = true;
            }
        },
        None => {},
    }
    ball.prev = ball.cell;
    ball.charge = arrival;
    ball.dir = d;
    ball.cell = next;
    ball.moved = true;
    record_visit(&mut run.visits, next, anc, arrival);
    run.itinerary.push(MoveRecord { cell: from, dir: d, combo, charge });
    run.total_moves = run.total_moves + 1;
    let lap = match run.closure {
        Some((c, a)) => c == next && a == anc,
        None => false,
    };
    if lap {
        run.laps = run.laps + 1;
        if run.solved && run.laps >= VICTORY_LAPS && run.outcome == Outcome::Running {
            run.outcome = Outcome::Victory;
        }
    }
    if run.itinerary.len() > MAX_ITINERARY {
        let excess = run.itinerary.len() - MAX_ITINERARY;
        let kept = run.itinerary.split_off(excess);
        run.itinerary = kept;
    }
}

/// One more step stays within the machine's counters: the labels cover the
/// board, the itinerary is within bounds, the charge can move by a unit, and
/// the lap and move counters can grow.
pub open spec fn can_step(r: RunModel, b: Ball) -> bool {
    &&& r.components.len() == GRID_CELLS
    &&& r.itinerary.len() <= MAX_ITINERARY
    &&& i64::MIN < b.charge < i64::MAX
    &&& r.laps < u32::MAX
    &&& r.total_moves < u64::MAX
}

/// Up to `n` steps, while the run is still going and the counters allow.
pub open spec fn steps_result(g: Grid, r: RunModel, b: Ball, n: nat) -> (RunModel, Ball)
    decreases n,
{
    if n == 0 || r.outcome != Outcome::Running || !can_step(r, b) {
        (r, b)
    } else {
        let (r1, b1) = step_result(g, r, b);
        steps_result(g, r1, b1, (n - 1) as nat)
    }
}

/// Is [`can_step`] true of `run` and `ball`?
pub fn step_allowed(run: &Run, ball: &Ball) -> (r: bool)
    ensures
        r == can_step(run@, *ball),
{
    run.components.len() == GRID_CELLS && run.itinerary.len() <= MAX_ITINERARY && ball.charge > i64::MIN
        && ball.charge < i64::MAX && run.laps < u32::MAX && run.total_moves < u64::MAX
}

/// Step the ball up to `n` times, stopping as soon as the run ends.
pub fn run_steps(grid: &Grid, run: &mut Run, ball: &mut Ball, n: usize)
    requires
        grid.wf(),
    ensures
        (final(run)@, *final(ball)) == steps_result(*grid, old(run)@, *old(ball), n as nat),
{
    let mut i: usize = 0;
    while i < n
        invariant
            grid.wf(),
            i <= n,
            steps_result(*grid, run@, *ball, (n - i) as nat) == steps_result(*grid, old(run)@, *old(ball), n as nat),
        decreases n - i,
    {
        if run.outcome != Outcome::Running || !step_allowed(run, ball) {
            return;
        }
        step_once(grid, run, ball);
        i = i + 1;
    }
}

/// Taking `i` steps and then `m` more is taking `i + m` steps.
pub proof fn lemma_steps_split(g: Grid, r: RunModel, b: Ball, i: nat, m: nat)
    ensures
        steps_result(g, r, b, i + m) == ({
            let (r1, b1) = steps_result(g, r, b, i);
            steps_result(g, r1, b1, m)
        }),
    decreases i,
{
    if i > 0 && r.outcome == Outcome::Running && can_step(r, b) {
        let (r1, b1) = step_result(g, r, b);
        lemma_steps_split(g, r1, b1, (i - 1) as nat, m);
        assert((i + m - 1) as nat == (i - 1) as nat + m);
    }
}

/// The arrows already on screen: moves `front..next` of the run have one.
pub struct ArrowLog {
    pub front: u64,
    pub next: u64,
}

/// What to change on screen this frame.
pub struct ArrowPlan {
    /// Drop every arrow: a fresh run began.
    pub clear_all: bool,
    /// How many of the oldest arrows to drop.
    pub drop: u64,
    /// The itinerary entries that get a new arrow, oldest first.
    pub spawn: Vec<usize>,
}

/// Keep one arrow per move still in the itinerary. A run with no moves
/// clears them all. Otherwise the moves that fell off the front of the
/// trimmed itinerary (the first `total_moves - kept`) lose their arrows, and
/// every move made since the last frame gets one, by its itinerary index.
pub fn plan_arrows(log: &mut ArrowLog, total_moves: u64, kept: usize) -> (p: ArrowPlan)
    requires
        total_moves == 0 || (kept <= total_moves && old(log).next + kept >= total_moves),
    ensures
        total_moves == 0 ==> p.clear_all && p.drop == 0 && p.spawn@.len() == 0 && final(log).front == 0
            && final(log).next == 0,
        total_moves > 0 ==> {
            let base = total_moves - kept;
            let from = old(log).next as int;
            &&& !p.clear_all
            &&& p.drop == if old(log).front < base {
                base - old(log).front
            } else {
                0
            }
            &&& final(log).front == if old(log).front < base {
                base
            } else {
                old(log).front as int
            }
            &&& p.spawn@ == Seq::new(
                (if from < total_moves {
                    total_moves - from
                } else {
                    0
                }) as nat,
                |i: int| (from + i - base) as usize,
            )
            &&& forall|i: int| 0 <= i < p.spawn@.len() ==> #[trigger] p.spawn@[i] < kept
            &&& final(log).next == if from < total_moves {
                total_moves as int
            } else {
                from
            }
        },
{
    if total_moves == 0 {
        log.front = 0;
        log.next = 0;
        return ArrowPlan { clear_all: true, drop: 0, spawn: Vec::new() };
    }
    let base = total_moves - kept as u64;
    let drop = if log.front < base {
        base - log.front
    } else {
        0
    };
    if log.front < base {
        log.front = base;
    }
    let ghost from = old(log).next as int;
    let ghost count: nat = (if from < total_moves {
        total_moves - from
    } else {
        0
    }) as nat;
    let mut spawn: Vec<usize> = Vec::new();
    while log.next < total_moves
        invariant
            from == old(log).next,
            log.front == (if old(log).front < base {
                base
            } else {
                old(log).front
            }),
            base == total_moves - kept,
            kept <= total_moves,
            from + kept >= total_moves,
            from <= log.next,
            log.next <= total_moves || log.next == from,
            count == (if from < total_moves {
                total_moves - from
            } else {
                0
            }),
            spawn@ == Seq::new((log.next - from) as nat, |i: int| (from + i - base) as usize),
        decreases total_moves - log.next,
    {
        let index = (log.next - base) as usize;
        spawn.push(index);
        proof {
            assert(spawn@ =~= Seq::new((log.next + 1 - from) as nat, |i: int| (from + i - base) as usize));
        }
        log.next = log.next + 1;
    }
    proof {
        assert(spawn@ =~= Seq::new(count, |i: int| (from + i - base) as usize));
        assert forall|i: int| 0 <= i < spawn@.len() implies #[trigger] spawn@[i] < kept by {
            assert(from + i < total_moves);
        }
    }
    ArrowPlan { clear_all: false, drop, spawn }
}

} // verus!
