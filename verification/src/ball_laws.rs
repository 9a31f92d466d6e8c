//! What every step of the ball keeps: it stays next to a solid anchor of the
//! mass it started on, moves orthogonally one cell at a time, never spends
//! charge it does not have, records nothing for a failed move, keeps the
//! first-arrival charges, and only wins after solving its loop.
use vstd::prelude::*;

use crate::ball::{
    best_heading, cw45, first_anchor_from, first_component, initial_anchor_at, label_at, lemma_walk_shape,
    anchor_fits, lookup, move_charge, or_insert, push_bounded, resolved_anchor, step_result, steps_result, can_step,
    lemma_steps_split, lemma_step_keeps_visits_distinct, visits_distinct, walk, Ball, MoveRecord, Outcome, RunModel, Visit, MAX_ITINERARY, VICTORY_LAPS,
};
use crate::components::{components_valid, labels_linked, linked, nbr_ok};
use crate::grid::{idx, in_bounds, lemma_idx_bounds, n8, Cell, Grid, Pos};

verus! {

/// `o` is one of the eight neighbour offsets.
pub open spec fn ring(o: (int, int)) -> bool {
    -1 <= o.0 <= 1 && -1 <= o.1 <= 1 && o != (0int, 0int)
}

/// `o` is one of the four orthogonal unit offsets.
pub open spec fn unit4(o: (int, int)) -> bool {
    ||| o.0 == 0 && (o.1 == 1 || o.1 == -1)
    ||| o.1 == 0 && (o.0 == 1 || o.0 == -1)
}

/// The ball, if anchored, sits next to an on-board labelled solid.
pub open spec fn anchored(g: Grid, r: RunModel, b: Ball) -> bool {
    b.anchor matches Some(a) ==> {
        &&& ring((b.cell.x - a.x, b.cell.y - a.y))
        &&& g.solid_at(a.x as int, a.y as int)
        &&& label_at(r.components, a.x as int, a.y as int) is Some
    }
}

/// The direction index of a ring offset.
pub open spec fn dir_of(o: (int, int)) -> int {
    if o == (1int, 0int) {
        0
    } else if o == (1int, 1int) {
        1
    } else if o == (0int, 1int) {
        2
    } else if o == (-1int, 1int) {
        3
    } else if o == (-1int, 0int) {
        4
    } else if o == (-1int, -1int) {
        5
    } else if o == (0int, -1int) {
        6
    } else {
        7
    }
}

proof fn lemma_dir_of(o: (int, int))
    requires
        ring(o),
    ensures
        0 <= dir_of(o) < 8,
        n8(dir_of(o)) == o,
{
}

proof fn lemma_cw45_ring(o: (int, int))
    requires
        ring(o),
    ensures
        ring(cw45(o)),
        unit4((cw45(o).0 - o.0, cw45(o).1 - o.1)),
        unit4((o.0 - cw45(o).0, o.1 - cw45(o).1)),
{
}

proof fn lemma_unit4_ring(o: (int, int))
    requires
        unit4(o),
    ensures
        ring(o),
{
}

/// Walking from a cell next to the anchor keeps the cell next to every
/// pivoted anchor; the step lands next to the final anchor, one orthogonal
/// cell away.
proof fn lemma_walk_adjacent(g: Grid, fx: int, fy: int, a: (int, int), fuel: nat)
    requires
        ring((fx - a.0, fy - a.1)),
        walk(g, fx, fy, a, fuel) is Some,
    ensures
        ({
            let (t, a1) = walk(g, fx, fy, a, fuel)->0;
            &&& ring((fx - a1.0, fy - a1.1))
            &&& ring((t.0 - a1.0, t.1 - a1.1))
            &&& unit4((t.0 - fx, t.1 - fy))
        }),
    decreases fuel,
{
    let o = (fx - a.0, fy - a.1);
    let w = cw45(o);
    let t = (a.0 + w.0, a.1 + w.1);
    lemma_cw45_ring(o);
    if g.cell(t.0, t.1) == Some(Cell::Solid) {
        lemma_unit4_ring((o.0 - w.0, o.1 - w.1));
        lemma_walk_adjacent(g, fx, fy, t, (fuel - 1) as nat);
    }
}

/// Pivots stay on one 8-connected mass.
proof fn lemma_walk_component(g: Grid, labels: Seq<Option<usize>>, fx: int, fy: int, a: (int, int), fuel: nat)
    requires
        g.wf(),
        components_valid(g.cells@, labels),
        ring((fx - a.0, fy - a.1)),
        label_at(labels, a.0, a.1) is Some,
        walk(g, fx, fy, a, fuel) is Some,
    ensures
        walk(g, fx, fy, a, fuel) matches Some((t, a1)) && label_at(labels, a1.0, a1.1) == label_at(
            labels,
            a.0,
            a.1,
        ),
    decreases fuel,
{
    let o = (fx - a.0, fy - a.1);
    let w = cw45(o);
    let t = (a.0 + w.0, a.1 + w.1);
    lemma_cw45_ring(o);
    if g.cell(t.0, t.1) == Some(Cell::Solid) {
        let i = idx(a.0, a.1);
        let d = dir_of(w);
        lemma_dir_of(w);
        lemma_idx_bounds(a.0, a.1);
        lemma_idx_bounds(t.0, t.1);
        assert(nbr_ok(g.cells@, labels, i, d));
        lemma_unit4_ring((o.0 - w.0, o.1 - w.1));
        lemma_walk_component(g, labels, fx, fy, t, (fuel - 1) as nat);
    }
}

proof fn lemma_first_anchor_from(
    labels: Seq<Option<usize>>,
    comp: usize,
    cx: int,
    cy: int,
    heading: (int, int),
    check: bool,
    k: int,
)
    requires
        first_anchor_from(labels, comp, cx, cy, heading, check, k) is Some,
    ensures
        ({
            let p = first_anchor_from(labels, comp, cx, cy, heading, check, k)->0;
            &&& ring((cx - p.0, cy - p.1))
            &&& label_at(labels, p.0, p.1) == Some(comp)
        }),
    decreases 8 - k,
{
    if k < 8 && !anchor_fits(labels, comp, cx, cy, heading, check, k) {
        lemma_first_anchor_from(labels, comp, cx, cy, heading, check, k + 1);
    }
}

/// The anchor resolved for a fresh ball is a neighbouring solid of the first
/// labelled mass around it.
proof fn lemma_initial_anchor(g: Grid, labels: Seq<Option<usize>>, cx: int, cy: int)
    requires
        g.wf(),
        components_valid(g.cells@, labels),
        initial_anchor_at(labels, cx, cy) is Some,
    ensures
        ({
            let p = initial_anchor_at(labels, cx, cy)->0;
            &&& ring((cx - p.0, cy - p.1))
            &&& label_at(labels, p.0, p.1) == first_component(labels, cx, cy, 0)
            &&& first_component(labels, cx, cy, 0) is Some
            &&& g.solid_at(p.0, p.1)
        }),
{
    let comp = first_component(labels, cx, cy, 0)->0;
    let heading = best_heading(labels, comp, cx, cy);
    if first_anchor_from(labels, comp, cx, cy, heading, true, 0) is Some {
        lemma_first_anchor_from(labels, comp, cx, cy, heading, true, 0);
    } else {
        lemma_first_anchor_from(labels, comp, cx, cy, heading, false, 0);
    }
    let p = initial_anchor_at(labels, cx, cy)->0;
    lemma_idx_bounds(p.0, p.1);
}

/// The ball stays next to its anchor, and the anchor stays an on-board solid
/// of the mass: it can never float off onto a different contour.
pub proof fn ball_stays_on_its_anchor(g: Grid, r: RunModel, b: Ball)
    requires
        g.wf(),
        components_valid(g.cells@, r.components),
        anchored(g, r, b),
    ensures
        anchored(g, step_result(g, r, b).0, step_result(g, r, b).1),
        step_result(g, r, b).0.components == r.components,
{
    let from = b.cell;
    if b.anchor is None {
        if initial_anchor_at(r.components, from.x as int, from.y as int) is Some {
            lemma_initial_anchor(g, r.components, from.x as int, from.y as int);
        }
    }
    if resolved_anchor(r, b) is Some {
        let a = resolved_anchor(r, b)->0;
        let w = walk(g, from.x as int, from.y as int, (a.x as int, a.y as int), 8);
        if w is Some {
            lemma_walk_adjacent(g, from.x as int, from.y as int, (a.x as int, a.y as int), 8);
            lemma_walk_shape(g, from.x as int, from.y as int, (a.x as int, a.y as int), 8);
            lemma_walk_component(g, r.components, from.x as int, from.y as int, (a.x as int, a.y as int), 8);
        }
    }
}

/// The anchor never changes mass: after a step it belongs to the same
/// 8-connected component as before, and a fresh ball takes the mass of its
/// first labelled neighbour.
pub proof fn anchor_keeps_its_component(g: Grid, r: RunModel, b: Ball)
    requires
        g.wf(),
        components_valid(g.cells@, r.components),
        anchored(g, r, b),
    ensures
        step_result(g, r, b).1.anchor matches Some(a2) ==> label_at(r.components, a2.x as int, a2.y as int)
            == match b.anchor {
            Some(a) => label_at(r.components, a.x as int, a.y as int),
            None => first_component(r.components, b.cell.x as int, b.cell.y as int, 0),
        },
{
    let from = b.cell;
    if b.anchor is None {
        if initial_anchor_at(r.components, from.x as int, from.y as int) is Some {
            lemma_initial_anchor(g, r.components, from.x as int, from.y as int);
        }
    }
    if resolved_anchor(r, b) is Some {
        let a = resolved_anchor(r, b)->0;
        let w = walk(g, from.x as int, from.y as int, (a.x as int, a.y as int), 8);
        if w is Some {
            lemma_walk_shape(g, from.x as int, from.y as int, (a.x as int, a.y as int), 8);
            lemma_walk_component(g, r.components, from.x as int, from.y as int, (a.x as int, a.y as int), 8);
        }
    }
}

/// The ball follows the 8-connected solid mass it stands on: the anchor after
/// a step is linked to the anchor before it through touching solid cells.
pub proof fn ball_keeps_to_its_mass(g: Grid, r: RunModel, b: Ball)
    requires
        g.wf(),
        components_valid(g.cells@, r.components),
        labels_linked(g.cells@, r.components),
        anchored(g, r, b),
        b.anchor is Some,
    ensures
        step_result(g, r, b).1.anchor matches Some(a2) ==> linked(
            g.cells@,
            idx(b.anchor->0.x as int, b.anchor->0.y as int),
            idx(a2.x as int, a2.y as int),
        ),
{
    ball_stays_on_its_anchor(g, r, b);
    anchor_keeps_its_component(g, r, b);
    let a = b.anchor->0;
    let nb = step_result(g, r, b).1;
    if nb.anchor is Some {
        let a2 = nb.anchor->0;
        lemma_idx_bounds(a.x as int, a.y as int);
        lemma_idx_bounds(a2.x as int, a2.y as int);
        let i = idx(a.x as int, a.y as int);
        let j = idx(a2.x as int, a2.y as int);
        assert(r.components[i] is Some && r.components[i] == r.components[j]);
    }
}

/// Movement is orthogonal only: a step moves the ball exactly one cell east,
/// north, west or south.
pub proof fn moves_are_orthogonal(g: Grid, r: RunModel, b: Ball)
    requires
        g.wf(),
        components_valid(g.cells@, r.components),
        anchored(g, r, b),
    ensures
        ({
            let nb = step_result(g, r, b).1;
            nb.cell != b.cell ==> unit4((nb.cell.x - b.cell.x, nb.cell.y - b.cell.y))
        }),
{
    let from = b.cell;
    if b.anchor is None {
        if initial_anchor_at(r.components, from.x as int, from.y as int) is Some {
            lemma_initial_anchor(g, r.components, from.x as int, from.y as int);
        }
    }
    if resolved_anchor(r, b) is Some {
        let a = resolved_anchor(r, b)->0;
        let w = walk(g, from.x as int, from.y as int, (a.x as int, a.y as int), 8);
        if w is Some {
            lemma_walk_adjacent(g, from.x as int, from.y as int, (a.x as int, a.y as int), 8);
            lemma_walk_shape(g, from.x as int, from.y as int, (a.x as int, a.y as int), 8);
        }
    }
}


/// When the walk succeeds, the cell stepped onto is on the board and at most
/// one cell away from the start on each axis.
proof fn lemma_step_shape(g: Grid, r: RunModel, b: Ball)
    requires
        g.wf(),
        resolved_anchor(r, b) is Some,
        walk(
            g,
            b.cell.x as int,
            b.cell.y as int,
            (resolved_anchor(r, b)->0.x as int, resolved_anchor(r, b)->0.y as int),
            8,
        ) is Some,
    ensures
        ({
            let a = resolved_anchor(r, b)->0;
            let (t, a1) = walk(g, b.cell.x as int, b.cell.y as int, (a.x as int, a.y as int), 8)->0;
            &&& in_bounds(t.0, t.1)
            &&& -1 <= t.0 - b.cell.x <= 1
            &&& -1 <= t.1 - b.cell.y <= 1
            &&& crate::ball::to_pos(t).x == t.0
            &&& crate::ball::to_pos(t).y == t.1
        }),
{
    let a = resolved_anchor(r, b)->0;
    let (t, a1) = walk(g, b.cell.x as int, b.cell.y as int, (a.x as int, a.y as int), 8)->0;
    lemma_walk_shape(g, b.cell.x as int, b.cell.y as int, (a.x as int, a.y as int), 8);
    crate::ball::lemma_cw45_small((b.cell.x - a1.0, b.cell.y - a1.1));
}

/// The ball never spends charge it does not have: a move the battery cannot
/// pay for ends the run instead, so the charge stays non-negative. A move
/// changes the charge by exactly what [`move_charge`] says.
pub proof fn charge_never_goes_negative(g: Grid, r: RunModel, b: Ball)
    requires
        g.wf(),
        0 <= b.charge < i64::MAX,
    ensures
        ({
            let nb = step_result(g, r, b).1;
            &&& nb.charge >= 0
            &&& nb.cell != b.cell ==> nb.charge == b.charge + move_charge(
                nb.cell.y - b.cell.y,
                if b.moved {
                    Some(b.dir)
                } else {
                    None
                },
            )
        }),
{
    if resolved_anchor(r, b) is Some {
        let a = resolved_anchor(r, b)->0;
        if walk(g, b.cell.x as int, b.cell.y as int, (a.x as int, a.y as int), 8) is Some {
            lemma_step_shape(g, r, b);
        }
    }
}

/// A failed move (stuck, or a battery that cannot pay) leaves the ball where
/// it was with its charge, and records nothing.
pub proof fn failed_move_is_not_recorded(g: Grid, r: RunModel, b: Ball)
    requires
        r.outcome == Outcome::Running,
    ensures
        ({
            let (nr, nb) = step_result(g, r, b);
            (nr.outcome == Outcome::Stuck || nr.outcome == Outcome::Depleted) ==> {
                &&& nb.cell == b.cell
                &&& nb.charge == b.charge
                &&& nb.dir == b.dir
                &&& nr.itinerary == r.itinerary
                &&& nr.total_moves == r.total_moves
                &&& nr.laps == r.laps
                &&& nr.solved == r.solved
            }
        }),
{
}

/// The level only detonates after its loop was solved and lapped
/// [`VICTORY_LAPS`] times.
pub proof fn victory_needs_a_solved_loop(g: Grid, r: RunModel, b: Ball)
    requires
        r.outcome != Outcome::Victory,
    ensures
        step_result(g, r, b).0.outcome == Outcome::Victory ==> step_result(g, r, b).0.solved
            && step_result(g, r, b).0.laps >= VICTORY_LAPS && step_result(g, r, b).0.laps == r.laps + 1,
{
}

proof fn lemma_lookup_or_insert(v: Seq<Visit>, c: Pos, a: Pos, charge: i64, kc: Pos, ka: Pos)
    requires
        lookup(v, kc, ka) is Some,
    ensures
        lookup(or_insert(v, c, a, charge), kc, ka) == lookup(v, kc, ka),
{
    if lookup(v, c, a) is None {
        assert(v.push(Visit { cell: c, anchor: a, charge }).drop_last() =~= v);
    }
}

/// The charge recorded at a state's first arrival is never overwritten.
pub proof fn first_arrival_is_kept(g: Grid, r: RunModel, b: Ball, cell: Pos, anchor: Pos)
    requires
        g.wf(),
        i64::MIN < b.charge < i64::MAX,
        lookup(r.visits, cell, anchor) is Some,
    ensures
        lookup(step_result(g, r, b).0.visits, cell, anchor) == lookup(r.visits, cell, anchor),
{
    let from = b.cell;
    if resolved_anchor(r, b) is Some {
        let a = resolved_anchor(r, b)->0;
        let visits1 = if b.anchor is None {
            or_insert(r.visits, from, a, b.charge)
        } else {
            r.visits
        };
        if b.anchor is None {
            lemma_lookup_or_insert(r.visits, from, a, b.charge, cell, anchor);
        }
        match walk(g, from.x as int, from.y as int, (a.x as int, a.y as int), 8) {
            Some((t, a1)) => {
                lemma_step_shape(g, r, b);
                let c = move_charge(to_pos_y(t) - from.y, if b.moved {
                    Some(b.dir)
                } else {
                    None
                });
                if b.charge + c >= 0 {
                    lemma_lookup_or_insert(
                        visits1,
                        crate::ball::to_pos(t),
                        crate::ball::to_pos(a1),
                        (b.charge + c) as i64,
                        cell,
                        anchor,
                    );
                }
            },
            None => {},
        }
    }
}

spec fn to_pos_y(t: (int, int)) -> int {
    crate::ball::to_pos(t).y as int
}

/// The level is solved only when the ball re-enters a `(cell, anchor)` state
/// it visited before, with at least the charge it had on the first visit.
pub proof fn solving_needs_a_return_with_enough_charge(g: Grid, r: RunModel, b: Ball)
    requires
        g.wf(),
        i64::MIN < b.charge < i64::MAX,
        !r.solved,
    ensures
        ({
            let (nr, nb) = step_result(g, r, b);
            nr.solved ==> {
                &&& nb.anchor is Some
                &&& nb.cell != b.cell || nb.anchor != b.anchor || nb.charge != b.charge || nb.moved
                &&& lookup(nr.visits, nb.cell, nb.anchor->0) matches Some(first) && first <= nb.charge
            }
        }),
{
    let from = b.cell;
    if resolved_anchor(r, b) is Some {
        let a = resolved_anchor(r, b)->0;
        let visits1 = if b.anchor is None {
            or_insert(r.visits, from, a, b.charge)
        } else {
            r.visits
        };
        match walk(g, from.x as int, from.y as int, (a.x as int, a.y as int), 8) {
            Some((t, a1)) => {
                lemma_step_shape(g, r, b);
                let next = crate::ball::to_pos(t);
                let anc = crate::ball::to_pos(a1);
                let c = move_charge(to_pos_y(t) - from.y, if b.moved {
                    Some(b.dir)
                } else {
                    None
                });
                if b.charge + c >= 0 && lookup(visits1, next, anc) is Some {
                    lemma_lookup_or_insert(visits1, next, anc, (b.charge + c) as i64, next, anc);
                }
            },
            None => {},
        }
    }
}

/// The next move is a pure function of `(cell, anchor)`: two anchored balls
/// in the same state that both move go to the same cell with the same anchor.
pub proof fn next_move_depends_only_on_cell_and_anchor(g: Grid, r1: RunModel, r2: RunModel, b1: Ball, b2: Ball)
    requires
        b1.cell == b2.cell,
        b1.anchor is Some,
        b1.anchor == b2.anchor,
        step_result(g, r1, b1).1.cell != b1.cell,
        step_result(g, r2, b2).1.cell != b2.cell,
    ensures
        step_result(g, r1, b1).1.cell == step_result(g, r2, b2).1.cell,
        step_result(g, r1, b1).1.anchor == step_result(g, r2, b2).1.anchor,
{
}

/// What holds at every state of a run started on the board: its labels are
/// kept, the ball sits next to a labelled solid anchor, the itinerary stays
/// within its bound, a won run was solved and lapped, and a battery that
/// started non-empty is never overdrawn.
pub open spec fn run_state_ok(g: Grid, labels: Seq<Option<usize>>, r: RunModel, b: Ball, nonneg: bool) -> bool {
    &&& r.components == labels
    &&& anchored(g, r, b)
    &&& r.itinerary.len() <= MAX_ITINERARY
    &&& r.outcome == Outcome::Victory ==> r.solved && r.laps >= VICTORY_LAPS
    &&& nonneg ==> b.charge >= 0
}

/// `(r2, b2)` is at least as far along as `(r, b)`: a solved loop stays
/// solved, and laps and moves only grow.
pub open spec fn no_going_back(r: RunModel, r2: RunModel) -> bool {
    &&& r.solved ==> r2.solved
    &&& r.laps <= r2.laps
    &&& r.total_moves <= r2.total_moves
}

proof fn lemma_push_bounded(it: Seq<MoveRecord>, rec: MoveRecord)
    requires
        it.len() <= MAX_ITINERARY,
    ensures
        push_bounded(it, rec).len() <= MAX_ITINERARY,
        push_bounded(it, rec).len() > 0,
        push_bounded(it, rec).last() == rec,
{
}

/// One step keeps [`run_state_ok`] and never goes back.
proof fn lemma_one_step_ok(g: Grid, labels: Seq<Option<usize>>, r: RunModel, b: Ball, nonneg: bool)
    requires
        g.wf(),
        components_valid(g.cells@, labels),
        run_state_ok(g, labels, r, b, nonneg),
        r.outcome == Outcome::Running,
        can_step(r, b),
    ensures
        run_state_ok(g, labels, step_result(g, r, b).0, step_result(g, r, b).1, nonneg),
        no_going_back(r, step_result(g, r, b).0),
{
    ball_stays_on_its_anchor(g, r, b);
    victory_needs_a_solved_loop(g, r, b);
    if nonneg {
        charge_never_goes_negative(g, r, b);
    }
    let (r2, b2) = step_result(g, r, b);
    if r2.itinerary != r.itinerary {
        let from = b.cell;
        let a = resolved_anchor(r, b)->0;
        let (t, a1) = walk(g, from.x as int, from.y as int, (a.x as int, a.y as int), 8)->0;
        let next = crate::ball::to_pos(t);
        let d = Pos { x: (next.x - from.x) as i32, y: (next.y - from.y) as i32 };
        let prev = if b.moved {
            Some(b.dir)
        } else {
            None
        };
        let c = move_charge(d.y as int, prev);
        lemma_push_bounded(
            r.itinerary,
            MoveRecord { cell: from, dir: d, combo: d.y == 0 && (prev matches Some(p) && p.y != 0), charge: c as i64 },
        );
    }
}

/// Up to `n` steps keep [`run_state_ok`] and never go back.
proof fn lemma_steps_ok(g: Grid, labels: Seq<Option<usize>>, r: RunModel, b: Ball, nonneg: bool, n: nat)
    requires
        g.wf(),
        components_valid(g.cells@, labels),
        run_state_ok(g, labels, r, b, nonneg),
    ensures
        run_state_ok(g, labels, steps_result(g, r, b, n).0, steps_result(g, r, b, n).1, nonneg),
        no_going_back(r, steps_result(g, r, b, n).0),
    decreases n,
{
    if n > 0 && r.outcome == Outcome::Running && can_step(r, b) {
        lemma_one_step_ok(g, labels, r, b, nonneg);
        let (r1, b1) = step_result(g, r, b);
        lemma_steps_ok(g, labels, r1, b1, nonneg, (n - 1) as nat);
    }
}

/// Up to `n` steps never record a `(cell, anchor)` state twice.
proof fn lemma_steps_keep_visits_distinct(g: Grid, r: RunModel, b: Ball, n: nat)
    requires
        visits_distinct(r.visits),
    ensures
        visits_distinct(steps_result(g, r, b, n).0.visits),
    decreases n,
{
    if n > 0 && r.outcome == Outcome::Running && can_step(r, b) {
        lemma_step_keeps_visits_distinct(g, r, b);
        let (r1, b1) = step_result(g, r, b);
        lemma_steps_keep_visits_distinct(g, r1, b1, (n - 1) as nat);
    }
}

/// Over a whole run started on a labelled board with a fresh ball, at every
/// pair of moments `i <= j`: the ball stays next to a labelled solid anchor
/// and the labels are kept; a solved loop never becomes unsolved; laps and
/// moves never decrease; the run is only won once its loop is solved and
/// lapped [`VICTORY_LAPS`] times; the itinerary never holds more than
/// [`MAX_ITINERARY`] moves; a battery that started non-empty is never
/// overdrawn; and no `(cell, anchor)` state is ever recorded twice.
pub proof fn a_run_only_moves_forward(g: Grid, r0: RunModel, b0: Ball, i: nat, j: nat)
    requires
        g.wf(),
        components_valid(g.cells@, r0.components),
        r0.outcome == Outcome::Running,
        r0.itinerary.len() <= MAX_ITINERARY,
        b0.anchor is None,
        i <= j,
    ensures
        ({
            let (ri, bi) = steps_result(g, r0, b0, i);
            let (rj, bj) = steps_result(g, r0, b0, j);
            &&& anchored(g, rj, bj)
            &&& rj.components == r0.components
            &&& no_going_back(ri, rj)
            &&& rj.outcome == Outcome::Victory ==> rj.solved && rj.laps >= VICTORY_LAPS
            &&& rj.itinerary.len() <= MAX_ITINERARY
            &&& b0.charge >= 0 ==> bj.charge >= 0
            &&& visits_distinct(r0.visits) ==> visits_distinct(rj.visits)
        }),
{
    if visits_distinct(r0.visits) {
        lemma_steps_keep_visits_distinct(g, r0, b0, j);
    }
    let nonneg = b0.charge >= 0;
    let labels = r0.components;
    lemma_steps_ok(g, labels, r0, b0, nonneg, i);
    let (ri, bi) = steps_result(g, r0, b0, i);
    lemma_steps_ok(g, labels, ri, bi, nonneg, (j - i) as nat);
    lemma_steps_split(g, r0, b0, i, (j - i) as nat);
    assert(i + (j - i) as nat == j);
}

/// Every step of a run started on a labelled board with a fresh ball, taken
/// while the run is going and its charge fits its type (as the game and the
/// replay take them):
/// - the new anchor is a labelled solid next to the ball, of the same mass
///   as the old one;
/// - a move goes one cell east, north, west or south, points the ball that
///   way, changes the charge by exactly [`move_charge`] of it, is recorded
///   last in the itinerary, and counts one more move;
/// - a move the battery cannot pay for ends the run as depleted, with the
///   ball, its charge and the record unchanged.
pub proof fn every_step_of_a_run(g: Grid, r0: RunModel, b0: Ball, n: nat)
    requires
        g.wf(),
        components_valid(g.cells@, r0.components),
        r0.outcome == Outcome::Running,
        r0.itinerary.len() <= MAX_ITINERARY,
        b0.anchor is None,
    ensures
        ({
            let (r, b) = steps_result(g, r0, b0, n);
            let (r2, b2) = step_result(g, r, b);
            let prev = if b.moved {
                Some(b.dir)
            } else {
                None
            };
            let dx = b2.cell.x - b.cell.x;
            let dy = b2.cell.y - b.cell.y;
            r.outcome == Outcome::Running && i64::MIN < b.charge < i64::MAX ==> {
                &&& anchored(g, r2, b2)
                &&& (b.anchor matches Some(a) ==> (b2.anchor matches Some(a2) ==> label_at(
                    r0.components,
                    a2.x as int,
                    a2.y as int,
                ) == label_at(r0.components, a.x as int, a.y as int)))
                &&& b2.cell != b.cell ==> {
                    &&& unit4((dx, dy))
                    &&& b2.dir.x == dx && b2.dir.y == dy
                    &&& b2.charge == b.charge + move_charge(dy, prev)
                    &&& r2.itinerary.last() == MoveRecord {
                        cell: b.cell,
                        dir: b2.dir,
                        combo: dy == 0 && (prev matches Some(p) && p.y != 0),
                        charge: move_charge(dy, prev) as i64,
                    }
                    &&& r2.total_moves == r.total_moves + 1
                }
                &&& r2.outcome == Outcome::Depleted ==> {
                    &&& b2.cell == b.cell
                    &&& b2.charge == b.charge
                    &&& r2.itinerary == r.itinerary
                    &&& r2.total_moves == r.total_moves
                }
            }
        }),
{
    let labels = r0.components;
    lemma_steps_ok(g, labels, r0, b0, false, n);
    let (r, b) = steps_result(g, r0, b0, n);
    if r.outcome == Outcome::Running && i64::MIN < b.charge < i64::MAX {
        ball_stays_on_its_anchor(g, r, b);
        anchor_keeps_its_component(g, r, b);
        moves_are_orthogonal(g, r, b);
        failed_move_is_not_recorded(g, r, b);
        let (r2, b2) = step_result(g, r, b);
        if b2.cell != b.cell {
            lemma_step_shape(g, r, b);
            let from = b.cell;
            let a = resolved_anchor(r, b)->0;
            let (t, a1) = walk(g, from.x as int, from.y as int, (a.x as int, a.y as int), 8)->0;
            let next = crate::ball::to_pos(t);
            let d = Pos { x: (next.x - from.x) as i32, y: (next.y - from.y) as i32 };
            let prev = if b.moved {
                Some(b.dir)
            } else {
                None
            };
            let c = move_charge(d.y as int, prev);
            lemma_push_bounded(
                r.itinerary,
                MoveRecord { cell: from, dir: d, combo: d.y == 0 && (prev matches Some(p) && p.y != 0), charge: c as i64 },
            );
        }
    }
}

/// A move that has somewhere to go ends the run as depleted exactly when the
/// battery cannot pay for it; otherwise the ball moves there.
pub proof fn depleted_exactly_when_unaffordable(g: Grid, r: RunModel, b: Ball)
    requires
        g.wf(),
        r.outcome == Outcome::Running,
        resolved_anchor(r, b) is Some,
        walk(
            g,
            b.cell.x as int,
            b.cell.y as int,
            (resolved_anchor(r, b)->0.x as int, resolved_anchor(r, b)->0.y as int),
            8,
        ) is Some,
    ensures
        ({
            let a = resolved_anchor(r, b)->0;
            let (t, a1) = walk(g, b.cell.x as int, b.cell.y as int, (a.x as int, a.y as int), 8)->0;
            let c = move_charge(
                t.1 - b.cell.y,
                if b.moved {
                    Some(b.dir)
                } else {
                    None
                },
            );
            let (r2, b2) = step_result(g, r, b);
            &&& (r2.outcome == Outcome::Depleted) == (b.charge + c < 0)
            &&& b.charge + c >= 0 ==> b2.cell.x == t.0 && b2.cell.y == t.1
        }),
{
    lemma_step_shape(g, r, b);
}

/// `o` turned 45 degrees clockwise `n` times.
pub open spec fn turned(o: (int, int), n: nat) -> (int, int)
    decreases n,
{
    if n == 0 {
        o
    } else {
        cw45(turned(o, (n - 1) as nat))
    }
}

/// Turning a neighbour offset 45 degrees clockwise gives the offset before it
/// in the counter-clockwise ring of neighbours (east, north-east, north, …),
/// eight turns come back to the start, and any offset off the ring is left
/// as it is.
pub proof fn cw45_turns_the_ring(o: (int, int))
    ensures
        forall|i: int| 0 <= i < 8 ==> cw45(#[trigger] n8(i)) == n8((i + 7) % 8),
        turned(o, 8) == o,
        !ring(o) ==> cw45(o) == o,
{
    reveal_with_fuel(turned, 9);
    assert(cw45(n8(0)) == n8(7));
}

/// The walk either stays put or lands one orthogonal cell away.
proof fn lemma_walk_moves(g: Grid, fx: int, fy: int, a: (int, int), fuel: nat)
    requires
        walk(g, fx, fy, a, fuel) is Some,
    ensures
        ({
            let (t, a1) = walk(g, fx, fy, a, fuel)->0;
            t == (fx, fy) || unit4((t.0 - fx, t.1 - fy))
        }),
    decreases fuel,
{
    if ring((fx - a.0, fy - a.1)) {
        lemma_walk_adjacent(g, fx, fy, a, fuel);
    } else {
        let o = cw45((fx - a.0, fy - a.1));
        let t = (a.0 + o.0, a.1 + o.1);
        if g.cell(t.0, t.1) == Some(Cell::Solid) {
            lemma_walk_moves(g, fx, fy, t, (fuel - 1) as nat);
        }
    }
}

/// Whatever the state of a run, a step that moves the ball moves it one
/// cell east, north, west or south, points the ball that way, changes the
/// charge by exactly [`move_charge`] of it (gaining on the way down, paying
/// on the way up, and on the level gaining only right after a descent),
/// records the move last in the itinerary, and counts one more move.
pub proof fn every_move_is_one_orthogonal_step(g: Grid, r: RunModel, b: Ball)
    requires
        g.wf(),
        i64::MIN < b.charge < i64::MAX,
    ensures
        ({
            let (r2, b2) = step_result(g, r, b);
            let prev = if b.moved {
                Some(b.dir)
            } else {
                None
            };
            let dx = b2.cell.x - b.cell.x;
            let dy = b2.cell.y - b.cell.y;
            b2.cell != b.cell ==> {
                &&& unit4((dx, dy))
                &&& b2.dir.x == dx && b2.dir.y == dy
                &&& b2.charge == b.charge + move_charge(dy, prev)
                &&& r2.itinerary.len() > 0
                &&& r2.itinerary.last() == MoveRecord {
                    cell: b.cell,
                    dir: b2.dir,
                    combo: dy == 0 && (prev matches Some(p) && p.y != 0),
                    charge: move_charge(dy, prev) as i64,
                }
                &&& r2.total_moves == r.total_moves + 1
            }
        }),
{
    let (r2, b2) = step_result(g, r, b);
    if b2.cell != b.cell {
        let from = b.cell;
        let a = resolved_anchor(r, b)->0;
        let (t, a1) = walk(g, from.x as int, from.y as int, (a.x as int, a.y as int), 8)->0;
        lemma_walk_shape(g, from.x as int, from.y as int, (a.x as int, a.y as int), 8);
        lemma_walk_moves(g, from.x as int, from.y as int, (a.x as int, a.y as int), 8);
        let next = crate::ball::to_pos(t);
        let d = Pos { x: (next.x - from.x) as i32, y: (next.y - from.y) as i32 };
        let prev = if b.moved {
            Some(b.dir)
        } else {
            None
        };
        let c = move_charge(d.y as int, prev);
        let rec = MoveRecord { cell: from, dir: d, combo: d.y == 0 && (prev matches Some(p) && p.y != 0), charge: c as i64 };
        let pushed = r.itinerary.push(rec);
        if pushed.len() > MAX_ITINERARY {
            assert(pushed.skip(pushed.len() - MAX_ITINERARY).last() == rec);
        }
    }
}

/// The loop closes once: the first state the ball returns to becomes the
/// closure state, set when the ball moves onto it and never moved after. A
/// lap is counted exactly when a move lands the ball on that state (the
/// closing move included), and at no other step.
pub proof fn the_loop_closes_once_and_laps_count_returns(g: Grid, r: RunModel, b: Ball)
    ensures
        ({
            let (r2, b2) = step_result(g, r, b);
            let moved = r2.total_moves == r.total_moves + 1;
            &&& r.closure is Some ==> r2.closure == r.closure
            &&& r.closure is None && r2.closure is Some ==> moved && r2.closure == Some((b2.cell, b2.anchor->0))
            &&& r2.laps == r.laps + if moved && r2.closure == Some((b2.cell, b2.anchor->0)) {
                1int
            } else {
                0int
            }
        }),
{
}

} // verus!
