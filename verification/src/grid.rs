//! The play-field grid: the single source of truth for the game world.
//!
//! The world is a small 2D array of [`Cell`]s, stored row by row with row `0`
//! at the bottom. Cells are only `Empty` or `Solid` (the pen). There is no
//! stored surface: the ball walks clockwise around a solid anchor and only ever
//! steps onto a cell 8-adjacent to a solid, so "track" is simply "empty and next
//! to a solid". See [`Grid::is_open`].
use vstd::prelude::*;

verus! {

/// Grid width in cells.
pub const GRID_W: i32 = 160;

/// Grid height in cells.
pub const GRID_H: i32 = 120;

/// How many texture pixels one cell covers in the grid image.
pub const CELL_TEX: i32 = 16;

/// Number of cells on the board.
pub const GRID_CELLS: usize = 19200;

/// An integer cell coordinate on the board; `+y` is up.
#[derive(Clone, Copy, PartialEq, Eq, Debug, Structural)]
pub struct Pos {
    pub x: i32,
    pub y: i32,
}

impl Pos {
    pub fn new(x: i32, y: i32) -> (r: Pos)
        ensures
            r.x == x,
            r.y == y,
    {
        Pos { x, y }
    }
}

/// What occupies a cell.
#[derive(Clone, Copy, PartialEq, Eq, Debug, Structural)]
pub enum Cell {
    /// `0` — nothing here.
    Empty,
    /// `1` — the mass the pen draws.
    Solid,
}

/// The eight neighbour offsets, counter-clockwise starting east.
pub open spec fn n8(k: int) -> (int, int) {
    if k == 0 {
        (1, 0)
    } else if k == 1 {
        (1, 1)
    } else if k == 2 {
        (0, 1)
    } else if k == 3 {
        (-1, 1)
    } else if k == 4 {
        (-1, 0)
    } else if k == 5 {
        (-1, -1)
    } else if k == 6 {
        (0, -1)
    } else {
        (1, -1)
    }
}

/// The four orthogonal offsets: east, north, west, south.
pub open spec fn n4(k: int) -> (int, int) {
    if k == 0 {
        (1, 0)
    } else if k == 1 {
        (0, 1)
    } else if k == 2 {
        (-1, 0)
    } else {
        (0, -1)
    }
}

/// Two cells are 8-adjacent: distinct and at most one apart on each axis.
pub open spec fn adjacent8(ax: int, ay: int, bx: int, by: int) -> bool {
    &&& (ax != bx || ay != by)
    &&& -1 <= ax - bx <= 1
    &&& -1 <= ay - by <= 1
}

/// The `k`-th of the eight neighbour offsets.
pub fn neighbor8(k: usize) -> (r: Pos)
    requires
        k < 8,
    ensures
        (r.x as int, r.y as int) == n8(k as int),
{
    match k {
        0 => Pos { x: 1, y: 0 },
        1 => Pos { x: 1, y: 1 },
        2 => Pos { x: 0, y: 1 },
        3 => Pos { x: -1, y: 1 },
        4 => Pos { x: -1, y: 0 },
        5 => Pos { x: -1, y: -1 },
        6 => Pos { x: 0, y: -1 },
        _ => Pos { x: 1, y: -1 },
    }
}

/// The eight neighbour offsets, counter-clockwise starting east.
pub fn neighbors8() -> (r: [Pos; 8])
    ensures
        forall|k: int| 0 <= k < 8 ==> (#[trigger] r@[k].x as int, r@[k].y as int) == n8(k),
{
    [
        Pos { x: 1, y: 0 },
        Pos { x: 1, y: 1 },
        Pos { x: 0, y: 1 },
        Pos { x: -1, y: 1 },
        Pos { x: -1, y: 0 },
        Pos { x: -1, y: -1 },
        Pos { x: 0, y: -1 },
        Pos { x: 1, y: -1 },
    ]
}

/// The `k`-th of the four orthogonal offsets.
pub fn neighbor4(k: usize) -> (r: Pos)
    requires
        k < 4,
    ensures
        (r.x as int, r.y as int) == n4(k as int),
{
    match k {
        0 => Pos { x: 1, y: 0 },
        1 => Pos { x: 0, y: 1 },
        2 => Pos { x: -1, y: 0 },
        _ => Pos { x: 0, y: -1 },
    }
}

/// Flat index of an in-bounds cell.
pub open spec fn idx(x: int, y: int) -> int {
    y * GRID_W + x
}

/// Is `(x, y)` on the board?
pub open spec fn in_bounds(x: int, y: int) -> bool {
    0 <= x < GRID_W && 0 <= y < GRID_H
}

/// Column of flat index `k`.
pub open spec fn col(k: int) -> int {
    k % (GRID_W as int)
}

/// Row of flat index `k`.
pub open spec fn row(k: int) -> int {
    k / (GRID_W as int)
}

pub proof fn lemma_idx_roundtrip(k: int)
    requires
        0 <= k < GRID_CELLS,
    ensures
        in_bounds(col(k), row(k)),
        idx(col(k), row(k)) == k,
{
}

pub proof fn lemma_idx_bounds(x: int, y: int)
    requires
        in_bounds(x, y),
    ensures
        0 <= idx(x, y) < GRID_CELLS,
        col(idx(x, y)) == x,
        row(idx(x, y)) == y,
{
}

/// The cell that lands on flat index `k` when every solid of `cells` moves by
/// `(sx, sy)`.
pub open spec fn shifted_cell(cells: Seq<Cell>, sx: int, sy: int, k: int) -> Cell {
    if in_bounds(col(k) - sx, row(k) - sy) && cells[idx(col(k) - sx, row(k) - sy)] == Cell::Solid {
        Cell::Solid
    } else {
        Cell::Empty
    }
}

/// `p` moved by `(sx, sy)`.
pub open spec fn moved(p: Pos, sx: int, sy: int) -> Pos {
    Pos { x: (p.x + sx) as i32, y: (p.y + sy) as i32 }
}

/// The box `(mn, mx)` sits on the board's centre, off by at most half a
/// cell on each axis.
pub open spec fn centred(mn: Pos, mx: Pos) -> bool {
    &&& -1 <= mn.x + mx.x - (GRID_W - 1) <= 1
    &&& -1 <= mn.y + mx.y - (GRID_H - 1) <= 1
}

/// A solid at `k` shows up, moved, in the shifted board.
proof fn lemma_shift_solid(cells: Seq<Cell>, cells2: Seq<Cell>, sx: int, sy: int, k: int) -> (j: int)
    requires
        cells.len() == GRID_CELLS,
        cells2.len() == GRID_CELLS,
        forall|i: int| 0 <= i < GRID_CELLS ==> #[trigger] cells2[i] == shifted_cell(cells, sx, sy, i),
        0 <= k < GRID_CELLS,
        cells[k] == Cell::Solid,
        in_bounds(col(k) + sx, row(k) + sy),
    ensures
        0 <= j < GRID_CELLS,
        cells2[j] == Cell::Solid,
        col(j) == col(k) + sx,
        row(j) == row(k) + sy,
{
    let j = idx(col(k) + sx, row(k) + sy);
    lemma_idx_bounds(col(k) + sx, row(k) + sy);
    lemma_idx_roundtrip(k);
    assert(cells2[j] == shifted_cell(cells, sx, sy, j));
    j
}

/// Shifting every solid by `(sx, sy)` shifts their bounding box with them.
proof fn lemma_shift_bbox(cells: Seq<Cell>, cells2: Seq<Cell>, mn: Pos, mx: Pos, sx: int, sy: int)
    requires
        cells.len() == GRID_CELLS,
        cells2.len() == GRID_CELLS,
        bbox_upto(cells, GRID_CELLS as int, mn, mx),
        forall|i: int| 0 <= i < GRID_CELLS ==> #[trigger] cells2[i] == shifted_cell(cells, sx, sy, i),
        forall|i: int| 0 <= i < GRID_CELLS && #[trigger] cells[i] == Cell::Solid ==> in_bounds(col(i) + sx, row(i) + sy),
    ensures
        bbox_upto(cells2, GRID_CELLS as int, moved(mn, sx, sy), moved(mx, sx, sy)),
{
    let nmn = moved(mn, sx, sy);
    let nmx = moved(mx, sx, sy);
    let k0 = choose|k: int| 0 <= k < GRID_CELLS && #[trigger] cells[k] == Cell::Solid && col(k) == mn.x;
    let k1 = choose|k: int| 0 <= k < GRID_CELLS && #[trigger] cells[k] == Cell::Solid && col(k) == mx.x;
    let k2 = choose|k: int| 0 <= k < GRID_CELLS && #[trigger] cells[k] == Cell::Solid && row(k) == mn.y;
    let k3 = choose|k: int| 0 <= k < GRID_CELLS && #[trigger] cells[k] == Cell::Solid && row(k) == mx.y;
    let j0 = lemma_shift_solid(cells, cells2, sx, sy, k0);
    let j1 = lemma_shift_solid(cells, cells2, sx, sy, k1);
    let j2 = lemma_shift_solid(cells, cells2, sx, sy, k2);
    let j3 = lemma_shift_solid(cells, cells2, sx, sy, k3);
    lemma_idx_roundtrip(k0);
    lemma_idx_roundtrip(k1);
    lemma_idx_roundtrip(k2);
    lemma_idx_roundtrip(k3);
    assert(nmn.x == col(j0) && nmx.x == col(j1) && nmn.y == row(j2) && nmx.y == row(j3));
    assert forall|k: int| 0 <= k < GRID_CELLS && #[trigger] cells2[k] == Cell::Solid implies nmn.x <= col(k) <= nmx.x
        && nmn.y <= row(k) <= nmx.y by {
        let i = idx(col(k) - sx, row(k) - sy);
        lemma_idx_bounds(col(k) - sx, row(k) - sy);
        assert(cells[i] == Cell::Solid);
    }
}

/// `n / 2` rounded half away from zero.
pub open spec fn round_half(n: int) -> int {
    if n >= 0 {
        (n + 1) / 2
    } else {
        -((-n + 1) / 2)
    }
}

fn round_half_i32(n: i32) -> (r: i32)
    requires
        -1000 <= n <= 1000,
    ensures
        r == round_half(n as int),
        -500 <= r <= 500,
{
    if n >= 0 {
        (n + 1) / 2
    } else {
        -((-n + 1) / 2)
    }
}

/// A tight bounding box lies on the board.
pub proof fn lemma_bbox_on_board(g: Grid, mn: Pos, mx: Pos)
    requires
        g.wf(),
        g.is_bbox(mn, mx),
    ensures
        0 <= mn.x <= mx.x < GRID_W,
        0 <= mn.y <= mx.y < GRID_H,
{
    lemma_recentered_in_bounds(g.cells@, mn, mx);
}

/// The solids among the first `n` cells lie in `mn..=mx`, and each side of
/// that box is touched by one of them.
pub open spec fn bbox_upto(cells: Seq<Cell>, n: int, mn: Pos, mx: Pos) -> bool {
    &&& forall|k: int|
        0 <= k < n && #[trigger] cells[k] == Cell::Solid ==> mn.x <= col(k) <= mx.x && mn.y <= row(k) <= mx.y
    &&& exists|k: int| 0 <= k < n && #[trigger] cells[k] == Cell::Solid && col(k) == mn.x
    &&& exists|k: int| 0 <= k < n && #[trigger] cells[k] == Cell::Solid && col(k) == mx.x
    &&& exists|k: int| 0 <= k < n && #[trigger] cells[k] == Cell::Solid && row(k) == mn.y
    &&& exists|k: int| 0 <= k < n && #[trigger] cells[k] == Cell::Solid && row(k) == mx.y
}

proof fn lemma_bbox_upto(cells: Seq<Cell>, n: int) -> (b: (Pos, Pos))
    requires
        cells.len() == GRID_CELLS,
        0 <= n <= GRID_CELLS,
        exists|k: int| 0 <= k < n && #[trigger] cells[k] == Cell::Solid,
    ensures
        bbox_upto(cells, n, b.0, b.1),
    decreases n,
{
    let k = n - 1;
    lemma_idx_roundtrip(k);
    let here = Pos { x: col(k) as i32, y: row(k) as i32 };
    if !exists|j: int| 0 <= j < n - 1 && #[trigger] cells[j] == Cell::Solid {
        assert(cells[k] == Cell::Solid);
        (here, here)
    } else {
        let (a, c) = lemma_bbox_upto(cells, n - 1);
        if cells[k] == Cell::Solid {
            let mn = Pos {
                x: if here.x < a.x { here.x } else { a.x },
                y: if here.y < a.y { here.y } else { a.y },
            };
            let mx = Pos {
                x: if here.x > c.x { here.x } else { c.x },
                y: if here.y > c.y { here.y } else { c.y },
            };
            let w0 = choose|j: int| 0 <= j < n - 1 && #[trigger] cells[j] == Cell::Solid && col(j) == a.x;
            let w1 = choose|j: int| 0 <= j < n - 1 && #[trigger] cells[j] == Cell::Solid && col(j) == c.x;
            let w2 = choose|j: int| 0 <= j < n - 1 && #[trigger] cells[j] == Cell::Solid && row(j) == a.y;
            let w3 = choose|j: int| 0 <= j < n - 1 && #[trigger] cells[j] == Cell::Solid && row(j) == c.y;
            assert(cells[w0] == Cell::Solid && cells[w1] == Cell::Solid);
            assert(cells[w2] == Cell::Solid && cells[w3] == Cell::Solid);
            (mn, mx)
        } else {
            (a, c)
        }
    }
}

/// A board with a solid has a tight bounding box.
pub proof fn lemma_bbox_exists(g: Grid)
    requires
        g.wf(),
        g.has_solid(),
    ensures
        exists|b: (Pos, Pos)| g.is_bbox(b.0, b.1),
{
    let b = lemma_bbox_upto(g.cells@, GRID_CELLS as int);
    assert(g.is_bbox(b.0, b.1));
}

/// There is only one topmost-leftmost open cell.
proof fn lemma_start_unique(g: Grid, p: Pos, q: Pos)
    requires
        g.wf(),
        g.is_start(p),
        g.is_start(q),
    ensures
        p == q,
{
    let kp = idx(p.x as int, p.y as int);
    let kq = idx(q.x as int, q.y as int);
    lemma_idx_bounds(p.x as int, p.y as int);
    lemma_idx_bounds(q.x as int, q.y as int);
    assert(g.open_at(col(kq), row(kq)));
    assert(g.open_at(col(kp), row(kp)));
}

/// A board-sized copy of `cells` with every solid moved by `(sx, sy)`; solids
/// that would leave the board are dropped.
fn shifted_solids(cells: &Vec<Cell>, sx: i32, sy: i32) -> (out: Vec<Cell>)
    requires
        cells@.len() == GRID_CELLS,
        -500 <= sx <= 500,
        -500 <= sy <= 500,
    ensures
        out@.len() == GRID_CELLS,
        forall|k: int| 0 <= k < GRID_CELLS ==> #[trigger] out@[k] == shifted_cell(cells@, sx as int, sy as int, k),
{
    let mut out: Vec<Cell> = Vec::new();
    let mut j: usize = 0;
    while j < GRID_CELLS
        invariant
            j <= GRID_CELLS,
            out@.len() == j,
            forall|i: int| 0 <= i < j ==> out@[i] == Cell::Empty,
        decreases GRID_CELLS - j,
    {
        out.push(Cell::Empty);
        j = j + 1;
    }
    let mut k: usize = 0;
    while k < GRID_CELLS
        invariant
            cells@.len() == GRID_CELLS,
            k <= GRID_CELLS,
            out@.len() == GRID_CELLS,
            -500 <= sx <= 500,
            -500 <= sy <= 500,
            forall|i: int|
                0 <= i < GRID_CELLS ==> #[trigger] out@[i] == shifted_prefix(cells@, sx as int, sy as int, k as int, i),
        decreases GRID_CELLS - k,
    {
        proof {
            lemma_idx_roundtrip(k as int);
        }
        let ghost before = out@;
        if cells[k] == Cell::Solid {
            let x = (k % (GRID_W as usize)) as i32 + sx;
            let y = (k / (GRID_W as usize)) as i32 + sy;
            if x >= 0 && y >= 0 && x < GRID_W && y < GRID_H {
                let t = (y * GRID_W + x) as usize;
                out.set(t, Cell::Solid);
            }
        }
        proof {
            assert forall|i: int| 0 <= i < GRID_CELLS implies #[trigger] out@[i] == shifted_prefix(
                cells@,
                sx as int,
                sy as int,
                k + 1,
                i,
            ) by {
                lemma_idx_roundtrip(i);
                if in_bounds(col(i) - sx, row(i) - sy) {
                    lemma_idx_bounds(col(i) - sx, row(i) - sy);
                }
                if in_bounds(col(k as int) + sx, row(k as int) + sy) {
                    lemma_idx_bounds(col(k as int) + sx, row(k as int) + sy);
                }
            }
        }
        k = k + 1;
    }
    proof {
        assert forall|i: int| 0 <= i < GRID_CELLS implies #[trigger] out@[i] == shifted_cell(
            cells@,
            sx as int,
            sy as int,
            i,
        ) by {
            if in_bounds(col(i) - sx, row(i) - sy) {
                lemma_idx_bounds(col(i) - sx, row(i) - sy);
            }
        }
    }
    out
}

/// [`shifted_cell`] counting only the sources before flat index `k`.
pub open spec fn shifted_prefix(cells: Seq<Cell>, sx: int, sy: int, k: int, i: int) -> Cell {
    if in_bounds(col(i) - sx, row(i) - sy) && idx(col(i) - sx, row(i) - sy) < k && cells[idx(
        col(i) - sx,
        row(i) - sy,
    )] == Cell::Solid {
        Cell::Solid
    } else {
        Cell::Empty
    }
}

/// Centring a bounding box that fits on the board keeps every solid on it.
proof fn lemma_recentered_in_bounds(cells: Seq<Cell>, mn: Pos, mx: Pos)
    requires
        cells.len() == GRID_CELLS,
        forall|k: int|
            0 <= k < GRID_CELLS && #[trigger] cells[k] == Cell::Solid ==> mn.x <= col(k) <= mx.x && mn.y
                <= row(k) <= mx.y,
        exists|k: int| 0 <= k < GRID_CELLS && #[trigger] cells[k] == Cell::Solid && col(k) == mn.x,
        exists|k: int| 0 <= k < GRID_CELLS && #[trigger] cells[k] == Cell::Solid && col(k) == mx.x,
        exists|k: int| 0 <= k < GRID_CELLS && #[trigger] cells[k] == Cell::Solid && row(k) == mn.y,
        exists|k: int| 0 <= k < GRID_CELLS && #[trigger] cells[k] == Cell::Solid && row(k) == mx.y,
    ensures
        0 <= mn.x <= mx.x < GRID_W,
        0 <= mn.y <= mx.y < GRID_H,
        forall|k: int|
            0 <= k < GRID_CELLS && #[trigger] cells[k] == Cell::Solid ==> in_bounds(
                col(k) + round_half(GRID_W - 1 - (mn.x + mx.x)),
                row(k) + round_half(GRID_H - 1 - (mn.y + mx.y)),
            ),
{
    let k0 = choose|k: int| 0 <= k < GRID_CELLS && #[trigger] cells[k] == Cell::Solid && col(k) == mn.x;
    let k1 = choose|k: int| 0 <= k < GRID_CELLS && #[trigger] cells[k] == Cell::Solid && col(k) == mx.x;
    let k2 = choose|k: int| 0 <= k < GRID_CELLS && #[trigger] cells[k] == Cell::Solid && row(k) == mn.y;
    let k3 = choose|k: int| 0 <= k < GRID_CELLS && #[trigger] cells[k] == Cell::Solid && row(k) == mx.y;
    lemma_idx_roundtrip(k0);
    lemma_idx_roundtrip(k1);
    lemma_idx_roundtrip(k2);
    lemma_idx_roundtrip(k3);
    assert forall|k: int|
        0 <= k < GRID_CELLS && #[trigger] cells[k] == Cell::Solid implies in_bounds(
        col(k) + round_half(GRID_W - 1 - (mn.x + mx.x)),
        row(k) + round_half(GRID_H - 1 - (mn.y + mx.y)),
    ) by {
        lemma_idx_roundtrip(k);
    }
}

pub open spec fn abs_int(v: int) -> int {
    if v >= 0 {
        v
    } else {
        -v
    }
}

pub open spec fn line_dx(a: Pos, b: Pos) -> int {
    abs_int(b.x - a.x)
}

pub open spec fn line_dy(a: Pos, b: Pos) -> int {
    abs_int(b.y - a.y)
}

pub open spec fn line_sx(a: Pos, b: Pos) -> int {
    if a.x < b.x {
        1
    } else {
        -1
    }
}

pub open spec fn line_sy(a: Pos, b: Pos) -> int {
    if a.y < b.y {
        1
    } else {
        -1
    }
}

pub open spec fn line_m(a: Pos, b: Pos) -> int {
    if line_dx(a, b) >= line_dy(a, b) {
        line_dx(a, b)
    } else {
        line_dy(a, b)
    }
}

/// `p` lies within one cell of the segment from `a` to `b` along its minor
/// axis.
pub open spec fn near_line(a: Pos, b: Pos, p: Pos) -> bool {
    let d = line_dx(a, b) * abs_int(p.y - a.y) - line_dy(a, b) * abs_int(p.x - a.x);
    -line_m(a, b) <= d <= line_m(a, b)
}

/// One step of a line walk: each axis moves by zero or one cell towards `b`,
/// and at least one of them moves.
pub open spec fn line_step(a: Pos, b: Pos, p: Pos, q: Pos) -> bool {
    &&& (q.x == p.x || q.x == p.x + line_sx(a, b))
    &&& (q.y == p.y || q.y == p.y + line_sy(a, b))
    &&& (q.x != p.x || q.y != p.y)
}

/// A walk that starts at `a`, steps towards `b` and hugs the segment.
pub open spec fn path_prefix(a: Pos, b: Pos, pts: Seq<Pos>) -> bool {
    &&& pts.len() >= 1
    &&& pts[0] == a
    &&& forall|t: int| 0 <= t < pts.len() - 1 ==> line_step(a, b, #[trigger] pts[t], pts[t + 1])
    &&& forall|t: int| 0 <= t < pts.len() ==> near_line(a, b, #[trigger] pts[t])
}

/// A gap-free walk of cells from `a` to `b` that hugs the segment between them.
pub open spec fn line_path(a: Pos, b: Pos, pts: Seq<Pos>) -> bool {
    path_prefix(a, b, pts) && pts.last() == b
}

/// One step of the error-term walk from `a` towards `b`: the state is the
/// current cell and the error term.
pub open spec fn bres_next(a: Pos, b: Pos, st: (int, int, int)) -> (int, int, int) {
    let dx = line_dx(a, b);
    let dy = -line_dy(a, b);
    let e2 = 2 * st.2;
    let (x1, e1) = if e2 >= dy {
        (st.0 + line_sx(a, b), st.2 + dy)
    } else {
        (st.0, st.2)
    };
    if e2 <= dx {
        (x1, st.1 + line_sy(a, b), e1 + dx)
    } else {
        (x1, st.1, e1)
    }
}

/// The walk's state after `t` steps from `a`.
pub open spec fn bres_state(a: Pos, b: Pos, t: nat) -> (int, int, int)
    decreases t,
{
    if t == 0 {
        (a.x as int, a.y as int, line_dx(a, b) - line_dy(a, b))
    } else {
        bres_next(a, b, bres_state(a, b, (t - 1) as nat))
    }
}

/// The cell the walk is on after `t` steps.
pub open spec fn bres_pos(a: Pos, b: Pos, t: nat) -> Pos {
    Pos { x: bres_state(a, b, t).0 as i32, y: bres_state(a, b, t).1 as i32 }
}

/// Bresenham's line from `a` to `b`: one cell for each step along the longer
/// axis, `max(|dx|, |dy|) + 1` cells in all.
pub open spec fn bresenham(a: Pos, b: Pos) -> Seq<Pos> {
    Seq::new((line_m(a, b) + 1) as nat, |t: int| bres_pos(a, b, t as nat))
}

/// Some on-board point of `pts` has flat index `k`.
pub open spec fn covers(pts: Seq<Pos>, k: int) -> bool {
    exists|t: int|
        0 <= t < pts.len() && in_bounds(pts[t].x as int, pts[t].y as int) && idx(
            #[trigger] pts[t].x as int,
            pts[t].y as int,
        ) == k
}

/// The cells after painting every point of `pts` with `value`, honouring the
/// lock when erasing.
pub open spec fn line_cells(cells: Seq<Cell>, locked: Seq<bool>, pts: Seq<Pos>, value: Cell) -> Seq<Cell> {
    Seq::new(
        cells.len(),
        |k: int|
            if covers(pts, k) && !(value == Cell::Empty && locked[k]) {
                value
            } else {
                cells[k]
            },
    )
}

proof fn lemma_line_cells_empty(cells: Seq<Cell>, locked: Seq<bool>, value: Cell)
    ensures
        line_cells(cells, locked, Seq::empty(), value) == cells,
{
    assert(line_cells(cells, locked, Seq::empty(), value) =~= cells);
}

proof fn lemma_line_cells_push(cells: Seq<Cell>, locked: Seq<bool>, pts: Seq<Pos>, value: Cell, p: Pos)
    requires
        cells.len() == GRID_CELLS,
        locked.len() == GRID_CELLS,
    ensures
        line_cells(cells, locked, pts.push(p), value) == if in_bounds(p.x as int, p.y as int) && !(value
            == Cell::Empty && locked[idx(p.x as int, p.y as int)]) {
            line_cells(cells, locked, pts, value).update(idx(p.x as int, p.y as int), value)
        } else {
            line_cells(cells, locked, pts, value)
        },
{
    let np = pts.push(p);
    let lhs = line_cells(cells, locked, np, value);
    let old_l = line_cells(cells, locked, pts, value);
    if in_bounds(p.x as int, p.y as int) {
        lemma_idx_bounds(p.x as int, p.y as int);
    }
    assert forall|k: int| 0 <= k < cells.len() implies covers(np, k) == (covers(pts, k) || (in_bounds(
        p.x as int,
        p.y as int,
    ) && idx(p.x as int, p.y as int) == k)) by {
        if covers(pts, k) {
            let t = choose|t: int|
                0 <= t < pts.len() && in_bounds(pts[t].x as int, pts[t].y as int) && idx(
                    #[trigger] pts[t].x as int,
                    pts[t].y as int,
                ) == k;
            assert(np[t] == pts[t]);
        }
        if in_bounds(p.x as int, p.y as int) && idx(p.x as int, p.y as int) == k {
            assert(np[pts.len() as int] == p);
        }
        if covers(np, k) {
            let t = choose|t: int|
                0 <= t < np.len() && in_bounds(np[t].x as int, np[t].y as int) && idx(
                    #[trigger] np[t].x as int,
                    np[t].y as int,
                ) == k;
            if t < pts.len() {
                assert(pts[t] == np[t]);
            }
        }
    }
    if in_bounds(p.x as int, p.y as int) && !(value == Cell::Empty && locked[idx(p.x as int, p.y as int)]) {
        assert(lhs =~= old_l.update(idx(p.x as int, p.y as int), value));
    } else {
        assert(lhs =~= old_l);
    }
}

proof fn lemma_line_cells_keeps_change(
    cells: Seq<Cell>,
    locked: Seq<bool>,
    pts: Seq<Pos>,
    value: Cell,
    p: Pos,
)
    requires
        cells.len() == GRID_CELLS,
        locked.len() == GRID_CELLS,
        line_cells(cells, locked, pts, value) != cells,
    ensures
        line_cells(cells, locked, pts.push(p), value) != cells,
{
    let l = line_cells(cells, locked, pts, value);
    assert(!(l =~= cells));
    let k = choose|k: int| 0 <= k < cells.len() && l[k] != cells[k];
    lemma_line_cells_push(cells, locked, pts, value, p);
    let l2 = line_cells(cells, locked, pts.push(p), value);
    assert(l2[k] != cells[k]);
}

proof fn lemma_mul_step(a: int, i: int)
    ensures
        a * (i + 1) == a * i + a,
{
    assert(a * (i + 1) == a * i + a) by (nonlinear_arith);
}

/// At the far end of one axis, a line walk can only move along the other.
proof fn lemma_band_edges(ad: int, bd: int, i: int, j: int)
    requires
        0 <= i <= ad,
        0 <= j <= bd,
    ensures
        i == ad && j < bd ==> ad * j - bd * i <= -ad,
        j == bd && i < ad ==> ad * j - bd * i >= bd,
{
    if i == ad && j < bd {
        assert(ad * j - bd * i == ad * (j - bd)) by (nonlinear_arith)
            requires
                i == ad,
        ;
        assert(ad * (j - bd) <= -ad) by (nonlinear_arith)
            requires
                j - bd <= -1,
                ad >= 0,
        ;
    }
    if j == bd && i < ad {
        assert(ad * j - bd * i == bd * (ad - i)) by (nonlinear_arith)
            requires
                j == bd,
        ;
        assert(bd * (ad - i) >= bd) by (nonlinear_arith)
            requires
                ad - i >= 1,
                bd >= 0,
        ;
    }
}

proof fn lemma_path_prefix_extend(a: Pos, b: Pos, pts: Seq<Pos>, q: Pos, pi: int, pj: int, i: int, j: int)
    requires
        path_prefix(a, b, pts),
        pts.last().x == a.x + line_sx(a, b) * pi,
        pts.last().y == a.y + line_sy(a, b) * pj,
        q.x == a.x + line_sx(a, b) * i,
        q.y == a.y + line_sy(a, b) * j,
        i == pi || i == pi + 1,
        j == pj || j == pj + 1,
        i != pi || j != pj,
        0 <= i,
        0 <= j,
        line_sx(a, b) == 1 ==> a.x <= q.x,
        line_sx(a, b) == -1 ==> q.x <= a.x,
        line_sy(a, b) == 1 ==> a.y <= q.y,
        line_sy(a, b) == -1 ==> q.y <= a.y,
        -line_m(a, b) <= line_dx(a, b) * j - line_dy(a, b) * i <= line_m(a, b),
    ensures
        path_prefix(a, b, pts.push(q)),
{
    let np = pts.push(q);
    assert(abs_int(q.x - a.x) == i);
    assert(abs_int(q.y - a.y) == j);
    assert(near_line(a, b, q));
    assert forall|t: int| 0 <= t < np.len() - 1 implies line_step(a, b, #[trigger] np[t], np[t + 1]) by {
        if t < pts.len() - 1 {
            assert(np[t] == pts[t]);
            assert(np[t + 1] == pts[t + 1]);
        } else {
            assert(np[t] == pts.last());
        }
    }
    assert forall|t: int| 0 <= t < np.len() implies near_line(a, b, #[trigger] np[t]) by {
        if t < pts.len() {
            assert(np[t] == pts[t]);
        }
    }
}

/// Number of entries of `s` equal to `v`.
pub open spec fn count_cells(s: Seq<Cell>, v: Cell) -> nat
    decreases s.len(),
{
    if s.len() == 0 {
        0
    } else {
        count_cells(s.drop_last(), v) + if s.last() == v {
            1nat
        } else {
            0nat
        }
    }
}

/// The game world as a flat array of cells, plus the level lock.
pub struct Grid {
    pub w: i32,
    pub h: i32,
    /// Row-major cells, row `0` at the bottom.
    pub cells: Vec<Cell>,
    /// Set whenever `cells` changes, so the display knows to re-upload.
    pub dirty: bool,
    /// Per cell: does it belong to the level, so the eraser may not remove it?
    pub locked: Vec<bool>,
}

impl Grid {
    /// The shape every grid keeps.
    pub open spec fn wf(&self) -> bool {
        &&& self.w == GRID_W
        &&& self.h == GRID_H
        &&& self.cells@.len() == GRID_CELLS
        &&& self.locked@.len() == GRID_CELLS
    }

    /// The cell at `(x, y)`, or `None` off the board.
    pub open spec fn cell(&self, x: int, y: int) -> Option<Cell> {
        if in_bounds(x, y) {
            Some(self.cells@[idx(x, y)])
        } else {
            None
        }
    }

    pub open spec fn solid_at(&self, x: int, y: int) -> bool {
        self.cell(x, y) == Some(Cell::Solid)
    }

    pub open spec fn locked_at(&self, x: int, y: int) -> bool {
        in_bounds(x, y) && self.locked@[idx(x, y)]
    }

    /// Empty and 8-adjacent to a solid: where the ball may stand.
    pub open spec fn open_at(&self, x: int, y: int) -> bool {
        &&& self.cell(x, y) == Some(Cell::Empty)
        &&& exists|k: int| 0 <= k < 8 && #[trigger] self.solid_at(x + n8(k).0, y + n8(k).1)
    }

    /// An empty board with nothing locked.
    pub fn new() -> (g: Grid)
        ensures
            g.wf(),
            g.dirty,
            forall|k: int| 0 <= k < GRID_CELLS ==> g.cells@[k] == Cell::Empty && !g.locked@[k],
    {
        let mut cells: Vec<Cell> = Vec::new();
        let mut locked: Vec<bool> = Vec::new();
        let mut k: usize = 0;
        while k < GRID_CELLS
            invariant
                k <= GRID_CELLS,
                cells@.len() == k,
                locked@.len() == k,
                forall|j: int| 0 <= j < k ==> cells@[j] == Cell::Empty && !locked@[j],
            decreases GRID_CELLS - k,
        {
            cells.push(Cell::Empty);
            locked.push(false);
            k = k + 1;
        }
        Grid { w: GRID_W, h: GRID_H, cells, dirty: true, locked }
    }

    fn index(&self, x: i64, y: i64) -> (r: Option<usize>)
        requires
            self.wf(),
        ensures
            r matches Some(i) ==> in_bounds(x as int, y as int) && i == idx(x as int, y as int),
            r is None ==> !in_bounds(x as int, y as int),
    {
        if x >= 0 && y >= 0 && x < GRID_W as i64 && y < GRID_H as i64 {
            Some((y * GRID_W as i64 + x) as usize)
        } else {
            None
        }
    }

    /// The cell at integer coordinates, computed without overflow.
    pub fn get_at(&self, x: i64, y: i64) -> (r: Option<Cell>)
        requires
            self.wf(),
        ensures
            r == self.cell(x as int, y as int),
    {
        match self.index(x, y) {
            Some(i) => Some(self.cells[i]),
            None => None,
        }
    }

    pub fn get(&self, cell: Pos) -> (r: Option<Cell>)
        requires
            self.wf(),
        ensures
            r == self.cell(cell.x as int, cell.y as int),
    {
        self.get_at(cell.x as i64, cell.y as i64)
    }

    /// Raw write. Prefer [`Grid::paint`] when drawing.
    pub fn set(&mut self, cell: Pos, value: Cell)
        requires
            old(self).wf(),
        ensures
            final(self).wf(),
            final(self).locked@ == old(self).locked@,
            final(self).cells@ == if in_bounds(cell.x as int, cell.y as int) {
                old(self).cells@.update(idx(cell.x as int, cell.y as int), value)
            } else {
                old(self).cells@
            },
            final(self).dirty == (old(self).dirty || final(self).cells@ != old(self).cells@),
    {
        match self.index(cell.x as i64, cell.y as i64) {
            Some(i) => {
                if self.cells[i] != value {
                    self.cells.set(i, value);
                    self.dirty = true;
                    assert(self.cells@[i as int] != old(self).cells@[i as int]);
                } else {
                    assert(self.cells@ =~= old(self).cells@.update(i as int, value));
                }
            },
            None => {},
        }
    }

    /// Is this cell solid?
    pub fn is_solid(&self, cell: Pos) -> (r: bool)
        requires
            self.wf(),
        ensures
            r == self.solid_at(cell.x as int, cell.y as int),
    {
        self.get(cell) == Some(Cell::Solid)
    }

    fn solid_i64(&self, x: i64, y: i64) -> (r: bool)
        requires
            self.wf(),
        ensures
            r == self.solid_at(x as int, y as int),
    {
        self.get_at(x, y) == Some(Cell::Solid)
    }

    /// Is this cell somewhere the ball may stand — empty and next to a solid?
    pub fn is_open(&self, cell: Pos) -> (r: bool)
        requires
            self.wf(),
        ensures
            r == self.open_at(cell.x as int, cell.y as int),
    {
        if self.get(cell) != Some(Cell::Empty) {
            return false;
        }
        let x = cell.x as i64;
        let y = cell.y as i64;
        let mut k: usize = 0;
        while k < 8
            invariant
                self.wf(),
                x == cell.x,
                y == cell.y,
                self.cell(x as int, y as int) == Some(Cell::Empty),
                k <= 8,
                forall|j: int| 0 <= j < k ==> !#[trigger] self.solid_at(x + n8(j).0, y + n8(j).1),
            decreases 8 - k,
        {
            let d = neighbor8(k);
            if self.solid_i64(x + d.x as i64, y + d.y as i64) {
                assert(self.solid_at(x + n8(k as int).0, y + n8(k as int).1));
                return true;
            }
            k = k + 1;
        }
        false
    }

    /// The pen. `Cell::Solid` draws a wall; `Cell::Empty` erases it. The eraser
    /// must not remove level solids, but the pen may still add.
    pub fn paint(&mut self, cell: Pos, value: Cell)
        requires
            old(self).wf(),
        ensures
            final(self).wf(),
            final(self).locked@ == old(self).locked@,
            final(self).cells@ == if in_bounds(cell.x as int, cell.y as int) && !(value
                == Cell::Empty && old(self).locked@[idx(cell.x as int, cell.y as int)]) {
                old(self).cells@.update(idx(cell.x as int, cell.y as int), value)
            } else {
                old(self).cells@
            },
            final(self).dirty == (old(self).dirty || final(self).cells@ != old(self).cells@),
    {
        if value == Cell::Empty {
            match self.index(cell.x as i64, cell.y as i64) {
                Some(i) => {
                    if self.locked[i] {
                        return;
                    }
                },
                None => {},
            }
        }
        self.set(cell, value);
    }

    /// Lock the solid cells (the level's walls) so the eraser cannot remove
    /// them.
    pub fn lock_solids(&mut self)
        requires
            old(self).wf(),
        ensures
            final(self).wf(),
            final(self).cells@ == old(self).cells@,
            final(self).dirty == old(self).dirty,
            forall|k: int|
                0 <= k < GRID_CELLS ==> #[trigger] final(self).locked@[k] == (final(self).cells@[k]
                    == Cell::Solid),
    {
        let mut k: usize = 0;
        while k < GRID_CELLS
            invariant
                self.wf(),
                self.cells@ == old(self).cells@,
                self.dirty == old(self).dirty,
                k <= GRID_CELLS,
                forall|j: int| 0 <= j < k ==> #[trigger] self.locked@[j] == (self.cells@[j] == Cell::Solid),
            decreases GRID_CELLS - k,
        {
            let s = self.cells[k] == Cell::Solid;
            self.locked.set(k, s);
            k = k + 1;
        }
    }

    /// Wipe everything except locked cells.
    pub fn clear(&mut self)
        requires
            old(self).wf(),
        ensures
            final(self).wf(),
            final(self).locked@ == old(self).locked@,
            forall|k: int|
                0 <= k < GRID_CELLS ==> #[trigger] final(self).cells@[k] == if old(self).locked@[k] {
                    old(self).cells@[k]
                } else {
                    Cell::Empty
                },
            final(self).dirty == (old(self).dirty || final(self).cells@ != old(self).cells@),
    {
        let mut k: usize = 0;
        while k < GRID_CELLS
            invariant
                self.wf(),
                self.locked@ == old(self).locked@,
                k <= GRID_CELLS,
                forall|j: int|
                    0 <= j < k ==> #[trigger] self.cells@[j] == if old(self).locked@[j] {
                        old(self).cells@[j]
                    } else {
                        Cell::Empty
                    },
                forall|j: int| k <= j < GRID_CELLS ==> #[trigger] self.cells@[j] == old(self).cells@[j],
                self.dirty == (old(self).dirty || self.cells@ != old(self).cells@),
            decreases GRID_CELLS - k,
        {
            if !self.locked[k] && self.cells[k] != Cell::Empty {
                self.cells.set(k, Cell::Empty);
                self.dirty = true;
                assert(self.cells@[k as int] != old(self).cells@[k as int]);
            }
            k = k + 1;
        }
    }

    /// Wipe the whole board — solids and the level lock.
    pub fn obliterate(&mut self)
        requires
            old(self).wf(),
        ensures
            final(self).wf(),
            final(self).dirty,
            forall|k: int|
                0 <= k < GRID_CELLS ==> #[trigger] final(self).cells@[k] == Cell::Empty
                    && !final(self).locked@[k],
    {
        let mut k: usize = 0;
        while k < GRID_CELLS
            invariant
                self.wf(),
                k <= GRID_CELLS,
                forall|j: int| 0 <= j < k ==> #[trigger] self.cells@[j] == Cell::Empty && !self.locked@[j],
            decreases GRID_CELLS - k,
        {
            self.cells.set(k, Cell::Empty);
            self.locked.set(k, false);
            k = k + 1;
        }
        self.dirty = true;
    }

    /// True if any solid is not part of the locked level — i.e. the player has
    /// drawn something of their own.
    pub fn has_unlocked_solid(&self) -> (r: bool)
        requires
            self.wf(),
        ensures
            r == exists|k: int|
                0 <= k < GRID_CELLS && #[trigger] self.cells@[k] == Cell::Solid && !self.locked@[k],
    {
        let mut k: usize = 0;
        while k < GRID_CELLS
            invariant
                self.wf(),
                k <= GRID_CELLS,
                forall|j: int| 0 <= j < k ==> !(#[trigger] self.cells@[j] == Cell::Solid && !self.locked@[j]),
            decreases GRID_CELLS - k,
        {
            if self.cells[k] == Cell::Solid && !self.locked[k] {
                return true;
            }
            k = k + 1;
        }
        false
    }

    /// Number of cells currently holding `value`.
    pub fn count(&self, value: Cell) -> (n: usize)
        requires
            self.wf(),
        ensures
            n == count_cells(self.cells@, value),
    {
        let mut n: usize = 0;
        let mut k: usize = 0;
        while k < GRID_CELLS
            invariant
                self.wf(),
                k <= GRID_CELLS,
                n <= k,
                n == count_cells(self.cells@.take(k as int), value),
            decreases GRID_CELLS - k,
        {
            assert(self.cells@.take(k + 1).drop_last() =~= self.cells@.take(k as int));
            if self.cells[k] == value {
                n = n + 1;
            }
            k = k + 1;
        }
        assert(self.cells@.take(GRID_CELLS as int) =~= self.cells@);
        n
    }

    /// Is any cell solid?
    pub open spec fn has_solid(&self) -> bool {
        exists|k: int| 0 <= k < GRID_CELLS && #[trigger] self.cells@[k] == Cell::Solid
    }

    /// `(mn, mx)` is the tight bounding box of the solid cells.
    pub open spec fn is_bbox(&self, mn: Pos, mx: Pos) -> bool {
        &&& forall|k: int|
            0 <= k < GRID_CELLS && #[trigger] self.cells@[k] == Cell::Solid ==> mn.x <= col(k) <= mx.x
                && mn.y <= row(k) <= mx.y
        &&& exists|k: int|
            0 <= k < GRID_CELLS && #[trigger] self.cells@[k] == Cell::Solid && col(k) == mn.x
        &&& exists|k: int|
            0 <= k < GRID_CELLS && #[trigger] self.cells@[k] == Cell::Solid && col(k) == mx.x
        &&& exists|k: int|
            0 <= k < GRID_CELLS && #[trigger] self.cells@[k] == Cell::Solid && row(k) == mn.y
        &&& exists|k: int|
            0 <= k < GRID_CELLS && #[trigger] self.cells@[k] == Cell::Solid && row(k) == mx.y
    }

    /// Bounding box of every solid cell, or `None` if the board is blank.
    pub fn content_bounds(&self) -> (r: Option<(Pos, Pos)>)
        requires
            self.wf(),
        ensures
            r is None <==> !self.has_solid(),
            r matches Some((mn, mx)) ==> self.is_bbox(mn, mx),
    {
        let mut mn = Pos { x: GRID_W, y: GRID_H };
        let mut mx = Pos { x: -1, y: -1 };
        let ghost mut wxn: int = 0;
        let ghost mut wxx: int = 0;
        let ghost mut wyn: int = 0;
        let ghost mut wyx: int = 0;
        let mut k: usize = 0;
        while k < GRID_CELLS
            invariant
                self.wf(),
                k <= GRID_CELLS,
                (exists|j: int| 0 <= j < k && #[trigger] self.cells@[j] == Cell::Solid) ==> {
                    &&& forall|j: int|
                        0 <= j < k && #[trigger] self.cells@[j] == Cell::Solid ==> mn.x <= col(j)
                            <= mx.x && mn.y <= row(j) <= mx.y
                    &&& 0 <= wxn < k && self.cells@[wxn] == Cell::Solid && col(wxn) == mn.x
                    &&& 0 <= wxx < k && self.cells@[wxx] == Cell::Solid && col(wxx) == mx.x
                    &&& 0 <= wyn < k && self.cells@[wyn] == Cell::Solid && row(wyn) == mn.y
                    &&& 0 <= wyx < k && self.cells@[wyx] == Cell::Solid && row(wyx) == mx.y
                    &&& mx.x >= 0
                },
                !(exists|j: int| 0 <= j < k && #[trigger] self.cells@[j] == Cell::Solid) ==> mn.x
                    == GRID_W && mn.y == GRID_H && mx.x == -1 && mx.y == -1,
            decreases GRID_CELLS - k,
        {
            if self.cells[k] == Cell::Solid {
                let x = (k % (GRID_W as usize)) as i32;
                let y = (k / (GRID_W as usize)) as i32;
                proof {
                    lemma_idx_roundtrip(k as int);
                }
                if x < mn.x {
                    mn.x = x;
                    proof {
                        wxn = k as int;
                    }
                }
                if y < mn.y {
                    mn.y = y;
                    proof {
                        wyn = k as int;
                    }
                }
                if x > mx.x {
                    mx.x = x;
                    proof {
                        wxx = k as int;
                    }
                }
                if y > mx.y {
                    mx.y = y;
                    proof {
                        wyx = k as int;
                    }
                }
                assert(self.cells@[k as int] == Cell::Solid);
            }
            k = k + 1;
        }
        if mx.x >= 0 {
            proof {
                assert(self.cells@[wxn] == Cell::Solid);
                assert(self.cells@[wxx] == Cell::Solid);
                assert(self.cells@[wyn] == Cell::Solid);
                assert(self.cells@[wyx] == Cell::Solid);
            }
            Some((mn, mx))
        } else {
            None
        }
    }

    /// `p` is an open cell with no open cell above it, nor left of it on its
    /// row.
    pub open spec fn is_start(&self, p: Pos) -> bool {
        &&& self.open_at(p.x as int, p.y as int)
        &&& forall|k: int|
            0 <= k < GRID_CELLS && #[trigger] self.open_at(col(k), row(k)) ==> row(k) < p.y || (row(k) == p.y
                && col(k) >= p.x)
    }

    /// The topmost open cell (tie-break: leftmost), if the board has one.
    pub open spec fn start_cell(&self) -> Option<Pos> {
        if exists|k: int| 0 <= k < GRID_CELLS && #[trigger] self.open_at(col(k), row(k)) {
            Some(choose|p: Pos| self.is_start(p))
        } else {
            None
        }
    }

    /// The topmost open cell (tie-break: leftmost) — the default start.
    pub fn find_start(&self) -> (r: Option<Pos>)
        requires
            self.wf(),
        ensures
            r == self.start_cell(),
            r is None <==> !(exists|k: int|
                0 <= k < GRID_CELLS && #[trigger] self.open_at(col(k), row(k))),
            r matches Some(p) ==> {
                &&& self.open_at(p.x as int, p.y as int)
                &&& forall|k: int|
                    0 <= k < GRID_CELLS && #[trigger] self.open_at(col(k), row(k)) ==> row(k) < p.y
                        || (row(k) == p.y && col(k) >= p.x)
            },
    {
        let mut best: Option<Pos> = None;
        let mut k: usize = 0;
        while k < GRID_CELLS
            invariant
                self.wf(),
                k <= GRID_CELLS,
                best is None <==> !(exists|j: int|
                    0 <= j < k && #[trigger] self.open_at(col(j), row(j))),
                best matches Some(p) ==> {
                    &&& self.open_at(p.x as int, p.y as int)
                    &&& in_bounds(p.x as int, p.y as int)
                    &&& idx(p.x as int, p.y as int) < k
                    &&& forall|j: int|
                        0 <= j < k && #[trigger] self.open_at(col(j), row(j)) ==> row(j) < p.y || (
                        row(j) == p.y && col(j) >= p.x)
                },
            decreases GRID_CELLS - k,
        {
            let x = (k % (GRID_W as usize)) as i32;
            let y = (k / (GRID_W as usize)) as i32;
            proof {
                lemma_idx_roundtrip(k as int);
            }
            let c = Pos { x, y };
            if self.is_open(c) {
                best = Some(
                    match best {
                        None => c,
                        Some(b) => {
                            if c.y > b.y || (c.y == b.y && c.x < b.x) {
                                c
                            } else {
                                b
                            }
                        },
                    },
                );
                assert(self.open_at(col(k as int), row(k as int)));
            }
            k = k + 1;
        }
        proof {
            match best {
                Some(p) => {
                    assert(self.is_start(p));
                    let q = choose|q: Pos| self.is_start(q);
                    lemma_start_unique(*self, p, q);
                },
                None => {},
            }
        }
        best
    }

    /// Shift every solid so its bounding box is centred on the board, and return
    /// the shift applied (so a placed start can follow it).
    ///
    /// The board's centre sits between cells `(w-1)/2` and `w/2`, so doubled
    /// coordinates are used, and a half shift rounds away from zero.
    #[verifier::spinoff_prover]
    pub fn recenter_solids(&mut self) -> (r: Pos)
        requires
            old(self).wf(),
        ensures
            final(self).wf(),
            final(self).locked@ == old(self).locked@,
            !old(self).has_solid() ==> r == (Pos { x: 0, y: 0 }),
            old(self).has_solid() ==> exists|mn: Pos, mx: Pos|
                #![trigger old(self).is_bbox(mn, mx)]
                old(self).is_bbox(mn, mx) && r.x == round_half(GRID_W - 1 - (mn.x + mx.x)) && r.y
                    == round_half(GRID_H - 1 - (mn.y + mx.y)),
            forall|k: int|
                0 <= k < GRID_CELLS ==> #[trigger] final(self).cells@[k] == shifted_cell(
                    old(self).cells@,
                    r.x as int,
                    r.y as int,
                    k,
                ),
            forall|k: int|
                0 <= k < GRID_CELLS && #[trigger] old(self).cells@[k] == Cell::Solid ==> in_bounds(
                    col(k) + r.x,
                    row(k) + r.y,
                ),
            final(self).dirty == (old(self).dirty || r != (Pos { x: 0, y: 0 })),
    {
        let bounds = self.content_bounds();
        let (mn, mx) = match bounds {
            None => {
                proof {
                    assert forall|k: int| 0 <= k < GRID_CELLS implies #[trigger] self.cells@[k]
                        == Cell::Empty by {
                        lemma_idx_roundtrip(k);
                        if self.cells@[k] == Cell::Solid {
                            assert(self.has_solid());
                        }
                    }
                }
                return Pos { x: 0, y: 0 };
            },
            Some(b) => b,
        };
        proof {
            lemma_recentered_in_bounds(self.cells@, mn, mx);
        }
        let sx = round_half_i32((GRID_W - 1) - (mn.x + mx.x));
        let sy = round_half_i32((GRID_H - 1) - (mn.y + mx.y));
        let shift = Pos { x: sx, y: sy };
        if sx == 0 && sy == 0 {
            proof {
                assert forall|k: int| 0 <= k < GRID_CELLS implies #[trigger] self.cells@[k]
                    == shifted_cell(old(self).cells@, 0, 0, k) by {
                    lemma_idx_roundtrip(k);
                    if self.cells@[k] != Cell::Solid {
                        assert(self.cells@[k] == Cell::Empty);
                    }
                }
            }
            return shift;
        }
        let cells = shifted_solids(&self.cells, sx, sy);
        self.cells = cells;
        self.dirty = true;
        shift
    }

    /// Paint a straight line of cells with `value` (Bresenham), so fast drags
    /// don't leave gaps.
    pub fn paint_line(&mut self, a: Pos, b: Pos, value: Cell)
        requires
            old(self).wf(),
        ensures
            final(self).wf(),
            final(self).locked@ == old(self).locked@,
            final(self).cells@ == line_cells(old(self).cells@, old(self).locked@, bresenham(a, b), value),
            line_path(a, b, bresenham(a, b)),
            final(self).dirty == (old(self).dirty || final(self).cells@ != old(self).cells@),
    {
        let ad: i64 = if b.x as i64 >= a.x as i64 {
            b.x as i64 - a.x as i64
        } else {
            a.x as i64 - b.x as i64
        };
        let bd: i64 = if b.y as i64 >= a.y as i64 {
            b.y as i64 - a.y as i64
        } else {
            a.y as i64 - b.y as i64
        };
        let dx = ad;
        let dy = -bd;
        let sx: i32 = if a.x < b.x {
            1
        } else {
            -1
        };
        let sy: i32 = if a.y < b.y {
            1
        } else {
            -1
        };
        let mut err: i64 = dx + dy;
        let mut x = a.x;
        let mut y = a.y;
        let ghost mut pts: Seq<Pos> = Seq::empty();
        let ghost mut i: int = 0;
        let ghost mut j: int = 0;
        let ghost mut t: int = 0;
        let ghost m: int = if ad >= bd {
            ad as int
        } else {
            bd as int
        };
        proof {
            lemma_line_cells_empty(old(self).cells@, old(self).locked@, value);
        }
        loop
            invariant_except_break
                self.wf(),
                self.locked@ == old(self).locked@,
                ad == line_dx(a, b),
                bd == line_dy(a, b),
                dx == ad,
                dy == -bd,
                sx == line_sx(a, b),
                sy == line_sy(a, b),
                m == line_m(a, b),
                0 <= i <= ad,
                0 <= j <= bd,
                x == a.x + sx * i,
                y == a.y + sy * j,
                err == ad * j - bd * i + ad - bd,
                -m <= ad * j - bd * i <= m,
                path_prefix(a, b, pts.push(Pos { x, y })),
                self.cells@ == line_cells(old(self).cells@, old(self).locked@, pts, value),
                self.dirty == (old(self).dirty || self.cells@ != old(self).cells@),
                0 <= t,
                (x as int, y as int, err as int) == bres_state(a, b, t as nat),
                pts == Seq::new(t as nat, |k: int| bres_pos(a, b, k as nat)),
                if ad >= bd {
                    i == t && 2 * err >= -bd
                } else {
                    j == t && 2 * err <= ad
                },
            ensures
                self.wf(),
                self.locked@ == old(self).locked@,
                line_path(a, b, pts),
                pts == bresenham(a, b),
                self.cells@ == line_cells(old(self).cells@, old(self).locked@, pts, value),
                self.dirty == (old(self).dirty || self.cells@ != old(self).cells@),
            decreases (ad - i) + (bd - j),
        {
            let ghost prev = self.cells@;
            let cur = Pos { x, y };
            self.paint(cur, value);
            proof {
                lemma_line_cells_push(old(self).cells@, old(self).locked@, pts, value, cur);
                if prev != old(self).cells@ {
                    lemma_line_cells_keeps_change(old(self).cells@, old(self).locked@, pts, value, cur);
                }
                assert(cur == bres_pos(a, b, t as nat));
                pts = pts.push(cur);
                assert(pts =~= Seq::new((t + 1) as nat, |k: int| bres_pos(a, b, k as nat)));
            }
            if x == b.x && y == b.y {
                proof {
                    if ad >= bd {
                        if ad > 0 {
                            assert(sx * i == ad * sx) by (nonlinear_arith)
                                requires x == a.x + sx * i, x == b.x, ad == abs_int(b.x - a.x), sx == line_sx(a, b);
                        }
                    } else {
                        assert(sy * j == bd * sy) by (nonlinear_arith)
                            requires y == a.y + sy * j, y == b.y, bd == abs_int(b.y - a.y), sy == line_sy(a, b);
                    }
                    assert(t == m);
                    assert(pts =~= bresenham(a, b));
                }
                break;
            }
            proof {
                lemma_band_edges(ad as int, bd as int, i, j);
            }
            let ghost pi = i;
            let ghost pj = j;
            let e2 = 2 * err;
            if e2 >= dy {
                err = err + dy;
                x = x + sx;
                proof {
                    lemma_mul_step(bd as int, i);
                    i = i + 1;
                }
            }
            if e2 <= dx {
                err = err + dx;
                y = y + sy;
                proof {
                    lemma_mul_step(ad as int, j);
                    j = j + 1;
                }
            }
            proof {
                lemma_path_prefix_extend(a, b, pts, Pos { x, y }, pi, pj, i, j);
                t = t + 1;
                assert(bres_state(a, b, t as nat) == bres_next(a, b, bres_state(a, b, (t - 1) as nat)));
            }
        }
    }

    /// Pixel colour for a cell, as raw sRGB bytes ready for the texture.
    pub fn color(cell: Cell) -> (r: [u8; 4])
        ensures
            r@ == match cell {
                Cell::Empty => seq![0u8, 0u8, 0u8, 0u8],
                Cell::Solid => seq![104u8, 112u8, 130u8, 255u8],
            },
    {
        match cell {
            Cell::Empty => [0, 0, 0, 0],
            Cell::Solid => [104, 112, 130, 255],
        }
    }
}

/// The flat indices of the solids of `s`.
pub open spec fn solid_indices(s: Seq<Cell>) -> Set<int> {
    Set::new(|k: int| 0 <= k < s.len() && s[k] == Cell::Solid)
}

/// Counting the solids is counting their indices.
proof fn lemma_count_is_card(s: Seq<Cell>)
    ensures
        solid_indices(s).finite(),
        count_cells(s, Cell::Solid) == solid_indices(s).len(),
    decreases s.len(),
{
    if s.len() == 0 {
        assert(solid_indices(s) =~= Set::<int>::empty());
    } else {
        let t = s.drop_last();
        lemma_count_is_card(t);
        let n = s.len() - 1;
        if s.last() == Cell::Solid {
            assert(solid_indices(s) =~= solid_indices(t).insert(n));
        } else {
            assert(solid_indices(s) =~= solid_indices(t));
        }
    }
}

/// Moving every solid of a board by `r` in one go, with every solid landing
/// on the board, keeps the number of solids, moves their bounding box by `r`,
/// and, when `r` is the recentring shift of that box, leaves the box on the
/// board's centre.
pub proof fn recentring_keeps_and_centres_the_solids(g1: Grid, g2: Grid, r: Pos, mn: Pos, mx: Pos)
    requires
        g1.wf(),
        g2.wf(),
        forall|k: int| 0 <= k < GRID_CELLS ==> #[trigger] g2.cells@[k] == shifted_cell(g1.cells@, r.x as int, r.y as int, k),
        forall|k: int|
            0 <= k < GRID_CELLS && #[trigger] g1.cells@[k] == Cell::Solid ==> in_bounds(col(k) + r.x, row(k) + r.y),
    ensures
        count_cells(g2.cells@, Cell::Solid) == count_cells(g1.cells@, Cell::Solid),
        g1.is_bbox(mn, mx) ==> g2.is_bbox(moved(mn, r.x as int, r.y as int), moved(mx, r.x as int, r.y as int)),
        g1.is_bbox(mn, mx) && r.x == round_half(GRID_W - 1 - (mn.x + mx.x)) && r.y == round_half(
            GRID_H - 1 - (mn.y + mx.y),
        ) ==> centred(moved(mn, r.x as int, r.y as int), moved(mx, r.x as int, r.y as int)),
{
    let c1 = g1.cells@;
    let c2 = g2.cells@;
    let sx = r.x as int;
    let sy = r.y as int;
    let f = |k: int| idx(col(k) + sx, row(k) + sy);
    lemma_count_is_card(c1);
    lemma_count_is_card(c2);
    let x = solid_indices(c1);
    let y = solid_indices(c2);
    assert forall|k1: int, k2: int| x.contains(k1) && x.contains(k2) && #[trigger] f(k1) == #[trigger] f(k2) implies k1
        == k2 by {
        lemma_idx_bounds(col(k1) + sx, row(k1) + sy);
        lemma_idx_bounds(col(k2) + sx, row(k2) + sy);
        lemma_idx_roundtrip(k1);
        lemma_idx_roundtrip(k2);
    }
    assert forall|j: int| #[trigger] y.contains(j) == x.map(f).contains(j) by {
        if y.contains(j) {
            let i = idx(col(j) - sx, row(j) - sy);
            lemma_idx_bounds(col(j) - sx, row(j) - sy);
            lemma_idx_roundtrip(j);
            assert(x.contains(i));
            assert(f(i) == j);
        }
        if x.map(f).contains(j) {
            let i = choose|i: int| x.contains(i) && j == f(i);
            let jj = lemma_shift_solid(c1, c2, sx, sy, i);
            lemma_idx_bounds(col(i) + sx, row(i) + sy);
            lemma_idx_roundtrip(jj);
            assert(jj == j);
        }
    }
    assert(x.map(f) =~= y);
    vstd::set_lib::lemma_map_size(x, y, f);
    if g1.is_bbox(mn, mx) {
        lemma_shift_bbox(c1, c2, mn, mx, sx, sy);
    }
}

} // verus!
