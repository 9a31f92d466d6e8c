//! Painting the board, placing the ball, and switching between pen and run
//! modes.
use vstd::prelude::*;

use crate::grid::{bresenham, col, idx, in_bounds, line_cells, row, Cell, Grid, Pos, GRID_CELLS, GRID_H, GRID_W};

verus! {

/// Which half of the game is active.
#[derive(Clone, Copy, PartialEq, Eq, Debug, Structural)]
pub enum Mode {
    /// Draw solids; the ball is hidden.
    Paint,
    /// Watch the ball roll.
    Run,
}

impl Default for Mode {
    fn default() -> (m: Mode)
        ensures
            m == Mode::Paint,
    {
        Mode::Paint
    }
}

/// Remembers the previous painted cell so a fast drag paints a continuous
/// line.
pub struct Brush {
    pub last: Option<Pos>,
}

impl Brush {
    pub fn new() -> (b: Brush)
        ensures
            b.last is None,
    {
        Brush { last: None }
    }
}

/// Where the player has chosen to drop the ball. `None` means "use the
/// automatic start" (the topmost open cell).
pub struct Placement {
    pub start: Option<Pos>,
}

impl Placement {
    pub fn new() -> (p: Placement)
        ensures
            p.start is None,
    {
        Placement { start: None }
    }
}

/// `o` is an open cell.
pub open spec fn open_opt(g: Grid, o: Option<Pos>) -> bool {
    match o {
        Some(c) => g.open_at(c.x as int, c.y as int),
        None => false,
    }
}

/// The board after the `C` key: every unlocked cell emptied.
pub open spec fn cleared(cells: Seq<Cell>, locked: Seq<bool>) -> Seq<Cell> {
    Seq::new(cells.len(), |k: int| if locked[k] { cells[k] } else { Cell::Empty })
}

/// One frame of the pen. `clear` empties every unlocked cell first. While the
/// left (draw) or right (erase, which wins) button is held over the board
/// cell `cursor`, the stroke paints a line from the previous frame's cell, or
/// the single cell when the stroke has just begun. Anything else ends the
/// stroke.
pub fn paint(grid: &mut Grid, brush: &mut Brush, clear: bool, drawing: bool, erasing: bool, cursor: Option<Pos>)
    requires
        old(grid).wf(),
    ensures
        final(grid).wf(),
        final(grid).locked@ == old(grid).locked@,
        ({
            let base = if clear {
                cleared(old(grid).cells@, old(grid).locked@)
            } else {
                old(grid).cells@
            };
            let value = if erasing {
                Cell::Empty
            } else {
                Cell::Solid
            };
            &&& final(grid).dirty == (old(grid).dirty || base != old(grid).cells@ || final(grid).cells@ != base)
            &&& if !(drawing || erasing) || cursor is None {
                &&& final(grid).cells@ == base
                &&& final(brush).last is None
            } else {
                let cell = cursor->0;
                &&& final(brush).last == Some(cell)
                &&& match old(brush).last {
                    Some(prev) => final(grid).cells@ == line_cells(base, old(grid).locked@, bresenham(prev, cell), value),
                    None => final(grid).cells@ == if in_bounds(cell.x as int, cell.y as int) && !(value == Cell::Empty
                        && old(grid).locked@[idx(cell.x as int, cell.y as int)]) {
                        base.update(idx(cell.x as int, cell.y as int), value)
                    } else {
                        base
                    },
                }
            }
        }),
{
    if clear {
        grid.clear();
        assert(grid.cells@ =~= cleared(old(grid).cells@, old(grid).locked@));
    }
    if !drawing && !erasing {
        brush.last = None;
        return;
    }
    let cell = match cursor {
        None => {
            brush.last = None;
            return;
        },
        Some(c) => c,
    };
    let value = if erasing {
        Cell::Empty
    } else {
        Cell::Solid
    };
    match brush.last {
        Some(prev) => grid.paint_line(prev, cell, value),
        None => grid.paint(cell, value),
    }
    brush.last = Some(cell);
}

/// One frame of start placement. `B` reverts to the automatic start; a
/// middle click in pen mode on an open cell places the ball there. Gives the
/// cell the placement marker shows: the placed start, in pen mode, while it
/// is still open.
pub fn place_start(
    placement: &mut Placement,
    grid: &Grid,
    mode: Mode,
    revert: bool,
    click: bool,
    cursor: Option<Pos>,
) -> (shown: Option<Pos>)
    requires
        grid.wf(),
    ensures
        final(placement).start == ({
            let after_revert = if revert {
                None
            } else {
                old(placement).start
            };
            if mode == Mode::Paint && click && open_opt(*grid, cursor) {
                cursor
            } else {
                after_revert
            }
        }),
        shown == (if mode == Mode::Paint && open_opt(*grid, final(placement).start) {
            final(placement).start
        } else {
            None
        }),
{
    if revert {
        placement.start = None;
    }
    if mode == Mode::Paint && click {
        match cursor {
            Some(c) => {
                if grid.is_open(c) {
                    placement.start = Some(c);
                }
            },
            None => {},
        }
    }
    if mode != Mode::Paint {
        return None;
    }
    match placement.start {
        Some(s) => {
            if grid.is_open(s) {
                Some(s)
            } else {
                None
            }
        },
        None => None,
    }
}

/// The cell a run starts from: the placed start while it is open, else the
/// automatic start.
pub fn choose_start(grid: &Grid, placed: Option<Pos>) -> (r: Option<Pos>)
    requires
        grid.wf(),
    ensures
        match placed {
            Some(p) if grid.open_at(p.x as int, p.y as int) => r == placed,
            _ => r == grid.start_cell(),
        },
{
    match placed {
        Some(p) => {
            if grid.is_open(p) {
                return placed;
            }
        },
        None => {},
    }
    grid.find_start()
}

/// The texture colour bytes of a cell.
pub open spec fn color_of(c: Cell) -> Seq<u8> {
    match c {
        Cell::Empty => seq![0u8, 0u8, 0u8, 0u8],
        Cell::Solid => seq![104u8, 112u8, 130u8, 255u8],
    }
}

/// Where cell `k`'s first colour byte sits in the texture: image row `0` is
/// the top, board row `0` the bottom.
pub open spec fn pixel_at(k: int) -> int {
    ((GRID_H - 1 - row(k)) * GRID_W + col(k)) * 4
}

/// Blit the board into the texture bytes `data`, but only when something
/// changed and the texture is big enough; a blit clears the change flag.
pub fn sync_image(grid: &mut Grid, data: &mut Vec<u8>)
    requires
        old(grid).wf(),
    ensures
        final(grid).wf(),
        final(grid).cells@ == old(grid).cells@,
        final(grid).locked@ == old(grid).locked@,
        final(data)@.len() == old(data)@.len(),
        if !old(grid).dirty || old(data)@.len() < GRID_CELLS * 4 {
            final(data)@ == old(data)@ && final(grid).dirty == old(grid).dirty
        } else {
            &&& !final(grid).dirty
            &&& forall|k: int, c: int|
                0 <= k < GRID_CELLS && 0 <= c < 4 ==> #[trigger] final(data)@[pixel_at(k) + c] == color_of(
                    old(grid).cells@[k],
                )[c]
            &&& forall|i: int| GRID_CELLS * 4 <= i < old(data)@.len() ==> #[trigger] final(data)@[i] == old(data)@[i]
        },
{
    if !grid.dirty {
        return;
    }
    if data.len() < GRID_CELLS * 4 {
        return;
    }
    let mut k: usize = 0;
    while k < GRID_CELLS
        invariant
            grid.wf(),
            grid.cells@ == old(grid).cells@,
            grid.locked@ == old(grid).locked@,
            grid.dirty == old(grid).dirty,
            data@.len() == old(data)@.len(),
            data@.len() >= GRID_CELLS * 4,
            k <= GRID_CELLS,
            forall|j: int, c: int|
                0 <= j < k && 0 <= c < 4 ==> #[trigger] data@[pixel_at(j) + c] == color_of(grid.cells@[j])[c],
            forall|i: int|
                0 <= i < data@.len() && !touched(k as int, i) ==> #[trigger] data@[i] == old(data)@[i],
        decreases GRID_CELLS - k,
    {
        let x = k % (GRID_W as usize);
        let y = k / (GRID_W as usize);
        let offset = (((GRID_H as usize) - 1 - y) * (GRID_W as usize) + x) * 4;
        assert(offset == pixel_at(k as int));
        let color = Grid::color(grid.cells[k]);
        let ghost before = data@;
        data.set(offset, color[0]);
        data.set(offset + 1, color[1]);
        data.set(offset + 2, color[2]);
        data.set(offset + 3, color[3]);
        proof {
            assert forall|j: int, c: int|
                0 <= j < k + 1 && 0 <= c < 4 implies #[trigger] data@[pixel_at(j) + c] == color_of(grid.cells@[j])[c] by {
                if j < k {
                    lemma_pixels_apart(j, k as int);
                    assert(before[pixel_at(j) + c] == color_of(grid.cells@[j])[c]);
                }
            }
            assert forall|i: int|
                0 <= i < data@.len() && !touched(k + 1, i) implies #[trigger] data@[i] == old(data)@[i] by {
                assert(!(pixel_at(k as int) <= i < pixel_at(k as int) + 4));
                assert(!touched(k as int, i));
            }
        }
        k = k + 1;
    }
    grid.dirty = false;
    proof {
        assert forall|i: int| GRID_CELLS * 4 <= i < old(data)@.len() implies #[trigger] data@[i] == old(data)@[i] by {
            assert forall|j: int| 0 <= j < GRID_CELLS implies !(#[trigger] pixel_at(j) <= i < pixel_at(j) + 4) by {
                crate::grid::lemma_idx_roundtrip(j);
            }
            assert(!touched(GRID_CELLS as int, i));
        }
    }
}

/// Byte `i` belongs to one of the first `k` cells.
pub open spec fn touched(k: int, i: int) -> bool {
    exists|j: int| 0 <= j < k && #[trigger] pixel_at(j) <= i < pixel_at(j) + 4
}

/// Two cells' colour bytes never overlap.
proof fn lemma_pixels_apart(j: int, k: int)
    requires
        0 <= j < k < GRID_CELLS,
    ensures
        pixel_at(j) + 4 <= pixel_at(k) || pixel_at(k) + 4 <= pixel_at(j),
{
    crate::grid::lemma_idx_roundtrip(j);
    crate::grid::lemma_idx_roundtrip(k);
}

} // verus!
