//! The victory blast's chain reaction: which cells burst.
//!
//! Every solid cell of the level becomes a burst. Large levels are sampled
//! down so the particle count stays bounded, evenly over the cells in board
//! order (bottom row first, left to right).
use vstd::prelude::*;

use crate::grid::{col, lemma_idx_roundtrip, row, Cell, Grid, Pos, GRID_CELLS, GRID_W};

verus! {

/// Most bursts the victory chain reaction spawns across the level.
pub const MAX_LEVEL_BURSTS: usize = 220;

/// The solid cells among the first `n` board cells, in board order.
pub open spec fn solids_upto(cells: Seq<Cell>, n: int) -> Seq<Pos>
    decreases n,
{
    if n <= 0 {
        Seq::empty()
    } else if cells[n - 1] == Cell::Solid {
        solids_upto(cells, n - 1).push(Pos { x: col(n - 1) as i32, y: row(n - 1) as i32 })
    } else {
        solids_upto(cells, n - 1)
    }
}

/// Every `stride`-th element of `s`, starting with the first.
pub open spec fn every_nth(s: Seq<Pos>, stride: int) -> Seq<Pos> {
    Seq::new(((s.len() + stride - 1) / stride) as nat, |i: int| s[i * stride])
}

/// The sampling step: one in `len / MAX_LEVEL_BURSTS` cells, at least every
/// cell.
pub open spec fn burst_stride(len: int) -> int {
    if len / (MAX_LEVEL_BURSTS as int) > 1 {
        len / (MAX_LEVEL_BURSTS as int)
    } else {
        1
    }
}

/// The cells that burst when the level overloads.
pub fn burst_cells(grid: &Grid) -> (r: Vec<Pos>)
    requires
        grid.wf(),
    ensures
        ({
            let all = solids_upto(grid.cells@, GRID_CELLS as int);
            r@ == every_nth(all, burst_stride(all.len() as int))
        }),
{
    let mut all: Vec<Pos> = Vec::new();
    let mut k: usize = 0;
    while k < GRID_CELLS
        invariant
            grid.wf(),
            k <= GRID_CELLS,
            all@ == solids_upto(grid.cells@, k as int),
            all@.len() <= k,
        decreases GRID_CELLS - k,
    {
        if grid.cells[k] == Cell::Solid {
            proof {
                lemma_idx_roundtrip(k as int);
            }
            let x = (k % (GRID_W as usize)) as i32;
            let y = (k / (GRID_W as usize)) as i32;
            all.push(Pos { x, y });
        }
        k = k + 1;
    }
    let len = all.len();
    let stride: usize = if len / MAX_LEVEL_BURSTS > 1 {
        len / MAX_LEVEL_BURSTS
    } else {
        1
    };
    let ghost count = ((len + stride - 1) / (stride as int)) as nat;
    let mut out: Vec<Pos> = Vec::new();
    let mut i: usize = 0;
    let mut n: usize = 0;
    while i < len
        invariant
            len == all@.len(),
            len <= GRID_CELLS,
            1 <= stride <= len || (stride == 1),
            stride == burst_stride(len as int),
            i == n * stride,
            n <= count,
            count == (len + stride - 1) / (stride as int),
            out@ == every_nth(all@, stride as int).take(n as int),
        decreases count - n,
    {
        proof {
            assert(n * stride < len);
            assert(n < count) by (nonlinear_arith)
                requires
                    n * stride < len,
                    stride >= 1,
                    count == (len + stride - 1) / (stride as int),
            ;
        }
        out.push(all[i]);
        proof {
            let e = every_nth(all@, stride as int);
            assert(e[n as int] == all@[i as int]);
            assert(e.take(n + 1) =~= e.take(n as int).push(e[n as int]));
        }
        assert((n + 1) * stride == n * stride + stride) by (nonlinear_arith);
        i = i + stride;
        n = n + 1;
    }
    proof {
        let e = every_nth(all@, stride as int);
        assert(n >= count) by (nonlinear_arith)
            requires
                n * stride >= len,
                stride >= 1,
                count == (len + stride - 1) / (stride as int),
        ;
        assert(e.take(n as int) =~= e);
    }
    out
}

/// Where the victory blast stands.
#[derive(Clone, Copy, Debug, PartialEq, Eq, Structural)]
pub enum BlastPhase {
    /// No blast: the run has not been won.
    Idle,
    /// The level is burning away.
    Blasting,
    /// The level is gone.
    Complete,
}

/// One frame of the victory blast. `victory` says whether the run is won;
/// `burnt_out` whether the blast's time has run out this frame. A run that
/// is not won calls the blast off (asking for a redraw if one was going); a
/// won run starts the blast, keeps the board redrawing while it burns, and
/// wipes the whole board once it has burnt out.
pub fn detonation_step(phase: BlastPhase, victory: bool, burnt_out: bool, grid: &mut Grid) -> (next: BlastPhase)
    requires
        old(grid).wf(),
    ensures
        final(grid).wf(),
        !victory ==> next == BlastPhase::Idle && final(grid).cells@ == old(grid).cells@ && final(grid).locked@
            == old(grid).locked@ && final(grid).dirty == (old(grid).dirty || phase != BlastPhase::Idle),
        victory && phase == BlastPhase::Idle ==> next == BlastPhase::Blasting && *final(grid) == *old(grid),
        victory && phase == BlastPhase::Blasting && !burnt_out ==> next == BlastPhase::Blasting && final(grid).cells@
            == old(grid).cells@ && final(grid).locked@ == old(grid).locked@ && final(grid).dirty,
        victory && phase == BlastPhase::Blasting && burnt_out ==> next == BlastPhase::Complete && final(grid).dirty
            && forall|k: int|
            0 <= k < GRID_CELLS ==> #[trigger] final(grid).cells@[k] == Cell::Empty && !final(grid).locked@[k],
        victory && phase == BlastPhase::Complete ==> next == BlastPhase::Complete && *final(grid) == *old(grid),
{
    if !victory {
        if phase != BlastPhase::Idle {
            grid.dirty = true;
        }
        return BlastPhase::Idle;
    }
    match phase {
        BlastPhase::Idle => BlastPhase::Blasting,
        BlastPhase::Blasting => {
            grid.dirty = true;
            if burnt_out {
                grid.obliterate();
                BlastPhase::Complete
            } else {
                BlastPhase::Blasting
            }
        },
        BlastPhase::Complete => BlastPhase::Complete,
    }
}

} // verus!
