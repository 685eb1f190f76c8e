//! The grid side of collision tests: whether the tiles under a body may be
//! stood on. Where the body's corners fall is computed by the caller.
use vstd::prelude::*;
use crate::entities::WALL;
use crate::grid::ByteGrid;

verus! {

/// Tile `(gx, gy)` may be stood on: it lies in the first `w` columns and `h`
/// rows and is not wall.
pub open spec fn open_cell(grid: ByteGrid, w: int, h: int, gx: int, gy: int) -> bool {
    0 <= gx < w && 0 <= gy < h && grid.at(gy, gx) != WALL
}

/// Whether tile `(gx, gy)` may be stood on; see `open_cell`.
pub fn cell_walkable(grid: &ByteGrid, w: usize, h: usize, gx: isize, gy: isize) -> (ok: bool)
    requires
        w <= grid.cols(),
        h <= grid.rows(),
    ensures
        ok == open_cell(*grid, w as int, h as int, gx as int, gy as int),
{
    if gx < 0 || gy < 0 {
        return false;
    }
    let ux: usize = gx as usize;
    let uy: usize = gy as usize;
    if ux >= w || uy >= h {
        return false;
    }
    grid.get(uy, ux) != WALL
}

/// Whether every tile of a body's footprint may be stood on; the tiles are
/// tried in order and the first that may not ends the test.
pub fn footprint_walkable(grid: &ByteGrid, w: usize, h: usize, cells: &Vec<(isize, isize)>) -> (ok: bool)
    requires
        w <= grid.cols(),
        h <= grid.rows(),
    ensures
        ok == forall|i: int| 0 <= i < cells.len() ==> open_cell(*grid, w as int, h as int, (#[trigger] cells@[i]).0 as int, cells@[i].1 as int),
{
    let mut i: usize = 0;
    while i < cells.len()
        invariant
            i <= cells.len(),
            w <= grid.cols(),
            h <= grid.rows(),
            forall|k: int| 0 <= k < i ==> open_cell(*grid, w as int, h as int, (#[trigger] cells@[k]).0 as int, cells@[k].1 as int),
        decreases cells.len() - i,
    {
        let (gx, gy) = cells[i];
        if !cell_walkable(grid, w, h, gx, gy) {
            return false;
        }
        i = i + 1;
    }
    true
}

} // verus!
