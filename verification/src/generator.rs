//! Maps loaded from recorded level grids: conversion of raw grids, start and
//! exit placement, reuse of the last map, and detection of room-like sectors.
use vstd::prelude::*;
use std::path::PathBuf;
use crate::entities::{WALL, FLOOR, EXIT};
use crate::grid::{ByteGrid, shape_fits};
use crate::dungeon::{Room, DungeonGenerator, layout_dist};
use crate::random::{thread_rng, gen_range_usize};
use crate::env::ProgressChange;
use crate::tiles::{
    floor_tiles, floor_list, floors_with_fallback, open_tile, has_floor, in_fallback_room, choose_start_and_exit,
    place_start_and_exit, lemma_farthest_is_last, lemma_floors_before_row, lemma_floors_before_row_sorted,
    lemma_in_bounds_small, small_tile, rm_before, tile_sq_dist, sorted_row_major,
};

verus! {

/// The number of floor tiles of row `y` in columns `x0..x1`.
pub open spec fn count_row_floor(g: ByteGrid, y: int, x0: int, x1: int) -> nat
    decreases x1 - x0,
{
    if x1 <= x0 {
        0
    } else {
        count_row_floor(g, y, x0, x1 - 1) + if g.at(y, x1 - 1) == FLOOR {
            1nat
        } else {
            0nat
        }
    }
}

/// The number of floor tiles in rows `y0..y1` and columns `x0..x1`.
pub open spec fn count_rect_floor(g: ByteGrid, y0: int, y1: int, x0: int, x1: int) -> nat
    decreases y1 - y0,
{
    if y1 <= y0 {
        0
    } else {
        count_rect_floor(g, y0, y1 - 1, x0, x1) + count_row_floor(g, y1 - 1, x0, x1)
    }
}

/// The side of the square sectors a map of `h` rows and `w` columns is cut
/// into: an eighth of its smaller side, at least 8.
pub open spec fn sector_size(h: int, w: int) -> int {
    let m = if h < w { h } else { w };
    if m / 8 > 8 { m / 8 } else { 8 }
}

/// The room for the sector with top-left tile `(sx, sy)`, cut to the map, if
/// more than 30% of its tiles are floor.
pub open spec fn sector_room(g: ByteGrid, h: int, w: int, s: int, sy: int, sx: int) -> Seq<Room> {
    let ey = if sy + s < h { sy + s } else { h };
    let ex = if sx + s < w { sx + s } else { w };
    let count = count_rect_floor(g, sy, ey, sx, ex);
    let total = (ey - sy) * (ex - sx);
    if 10 * count > 3 * total {
        seq![(sx as usize, sy as usize, (ex - sx) as usize, (ey - sy) as usize)]
    } else {
        seq![]
    }
}

/// The rooms of the sectors in the sector row starting at row `sy`, from
/// column `sx` on.
pub open spec fn row_sector_rooms(g: ByteGrid, h: int, w: int, s: int, sy: int, sx: int) -> Seq<Room>
    decreases (if sx < w { w - sx } else { 0 }),
{
    if sx >= w || s <= 0 {
        seq![]
    } else {
        sector_room(g, h, w, s, sy, sx) + row_sector_rooms(g, h, w, s, sy, sx + s)
    }
}

/// The rooms of the sector rows from row `sy` on.
pub open spec fn sector_rooms(g: ByteGrid, h: int, w: int, s: int, sy: int) -> Seq<Room>
    decreases (if sy < h { h - sy } else { 0 }),
{
    if sy >= h || s <= 0 {
        seq![]
    } else {
        row_sector_rooms(g, h, w, s, sy, 0) + sector_rooms(g, h, w, s, sy + s)
    }
}

/// The rooms detected in the first `h` rows and `w` columns of a map: the
/// sectors more than 30% floor, row by row; the whole map when there is none.
pub open spec fn detected_rooms(g: ByteGrid, h: int, w: int) -> Seq<Room> {
    let r = sector_rooms(g, h, w, sector_size(h, w), 0);
    if r.len() == 0 {
        seq![(0usize, 0usize, w as usize, h as usize)]
    } else {
        r
    }
}

proof fn lemma_count_row_bound(g: ByteGrid, y: int, x0: int, x1: int)
    requires
        x0 <= x1,
    ensures
        count_row_floor(g, y, x0, x1) <= x1 - x0,
    decreases x1 - x0,
{
    if x1 > x0 {
        lemma_count_row_bound(g, y, x0, x1 - 1);
    }
}

proof fn lemma_count_rect_bound(g: ByteGrid, y0: int, y1: int, x0: int, x1: int)
    requires
        y0 <= y1,
        x0 <= x1,
    ensures
        count_rect_floor(g, y0, y1, x0, x1) <= (y1 - y0) * (x1 - x0),
    decreases y1 - y0,
{
    if y1 > y0 {
        lemma_count_rect_bound(g, y0, y1 - 1, x0, x1);
        lemma_count_row_bound(g, y1 - 1, x0, x1);
        assert((y1 - 1 - y0) * (x1 - x0) + (x1 - x0) == (y1 - y0) * (x1 - x0)) by (nonlinear_arith);
    }
}

/// The floor tiles of rows `y0..y1`, columns `x0..x1`.
fn count_floor_in_rect(g: &ByteGrid, y0: usize, y1: usize, x0: usize, x1: usize) -> (n: usize)
    requires
        y0 <= y1 <= g.rows(),
        x0 <= x1 <= g.cols(),
        shape_fits(g.rows() as int, g.cols() as int),
    ensures
        n == count_rect_floor(*g, y0 as int, y1 as int, x0 as int, x1 as int),
{
    let mut n: usize = 0;
    let mut y = y0;
    while y < y1
        invariant
            y0 <= y <= y1 <= g.rows(),
            x0 <= x1 <= g.cols(),
            shape_fits(g.rows() as int, g.cols() as int),
            n == count_rect_floor(*g, y0 as int, y as int, x0 as int, x1 as int),
        decreases y1 - y,
    {
        let mut x = x0;
        while x < x1
            invariant
                y0 <= y < y1 <= g.rows(),
                x0 <= x <= x1 <= g.cols(),
                shape_fits(g.rows() as int, g.cols() as int),
                n == count_rect_floor(*g, y0 as int, y as int, x0 as int, x1 as int) + count_row_floor(
                    *g,
                    y as int,
                    x0 as int,
                    x as int,
                ),
            decreases x1 - x,
        {
            proof {
                lemma_count_rect_bound(*g, y0 as int, y as int, x0 as int, x1 as int);
                lemma_count_row_bound(*g, y as int, x0 as int, x as int);
                assert((y - y0) * (x1 - x0) + (x - x0) < g.rows() * g.cols()) by (nonlinear_arith)
                    requires
                        y0 <= y < y1 <= g.rows(),
                        x0 <= x < x1 <= g.cols(),
                ;
            }
            if g.get(y, x) == FLOOR {
                n = n + 1;
            }
            x = x + 1;
        }
        y = y + 1;
    }
    n
}

/// Cuts the first `h` rows and `w` columns of a map into square sectors and
/// returns, row by row, those more than 30% floor as rooms
/// `(column, row, width, height)`; the whole map when there is none.
pub fn detect_rooms(grid: &ByteGrid, h: usize, w: usize) -> (rooms: Vec<Room>)
    requires
        h <= grid.rows(),
        w <= grid.cols(),
        h + sector_size(h as int, w as int) <= usize::MAX,
        w + sector_size(h as int, w as int) <= usize::MAX,
    ensures
        rooms@ == detected_rooms(*grid, h as int, w as int),
{
    let rows = grid.nrows();
    let m = if h < w { h } else { w };
    let s: usize = if m / 8 > 8 { m / 8 } else { 8 };
    let ghost full = sector_rooms(*grid, h as int, w as int, s as int, 0);
    let mut rooms: Vec<Room> = Vec::new();
    let mut sy: usize = 0;
    while sy < h
        invariant
            s == sector_size(h as int, w as int),
            h <= grid.rows(),
            w <= grid.cols(),
            shape_fits(grid.rows() as int, grid.cols() as int),
            h + s <= usize::MAX,
            w + s <= usize::MAX,
            sy <= h + s,
            full == sector_rooms(*grid, h as int, w as int, s as int, 0),
            rooms@ + sector_rooms(*grid, h as int, w as int, s as int, sy as int) == full,
        decreases (if sy < h { h - sy } else { 0 }),
    {
        let mut sx: usize = 0;
        while sx < w
            invariant
                s == sector_size(h as int, w as int),
                sy < h <= grid.rows(),
                w <= grid.cols(),
                shape_fits(grid.rows() as int, grid.cols() as int),
                h + s <= usize::MAX,
                w + s <= usize::MAX,
                sx <= w + s,
                full == sector_rooms(*grid, h as int, w as int, s as int, 0),
                rooms@ + row_sector_rooms(*grid, h as int, w as int, s as int, sy as int, sx as int) + sector_rooms(
                    *grid,
                    h as int,
                    w as int,
                    s as int,
                    sy + s,
                ) == full,
            decreases (if sx < w { w - sx } else { 0 }),
        {
            let ey = if sy + s < h { sy + s } else { h };
            let ex = if sx + s < w { sx + s } else { w };
            let count = count_floor_in_rect(grid, sy, ey, sx, ex);
            proof {
                assert((ey - sy) * (ex - sx) <= grid.rows() * grid.cols()) by (nonlinear_arith)
                    requires
                        sy < ey <= grid.rows(),
                        sx < ex <= grid.cols(),
                ;
                assert(grid.rows() * grid.cols() <= isize::MAX);
            }
            let total = (ey - sy) * (ex - sx);
            let ghost before = rooms@;
            let ghost piece = sector_room(*grid, h as int, w as int, s as int, sy as int, sx as int);
            let ghost rest = row_sector_rooms(*grid, h as int, w as int, s as int, sy as int, (sx + s) as int);
            let ghost later = sector_rooms(*grid, h as int, w as int, s as int, sy + s);
            assert(row_sector_rooms(*grid, h as int, w as int, s as int, sy as int, sx as int) == piece + rest);
            if 10 * (count as u128) > 3 * (total as u128) {
                rooms.push((sx, sy, ex - sx, ey - sy));
                assert(rooms@ =~= before + piece);
            } else {
                assert(rooms@ =~= before + piece);
            }
            assert(before + (piece + rest) + later =~= rooms@ + rest + later);
            sx = sx + s;
        }
        assert(row_sector_rooms(*grid, h as int, w as int, s as int, sy as int, sx as int) =~= Seq::<Room>::empty());
        assert(sector_rooms(*grid, h as int, w as int, s as int, sy as int) == row_sector_rooms(
            *grid,
            h as int,
            w as int,
            s as int,
            sy as int,
            0,
        ) + sector_rooms(*grid, h as int, w as int, s as int, sy + s));
        assert(rooms@ + Seq::<Room>::empty() + sector_rooms(*grid, h as int, w as int, s as int, sy + s) =~= rooms@
            + sector_rooms(*grid, h as int, w as int, s as int, sy + s));
        sy = sy + s;
    }
    assert(rooms@ =~= full);
    if rooms.len() == 0 {
        rooms.push((0, 0, w, h));
    }
    rooms
}

#[verifier::external_type_specification]
#[verifier::external_body]
pub struct ExPathBuf(PathBuf);

/// The code of a floor tile in a recorded level grid (0 is void, 1 wall).
pub const RAW_FLOOR: u8 = 2;

/// The recorded grid has a floor tile.
pub open spec fn raw_has_floor(raw: ByteGrid) -> bool {
    exists|y: int, x: int| raw.in_bounds(y, x) && #[trigger] raw.at(y, x) == RAW_FLOOR
}

/// The tile is open ground in the map made from a recorded grid: a recorded
/// floor tile, or, when the recording has none, a tile of the fallback room.
pub open spec fn raw_open(raw: ByteGrid, y: int, x: int) -> bool {
    raw.at(y, x) == RAW_FLOOR || (!raw_has_floor(raw) && in_fallback_room(raw.rows() as int, raw.cols() as int, y, x))
}

/// Start and exit on open tiles of a `rows` by `cols` map, the exit on an
/// open tile farthest from the start; an open tile as far as the exit comes
/// before it in row-major order.
pub open spec fn start_and_exit_chosen(
    open: spec_fn(int, int) -> bool,
    rows: int,
    cols: int,
    player: (usize, usize),
    exit: (usize, usize),
) -> bool {
    &&& 0 <= player.1 < rows && 0 <= player.0 < cols && open(player.1 as int, player.0 as int)
    &&& 0 <= exit.1 < rows && 0 <= exit.0 < cols && open(exit.1 as int, exit.0 as int)
    &&& forall|y: int, x: int|
        0 <= y < rows && 0 <= x < cols && #[trigger] open(y, x) ==> layout_dist(x, y, player) <= layout_dist(
            exit.0 as int,
            exit.1 as int,
            player,
        ) && ((x == exit.0 && y == exit.1) || layout_dist(x, y, player) < layout_dist(exit.0 as int, exit.1 as int, player)
            || rm_before((x as usize, y as usize), exit))
}

/// Whether a map can be made from the recorded grid: it has a floor tile,
/// or it is large enough (more than 5 by 5) to hold part of the fallback
/// room that replaces a floorless map.
pub fn raw_usable(raw: &ByteGrid) -> (ok: bool)
    ensures
        ok == (raw_has_floor(*raw) || (raw.rows() > 5 && raw.cols() > 5)),
{
    let h = raw.nrows();
    let w = raw.ncols();
    if h > 5 && w > 5 {
        return true;
    }
    let mut y: usize = 0;
    while y < h
        invariant
            h == raw.rows(),
            w == raw.cols(),
            y <= h,
            forall|yy: int, xx: int| 0 <= yy < y && 0 <= xx < w ==> #[trigger] raw.at(yy, xx) != RAW_FLOOR,
        decreases h - y,
    {
        let mut x: usize = 0;
        while x < w
            invariant
                h == raw.rows(),
                w == raw.cols(),
                y < h,
                x <= w,
                forall|yy: int, xx: int| 0 <= yy < y && 0 <= xx < w ==> #[trigger] raw.at(yy, xx) != RAW_FLOOR,
                forall|xx: int| 0 <= xx < x ==> #[trigger] raw.at(y as int, xx) != RAW_FLOOR,
            decreases w - x,
        {
            if raw.get(y, x) == RAW_FLOOR {
                return true;
            }
            x = x + 1;
        }
        y = y + 1;
    }
    false
}

/// The floor tiles of the recorded grid become floor, everything else wall.
fn convert_raw(raw: &ByteGrid) -> (g: ByteGrid)
    ensures
        g.rows() == raw.rows(),
        g.cols() == raw.cols(),
        forall|y: int, x: int| g.in_bounds(y, x) ==> #[trigger] g.at(y, x) == if raw.at(y, x) == RAW_FLOOR {
            FLOOR
        } else {
            WALL
        },
{
    let h = raw.nrows();
    let w = raw.ncols();
    let mut g = ByteGrid::filled(h, w, WALL);
    for y in 0..h
        invariant
            h == raw.rows(),
            w == raw.cols(),
            g.rows() == h,
            g.cols() == w,
            forall|yy: int, xx: int| g.in_bounds(yy, xx) ==> #[trigger] g.at(yy, xx) == if yy < y && raw.at(yy, xx)
                == RAW_FLOOR {
                FLOOR
            } else {
                WALL
            },
    {
        for x in 0..w
            invariant
                y < h,
                h == raw.rows(),
                w == raw.cols(),
                g.rows() == h,
                g.cols() == w,
                forall|yy: int, xx: int| g.in_bounds(yy, xx) ==> #[trigger] g.at(yy, xx) == if (yy < y || (yy == y && xx
                    < x)) && raw.at(yy, xx) == RAW_FLOOR {
                    FLOOR
                } else {
                    WALL
                },
        {
            if raw.get(y, x) == RAW_FLOOR {
                g.set(y, x, FLOOR);
            }
        }
    }
    g
}

/// Sets every exit tile of the grid back to floor.
fn clear_exits(g: &mut ByteGrid)
    ensures
        final(g).rows() == old(g).rows(),
        final(g).cols() == old(g).cols(),
        forall|y: int, x: int| old(g).in_bounds(y, x) ==> #[trigger] final(g).at(y, x) == if old(g).at(y, x) == EXIT {
            FLOOR
        } else {
            old(g).at(y, x)
        },
{
    let ghost g0 = *g;
    let h = g.nrows();
    let w = g.ncols();
    for y in 0..h
        invariant
            h == g.rows() == g0.rows(),
            w == g.cols() == g0.cols(),
            forall|yy: int, xx: int| g0.in_bounds(yy, xx) ==> #[trigger] g.at(yy, xx) == if yy < y && g0.at(yy, xx) == EXIT {
                FLOOR
            } else {
                g0.at(yy, xx)
            },
    {
        for x in 0..w
            invariant
                y < h,
                h == g.rows() == g0.rows(),
                w == g.cols() == g0.cols(),
                forall|yy: int, xx: int| g0.in_bounds(yy, xx) ==> #[trigger] g.at(yy, xx) == if (yy < y || (yy == y && xx
                    < x)) && g0.at(yy, xx) == EXIT {
                    FLOOR
                } else {
                    g0.at(yy, xx)
                },
        {
            if g.get(y, x) == EXIT {
                g.set(y, x, FLOOR);
            }
        }
    }
}

/// A map grid whose shape fits can be cut into sectors without overflow.
proof fn lemma_sector_fits(h: int, w: int)
    requires
        1 <= h,
        1 <= w,
        shape_fits(h, w),
    ensures
        h + sector_size(h, w) <= usize::MAX,
        w + sector_size(h, w) <= usize::MAX,
{
    assert(h <= isize::MAX && w <= isize::MAX) by (nonlinear_arith)
        requires
            1 <= h,
            1 <= w,
            h * w <= isize::MAX,
    ;
}

/// The list of floor tiles and the start and exit chosen from it satisfy
/// `start_and_exit_chosen` for the tiles that `open` marks.
proof fn lemma_chosen_from_list(
    open: spec_fn(int, int) -> bool,
    rows: int,
    cols: int,
    tiles: Seq<(usize, usize)>,
    player: (usize, usize),
    exit: (usize, usize),
)
    requires
        0 <= rows <= usize::MAX,
        0 <= cols <= usize::MAX,
        sorted_row_major(tiles),
        forall|c: (usize, usize)| #[trigger] tiles.contains(c) <==> (0 <= c.1 < rows && 0 <= c.0 < cols && open(
            c.1 as int,
            c.0 as int,
        )),
        tiles.contains(player),
        exists|i: int|
            {
                &&& 0 <= i < tiles.len()
                &&& exit == tiles[i]
                &&& forall|j: int| 0 <= j < tiles.len() ==> tile_sq_dist(#[trigger] tiles[j], player) <= tile_sq_dist(tiles[i], player)
                &&& forall|j: int| i < j < tiles.len() ==> tile_sq_dist(#[trigger] tiles[j], player) < tile_sq_dist(tiles[i], player)
            },
    ensures
        start_and_exit_chosen(open, rows, cols, player, exit),
{
    lemma_farthest_is_last(tiles, player, exit);
    assert forall|y: int, x: int| 0 <= y < rows && 0 <= x < cols && #[trigger] open(y, x) implies layout_dist(x, y, player)
        <= layout_dist(exit.0 as int, exit.1 as int, player) && ((x == exit.0 && y == exit.1) || layout_dist(x, y, player)
        < layout_dist(exit.0 as int, exit.1 as int, player) || rm_before((x as usize, y as usize), exit)) by {
        assert(tiles.contains((x as usize, y as usize)));
    }
}

/// `reused` is the kept map `kept` with its exit moved to `exit`: same
/// shape, `exit` holds the exit, former exits are floor, and every other
/// tile is as kept.
pub open spec fn reused_layout(kept: ByteGrid, reused: ByteGrid, exit: (usize, usize)) -> bool {
    &&& reused.rows() == kept.rows()
    &&& reused.cols() == kept.cols()
    &&& forall|y: int, x: int| reused.in_bounds(y, x) ==> #[trigger] reused.at(y, x) == if y == exit.1 && x == exit.0 {
        EXIT
    } else if kept.at(y, x) == EXIT {
        FLOOR
    } else {
        kept.at(y, x)
    }
}

/// Reusing a map keeps its walls where they were, and leaves a single exit:
/// a tile of the reused map is wall exactly when it was wall in the kept map
/// (the new exit being no wall there), and holds the exit exactly when it is
/// the new exit.
pub proof fn lemma_reuse_keeps_walls(kept: ByteGrid, reused: ByteGrid, exit: (usize, usize))
    requires
        reused_layout(kept, reused, exit),
        kept.in_bounds(exit.1 as int, exit.0 as int),
        kept.at(exit.1 as int, exit.0 as int) != WALL,
    ensures
        forall|y: int, x: int| #[trigger] reused.in_bounds(y, x) ==> (reused.at(y, x) == WALL <==> kept.at(y, x) == WALL),
        forall|y: int, x: int| #[trigger] reused.in_bounds(y, x) ==> (reused.at(y, x) == EXIT <==> (y == exit.1 && x == exit.0)),
{
}

/// A directory entry's extension marks a recorded grid: it is `npy`.
pub open spec fn npy_extension(ext: Option<String>) -> bool {
    ext matches Some(e) && e@ == "npy"@
}

/// The positions, in order, of the entries among the first `n` whose
/// extension is `npy`.
pub open spec fn npy_positions(exts: Seq<Option<String>>, n: int) -> Seq<usize>
    decreases n,
{
    if n <= 0 {
        seq![]
    } else if npy_extension(exts[n - 1]) {
        npy_positions(exts, n - 1).push((n - 1) as usize)
    } else {
        npy_positions(exts, n - 1)
    }
}

/// Picks the map files of a directory listing given the extension of each
/// entry (`None` where it has none or it is not text): the positions, in
/// order, of the entries whose extension is `npy`.
pub fn npy_entries(exts: &Vec<Option<String>>) -> (picked: Vec<usize>)
    ensures
        picked@ == npy_positions(exts@, exts@.len() as int),
{
    let npy = "npy".to_owned();
    let mut picked: Vec<usize> = Vec::new();
    let mut i: usize = 0;
    while i < exts.len()
        invariant
            i <= exts.len(),
            npy@ == "npy"@,
            picked@ == npy_positions(exts@, i as int),
        decreases exts.len() - i,
    {
        match &exts[i] {
            Some(e) => {
                if *e == npy {
                    picked.push(i);
                }
            },
            None => {},
        }
        i = i + 1;
    }
    picked
}

/// Generator of maps from recorded level grids, one file per map.
pub struct RealMapGenerator {
    pub map_files: Vec<PathBuf>,
    pub map_id: u32,
    pub current_map_name: String,
    pub rooms: Vec<Room>,
    pub cached_grid: Option<ByteGrid>,
}

impl RealMapGenerator {
    /// Counts a new map and picks at random the file to load it from; `None`
    /// when there are no map files.
    pub fn next_map_index(&mut self) -> (choice: Option<usize>)
        requires
            old(self).map_id < u32::MAX,
        ensures
            final(self).map_id == old(self).map_id + 1,
            final(self).map_files@ == old(self).map_files@,
            final(self).current_map_name@ == old(self).current_map_name@,
            final(self).rooms@ == old(self).rooms@,
            final(self).cached_grid == old(self).cached_grid,
            choice is None <==> old(self).map_files.len() == 0,
            choice matches Some(i) ==> i < old(self).map_files.len(),
    {
        self.map_id = self.map_id + 1;
        let mut rng = thread_rng();
        if self.map_files.len() == 0 {
            None
        } else {
            Some(gen_range_usize(&mut rng, 0, self.map_files.len()))
        }
    }

    /// The map used when there are no map files: 20 by 20, wall except a
    /// 10 by 10 floor room at rows and columns 5 to 14, with the start at
    /// `(10, 10)` and the exit position `(12, 12)` (not marked in the grid).
    /// The map name becomes `fallback`.
    pub fn generate_fallback(&mut self) -> (res: (ByteGrid, (usize, usize), (usize, usize)))
        ensures
            final(self).map_id == old(self).map_id,
            final(self).map_files@ == old(self).map_files@,
            final(self).current_map_name@ == "fallback"@,
            final(self).rooms@ == old(self).rooms@,
            final(self).cached_grid == old(self).cached_grid,
            res.0.rows() == 20,
            res.0.cols() == 20,
            forall|y: int, x: int| res.0.in_bounds(y, x) ==> #[trigger] res.0.at(y, x) == if 5 <= y < 15 && 5 <= x < 15 {
                FLOOR
            } else {
                WALL
            },
            res.1 == (10usize, 10usize),
            res.2 == (12usize, 12usize),
    {
        let mut grid = ByteGrid::filled(20, 20, WALL);
        for y in 5..15usize
            invariant
                grid.rows() == 20,
                grid.cols() == 20,
                forall|yy: int, xx: int| grid.in_bounds(yy, xx) ==> #[trigger] grid.at(yy, xx) == if 5 <= yy < y && 5 <= xx
                    < 15 {
                    FLOOR
                } else {
                    WALL
                },
        {
            for x in 5..15usize
                invariant
                    5 <= y < 15,
                    grid.rows() == 20,
                    grid.cols() == 20,
                    forall|yy: int, xx: int| grid.in_bounds(yy, xx) ==> #[trigger] grid.at(yy, xx) == if (5 <= yy < y && 5
                        <= xx < 15) || (yy == y && 5 <= xx < x) {
                        FLOOR
                    } else {
                        WALL
                    },
            {
                grid.set(y, x, FLOOR);
            }
        }
        self.current_map_name = "fallback".to_owned();
        (grid, (10, 10), (12, 12))
    }

    /// Makes the map from a loaded recorded grid named `name`: recorded floor
    /// (code 2) becomes floor and everything else wall, with the fallback room
    /// when there is no floor; a random open tile becomes the start and the
    /// open tile farthest from it the exit. Detects the rooms of the new map
    /// and keeps a copy of it for `generate_same_cached`.
    pub fn generate_from_raw(&mut self, name: String, raw: &ByteGrid) -> (res: (ByteGrid, (usize, usize), (usize, usize)))
        requires
            raw_has_floor(*raw) || (raw.rows() > 5 && raw.cols() > 5),
        ensures
            final(self).map_id == old(self).map_id,
            final(self).map_files@ == old(self).map_files@,
            final(self).current_map_name@ == name@,
            res.0.rows() == raw.rows(),
            res.0.cols() == raw.cols(),
            forall|y: int, x: int| res.0.in_bounds(y, x) ==> #[trigger] res.0.at(y, x) == if y == res.2.1 && x == res.2.0 {
                EXIT
            } else if raw_open(*raw, y, x) {
                FLOOR
            } else {
                WALL
            },
            start_and_exit_chosen(|y: int, x: int| raw_open(*raw, y, x), raw.rows() as int, raw.cols() as int, res.1, res.2),
            final(self).rooms@ == detected_rooms(res.0, raw.rows() as int, raw.cols() as int),
            final(self).cached_grid matches Some(c) && c.same_as(res.0),
    {
        self.current_map_name = name;
        let mut rng = thread_rng();
        let h = raw.nrows();
        let w = raw.ncols();
        let mut grid = convert_raw(raw);
        let ghost converted = grid;
        proof {
            assert(has_floor(converted) <==> raw_has_floor(*raw)) by {
                if has_floor(converted) {
                    let (y, x) = choose|y: int, x: int| converted.in_bounds(y, x) && #[trigger] converted.at(y, x) == FLOOR;
                    assert(raw.at(y, x) == RAW_FLOOR);
                }
                if raw_has_floor(*raw) {
                    let (y, x) = choose|y: int, x: int| raw.in_bounds(y, x) && #[trigger] raw.at(y, x) == RAW_FLOOR;
                    assert(converted.at(y, x) == FLOOR);
                }
            }
            assert forall|y: int, x: int| converted.in_bounds(y, x) implies open_tile(converted, y, x) == raw_open(*raw, y, x) by {}
        }
        let tiles = floors_with_fallback(&mut grid);
        let ghost before_exit = grid;
        proof {
            lemma_floors_before_row_sorted(converted, h as int);
            if raw_has_floor(*raw) {
                let (y, x) = choose|y: int, x: int| raw.in_bounds(y, x) && #[trigger] raw.at(y, x) == RAW_FLOOR;
                assert(tiles@.contains((x as usize, y as usize)));
            } else {
                assert(tiles@.contains((5usize, 5usize)));
            }
            assert forall|i: int| 0 <= i < tiles.len() implies grid.in_bounds((#[trigger] tiles[i]).1 as int, tiles[i].0 as int) by {
                assert(tiles@.contains(tiles@[i]));
            }
        }
        let (player, exit) = place_start_and_exit(&mut grid, &tiles, &mut rng);
        proof {
            let open = |y: int, x: int| raw_open(*raw, y, x);
            assert forall|c: (usize, usize)| #[trigger] tiles@.contains(c) <==> (0 <= c.1 < h && 0 <= c.0 < w && open(
                c.1 as int,
                c.0 as int,
            )) by {}
            lemma_chosen_from_list(open, h as int, w as int, tiles@, player, exit);
            assert(h >= 1 && w >= 1);
            lemma_sector_fits(h as int, w as int);
            assert forall|y: int, x: int| grid.in_bounds(y, x) implies #[trigger] grid.at(y, x) == if y == exit.1 && x
                == exit.0 {
                EXIT
            } else if raw_open(*raw, y, x) {
                FLOOR
            } else {
                WALL
            } by {
                assert(converted.in_bounds(y, x));
            }
        }
        self.rooms = detect_rooms(&grid, h, w);
        self.cached_grid = Some(grid.copy());
        (grid, player, exit)
    }

    /// Reuses the kept map with a new random start and exit: the floor tiles
    /// of the kept map are the candidates, its old exit becomes floor, and the
    /// new exit is the floor tile farthest from the new start. `None` when no
    /// map is kept or it has no floor tile, in which case a new map must be
    /// made instead. Counts a map either way.
    pub fn generate_same_cached(&mut self) -> (res: Option<(ByteGrid, (usize, usize), (usize, usize))>)
        requires
            old(self).map_id < u32::MAX,
        ensures
            final(self).map_id == old(self).map_id + 1,
            final(self).map_files@ == old(self).map_files@,
            final(self).current_map_name@ == old(self).current_map_name@,
            final(self).cached_grid == old(self).cached_grid,
            res is None <==> (old(self).cached_grid is None || !has_floor(old(self).cached_grid->0)),
            res is None ==> final(self).rooms@ == old(self).rooms@,
            res matches Some(r) ==> {
                let c = old(self).cached_grid->0;
                &&& reused_layout(c, r.0, r.2)
                &&& start_and_exit_chosen(|y: int, x: int| c.at(y, x) == FLOOR, c.rows() as int, c.cols() as int, r.1, r.2)
                &&& final(self).rooms@ == detected_rooms(r.0, c.rows() as int, c.cols() as int)
            },
    {
        self.map_id = self.map_id + 1;
        let mut rng = thread_rng();
        let mut grid = match &self.cached_grid {
            Some(cached) => cached.copy(),
            None => {
                return None;
            },
        };
        let ghost c = grid;
        let ghost orig = self.cached_grid->0;
        assert(c.same_as(orig));
        let h = grid.nrows();
        let w = grid.ncols();
        let tiles = floor_tiles(&grid);
        proof {
            lemma_floors_before_row_sorted(c, h as int);
            assert forall|p: (usize, usize)| #[trigger] tiles@.contains(p) <==> (c.in_bounds(p.1 as int, p.0 as int)
                && c.at(p.1 as int, p.0 as int) == FLOOR) by {
                lemma_floors_before_row(c, h as int, p);
            }
        }
        if tiles.len() == 0 {
            proof {
                if has_floor(orig) {
                    let (y, x) = choose|y: int, x: int| orig.in_bounds(y, x) && #[trigger] orig.at(y, x) == FLOOR;
                    assert(c.at(y, x) == FLOOR);
                    assert(tiles@.contains((x as usize, y as usize)));
                }
            }
            return None;
        }
        proof {
            assert(tiles@.contains(tiles@[0]));
            assert forall|i: int| 0 <= i < tiles.len() implies small_tile(#[trigger] tiles[i]) by {
                assert(tiles@.contains(tiles@[i]));
                lemma_in_bounds_small(c, tiles@[i]);
            }
        }
        let (player, exit) = choose_start_and_exit(&tiles, &mut rng);
        proof {
            let open = |y: int, x: int| c.at(y, x) == FLOOR;
            lemma_chosen_from_list(open, h as int, w as int, tiles@, player, exit);
            assert(tiles@.contains(exit));
            assert(h >= 1 && w >= 1);
            lemma_sector_fits(h as int, w as int);
        }
        clear_exits(&mut grid);
        grid.set(exit.1, exit.0, EXIT);
        self.rooms = detect_rooms(&grid, h, w);
        proof {
            assert(has_floor(orig)) by {
                let p = tiles@[0];
                assert(tiles@.contains(p));
                assert(orig.at(p.1 as int, p.0 as int) == FLOOR);
            }
            let open_c = |y: int, x: int| c.at(y, x) == FLOOR;
            let open_o = |y: int, x: int| orig.at(y, x) == FLOOR;
            assert(start_and_exit_chosen(open_o, h as int, w as int, player, exit)) by {
                assert forall|y: int, x: int| 0 <= y < h && 0 <= x < w && #[trigger] open_o(y, x) implies layout_dist(
                    x,
                    y,
                    player,
                ) <= layout_dist(exit.0 as int, exit.1 as int, player) && ((x == exit.0 && y == exit.1) || layout_dist(
                    x,
                    y,
                    player,
                ) < layout_dist(exit.0 as int, exit.1 as int, player) || rm_before((x as usize, y as usize), exit)) by {
                    assert(open_c(y, x));
                }
                assert(open_c(player.1 as int, player.0 as int));
                assert(open_c(exit.1 as int, exit.0 as int));
            }
            assert forall|y: int, x: int| grid.in_bounds(y, x) implies #[trigger] grid.at(y, x) == if y == exit.1 && x
                == exit.0 {
                EXIT
            } else if orig.at(y, x) == EXIT {
                FLOOR
            } else {
                orig.at(y, x)
            } by {
                assert(c.at(y, x) == orig.at(y, x));
            }
        }
        Some((grid, player, exit))
    }
}

/// A map generator: synthetic dungeons or recorded level grids.
pub enum MapGenerator {
    Synthetic(DungeonGenerator),
    Real(RealMapGenerator),
}

impl MapGenerator {
    /// The name of the current map of the generator in use.
    pub fn current_map_name(&self) -> (name: &str)
        ensures
            name@ == match self {
                MapGenerator::Synthetic(g) => g.current_map_name@,
                MapGenerator::Real(g) => g.current_map_name@,
            },
    {
        match self {
            MapGenerator::Synthetic(g) => g.current_map_name.as_str(),
            MapGenerator::Real(g) => g.current_map_name.as_str(),
        }
    }

    /// Prepares the generator for what an episode's end changed: when a new
    /// map is due (`NewMap`, `CombatPhase`) a recorded-map generator forgets
    /// its kept map, so that the next reset loads a fresh one, and a synthetic
    /// generator is replaced by a fresh 40 by 40 one with 8 room proposals.
    /// Otherwise nothing changes.
    pub fn apply_progress(&mut self, change: ProgressChange)
        ensures
            (change is NoVictory || change is Cleared) ==> *final(self) == *old(self),
            (change is NewMap || change is CombatPhase) ==> match *old(self) {
                MapGenerator::Real(r) => *final(self) matches MapGenerator::Real(n) && {
                    &&& n.map_files@ == r.map_files@
                    &&& n.map_id == r.map_id
                    &&& n.current_map_name@ == r.current_map_name@
                    &&& n.rooms@ == r.rooms@
                    &&& n.cached_grid is None
                },
                MapGenerator::Synthetic(_) => *final(self) matches MapGenerator::Synthetic(n) && {
                    &&& n.w == 40
                    &&& n.h == 40
                    &&& n.room_attempts == 8
                    &&& n.current_map_name@ == "synthetic"@
                },
            },
    {
        match change {
            ProgressChange::NoVictory | ProgressChange::Cleared => {},
            ProgressChange::NewMap | ProgressChange::CombatPhase => {
                match self {
                    MapGenerator::Real(r) => {
                        r.cached_grid = None;
                    },
                    MapGenerator::Synthetic(g) => {
                        *g = DungeonGenerator::new(40, 40, 8);
                    },
                }
            },
        }
    }
}

} // verus!
