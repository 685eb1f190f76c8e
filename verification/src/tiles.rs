//! Floor tiles of a map: listing them in row-major order, the fallback room,
//! and the tile farthest from a given one.
use vstd::prelude::*;
use crate::entities::{FLOOR, EXIT};
use crate::grid::{ByteGrid, shape_fits};
use crate::random::gen_range_usize;
use rand::rngs::ThreadRng;

verus! {

/// The floor tiles `(column, row)` of row `y` among its first `k` columns,
/// from left to right.
pub open spec fn floors_in_row(g: ByteGrid, y: int, k: int) -> Seq<(usize, usize)>
    decreases k,
{
    if k <= 0 {
        seq![]
    } else {
        let prev = floors_in_row(g, y, k - 1);
        if g.at(y, k - 1) == FLOOR {
            prev.push(((k - 1) as usize, y as usize))
        } else {
            prev
        }
    }
}

/// The floor tiles `(column, row)` of the first `r` rows, in row-major order.
pub open spec fn floors_before_row(g: ByteGrid, r: int) -> Seq<(usize, usize)>
    decreases r,
{
    if r <= 0 {
        seq![]
    } else {
        floors_before_row(g, r - 1) + floors_in_row(g, r - 1, g.cols() as int)
    }
}

/// All floor tiles `(column, row)` of the grid, in row-major order.
pub open spec fn floor_list(g: ByteGrid) -> Seq<(usize, usize)> {
    floors_before_row(g, g.rows() as int)
}

/// A tile is listed in `floors_in_row` exactly when it is a floor tile of
/// that row among the first `k` columns.
pub proof fn lemma_floors_in_row(g: ByteGrid, y: int, k: int, c: (usize, usize))
    requires
        0 <= y <= usize::MAX,
        0 <= k <= usize::MAX,
    ensures
        floors_in_row(g, y, k).contains(c) <==> (c.1 == y && c.0 < k && g.at(y, c.0 as int) == FLOOR),
    decreases k,
{
    if k > 0 {
        lemma_floors_in_row(g, y, k - 1, c);
        let prev = floors_in_row(g, y, k - 1);
        if g.at(y, k - 1) == FLOOR {
            let e = ((k - 1) as usize, y as usize);
            assert(prev.push(e).last() == e);
            if prev.push(e).contains(c) && c != e {
                let i = choose|i: int| 0 <= i < prev.push(e).len() && prev.push(e)[i] == c;
                assert(prev[i] == c);
            }
            if prev.contains(c) {
                let i = choose|i: int| 0 <= i < prev.len() && prev[i] == c;
                assert(prev.push(e)[i] == c);
            }
        }
    }
}

/// A tile is listed in `floors_before_row` exactly when it is a floor tile
/// in one of the first `r` rows.
pub proof fn lemma_floors_before_row(g: ByteGrid, r: int, c: (usize, usize))
    requires
        0 <= r <= usize::MAX,
        g.cols() <= usize::MAX,
    ensures
        floors_before_row(g, r).contains(c) <==> (c.1 < r && c.0 < g.cols() && g.at(c.1 as int, c.0 as int) == FLOOR),
    decreases r,
{
    if r > 0 {
        lemma_floors_before_row(g, r - 1, c);
        lemma_floors_in_row(g, r - 1, g.cols() as int, c);
        let a = floors_before_row(g, r - 1);
        let b = floors_in_row(g, r - 1, g.cols() as int);
        if (a + b).contains(c) {
            let i = choose|i: int| 0 <= i < (a + b).len() && (a + b)[i] == c;
            if i < a.len() {
                assert(a[i] == c);
            } else {
                assert(b[i - a.len()] == c);
            }
        }
        if a.contains(c) {
            let i = choose|i: int| 0 <= i < a.len() && a[i] == c;
            assert((a + b)[i] == c);
        }
        if b.contains(c) {
            let i = choose|i: int| 0 <= i < b.len() && b[i] == c;
            assert((a + b)[a.len() + i] == c);
        }
    }
}

/// The floor tiles of the grid, as `(column, row)`, in row-major order.
pub fn floor_tiles(g: &ByteGrid) -> (tiles: Vec<(usize, usize)>)
    ensures
        tiles@ == floor_list(*g),
{
    let h = g.nrows();
    let w = g.ncols();
    let mut tiles: Vec<(usize, usize)> = Vec::new();
    for y in 0..h
        invariant
            h == g.rows(),
            w == g.cols(),
            tiles@ == floors_before_row(*g, y as int),
    {
        for x in 0..w
            invariant
                y < h,
                h == g.rows(),
                w == g.cols(),
                tiles@ == floors_before_row(*g, y as int) + floors_in_row(*g, y as int, x as int),
        {
            if g.get(y, x) == FLOOR {
                tiles.push((x, y));
                assert(tiles@ =~= floors_before_row(*g, y as int) + floors_in_row(*g, y as int, x + 1));
            } else {
                assert(floors_in_row(*g, y as int, x + 1) == floors_in_row(*g, y as int, x as int));
            }
        }
        assert(floors_before_row(*g, y + 1) == floors_before_row(*g, y as int) + floors_in_row(*g, y as int, w as int));
    }
    tiles
}

/// The squared Euclidean distance between tiles `(x1, y1)` and `(x2, y2)`.
pub open spec fn sq_dist(x1: int, y1: int, x2: int, y2: int) -> int {
    (x1 - x2) * (x1 - x2) + (y1 - y2) * (y1 - y2)
}

/// The squared distance between two tiles given as `(column, row)`.
pub open spec fn tile_sq_dist(a: (usize, usize), b: (usize, usize)) -> int {
    sq_dist(a.0 as int, a.1 as int, b.0 as int, b.1 as int)
}

/// Both coordinates of the tile fit in `isize`.
pub open spec fn small_tile(a: (usize, usize)) -> bool {
    a.0 <= isize::MAX && a.1 <= isize::MAX
}

/// The squared distance, computed without overflow.
pub(crate) fn tile_dist_key(a: (usize, usize), b: (usize, usize)) -> (k: u128)
    requires
        small_tile(a),
        small_tile(b),
    ensures
        k == tile_sq_dist(a, b),
{
    let dx: u128 = if a.0 >= b.0 { (a.0 - b.0) as u128 } else { (b.0 - a.0) as u128 };
    let dy: u128 = if a.1 >= b.1 { (a.1 - b.1) as u128 } else { (b.1 - a.1) as u128 };
    assert(dx * dx <= 0x7fff_ffff_ffff_ffffu128 * 0x7fff_ffff_ffff_ffffu128) by (nonlinear_arith)
        requires
            dx <= 0x7fff_ffff_ffff_ffffu128,
    ;
    assert(dy * dy <= 0x7fff_ffff_ffff_ffffu128 * 0x7fff_ffff_ffff_ffffu128) by (nonlinear_arith)
        requires
            dy <= 0x7fff_ffff_ffff_ffffu128,
    ;
    let ghost ddx: int = a.0 as int - b.0 as int;
    let ghost ddy: int = a.1 as int - b.1 as int;
    assert(ddx * ddx == dx * dx) by (nonlinear_arith)
        requires
            dx == ddx || dx == -ddx,
    ;
    assert(ddy * ddy == dy * dy) by (nonlinear_arith)
        requires
            dy == ddy || dy == -ddy,
    ;
    dx * dx + dy * dy
}

/// The tile of the list farthest from `from`; among equally far tiles, the
/// last one in the list.
pub fn farthest_tile(tiles: &Vec<(usize, usize)>, from: (usize, usize)) -> (r: (usize, usize))
    requires
        tiles.len() > 0,
        small_tile(from),
        forall|i: int| 0 <= i < tiles.len() ==> small_tile(#[trigger] tiles[i]),
    ensures
        exists|i: int|
            {
                &&& 0 <= i < tiles.len()
                &&& r == tiles[i]
                &&& forall|j: int| 0 <= j < tiles.len() ==> tile_sq_dist(#[trigger] tiles[j], from) <= tile_sq_dist(tiles[i], from)
                &&& forall|j: int| i < j < tiles.len() ==> tile_sq_dist(#[trigger] tiles[j], from) < tile_sq_dist(tiles[i], from)
            },
{
    let mut best: usize = 0;
    let mut best_key = tile_dist_key(tiles[0], from);
    for i in 1..tiles.len()
        invariant
            0 <= best < i <= tiles.len(),
            small_tile(from),
            forall|k: int| 0 <= k < tiles.len() ==> small_tile(#[trigger] tiles[k]),
            best_key == tile_sq_dist(tiles[best as int], from),
            forall|j: int| 0 <= j < i ==> tile_sq_dist(#[trigger] tiles[j], from) <= best_key,
            forall|j: int| best < j < i ==> tile_sq_dist(#[trigger] tiles[j], from) < best_key,
    {
        let k = tile_dist_key(tiles[i], from);
        if k >= best_key {
            best = i;
            best_key = k;
        }
    }
    tiles[best]
}

/// A tile at squared distance 0 from another is that tile.
pub proof fn lemma_zero_distance(a: (usize, usize), b: (usize, usize))
    requires
        tile_sq_dist(a, b) == 0,
    ensures
        a == b,
{
    let dx = a.0 as int - b.0 as int;
    let dy = a.1 as int - b.1 as int;
    assert(dx * dx >= 0 && dy * dy >= 0) by (nonlinear_arith);
    assert(dx * dx == 0 ==> dx == 0) by (nonlinear_arith);
    assert(dy * dy == 0 ==> dy == 0) by (nonlinear_arith);
}

/// The tile lies in the fallback room used when a map has no floor at all:
/// rows and columns 5 to 14, cut to the map.
pub open spec fn in_fallback_room(rows: int, cols: int, y: int, x: int) -> bool {
    5 <= y < rows && y < 15 && 5 <= x < cols && x < 15
}

pub proof fn lemma_push_contains(s: Seq<(usize, usize)>, e: (usize, usize), c: (usize, usize))
    ensures
        s.push(e).contains(c) <==> (s.contains(c) || c == e),
{
    if s.push(e).contains(c) && c != e {
        let i = choose|i: int| 0 <= i < s.push(e).len() && s.push(e)[i] == c;
        assert(s[i] == c);
    }
    if s.contains(c) {
        let i = choose|i: int| 0 <= i < s.len() && s[i] == c;
        assert(s.push(e)[i] == c);
    }
    assert(s.push(e)[s.len() as int] == e);
}

/// Turns the fallback room into floor and appends its tiles, row by row.
pub(crate) fn add_fallback_room(g: &mut ByteGrid, tiles: &mut Vec<(usize, usize)>)
    requires
        old(g).rows() <= usize::MAX,
        old(g).cols() <= usize::MAX,
    ensures
        final(g).rows() == old(g).rows(),
        final(g).cols() == old(g).cols(),
        forall|y: int, x: int| #[trigger] final(g).at(y, x) == if in_fallback_room(
            old(g).rows() as int,
            old(g).cols() as int,
            y,
            x,
        ) {
            FLOOR
        } else {
            old(g).at(y, x)
        },
        forall|c: (usize, usize)| #[trigger] final(tiles)@.contains(c) <==> (old(tiles)@.contains(c) || in_fallback_room(
            old(g).rows() as int,
            old(g).cols() as int,
            c.1 as int,
            c.0 as int,
        )),
        old(tiles)@.len() == 0 ==> sorted_row_major(final(tiles)@),
{
    let ghost g0 = *g;
    let ghost t0 = tiles@;
    let h = g.nrows();
    let w = g.ncols();
    let ey: usize = if h < 15 { h } else { 15 };
    let ex: usize = if w < 15 { w } else { 15 };
    let mut y: usize = 5;
    while y < ey
        invariant
            5 <= y,
            ey == (if h < 15 { h } else { 15 }),
            ex == (if w < 15 { w } else { 15 }),
            h == g.rows() == g0.rows(),
            w == g.cols() == g0.cols(),
            forall|yy: int, xx: int| #[trigger] g.at(yy, xx) == if in_fallback_room(h as int, w as int, yy, xx) && yy < y {
                FLOOR
            } else {
                g0.at(yy, xx)
            },
            forall|c: (usize, usize)| #[trigger] tiles@.contains(c) <==> (t0.contains(c) || (in_fallback_room(
                h as int,
                w as int,
                c.1 as int,
                c.0 as int,
            ) && c.1 < y)),
            t0.len() == 0 ==> sorted_row_major(tiles@),
            t0.len() == 0 ==> forall|i: int| 0 <= i < tiles@.len() ==> (#[trigger] tiles@[i]).1 < y,
        decreases ey - y,
    {
        let mut x: usize = 5;
        while x < ex
            invariant
                5 <= y < ey,
                5 <= x,
                ey == (if h < 15 { h } else { 15 }),
                ex == (if w < 15 { w } else { 15 }),
                h == g.rows() == g0.rows(),
                w == g.cols() == g0.cols(),
                forall|yy: int, xx: int| #[trigger] g.at(yy, xx) == if in_fallback_room(h as int, w as int, yy, xx) && (yy
                    < y || (yy == y && xx < x)) {
                    FLOOR
                } else {
                    g0.at(yy, xx)
                },
                forall|c: (usize, usize)| #[trigger] tiles@.contains(c) <==> (t0.contains(c) || (in_fallback_room(
                    h as int,
                    w as int,
                    c.1 as int,
                    c.0 as int,
                ) && (c.1 < y || (c.1 == y && c.0 < x)))),
                t0.len() == 0 ==> sorted_row_major(tiles@),
                t0.len() == 0 ==> forall|i: int| 0 <= i < tiles@.len() ==> rm_before(#[trigger] tiles@[i], (x, y)),
            decreases ex - x,
        {
            g.set(y, x, FLOOR);
            let ghost before = tiles@;
            tiles.push((x, y));
            assert forall|c: (usize, usize)| #[trigger] tiles@.contains(c) <==> (t0.contains(c) || (in_fallback_room(
                h as int,
                w as int,
                c.1 as int,
                c.0 as int,
            ) && (c.1 < y || (c.1 == y && c.0 < x + 1)))) by {
                lemma_push_contains(before, (x, y), c);
            }
            proof {
            if t0.len() == 0 {
                assert forall|i: int, j: int| 0 <= i < j < tiles@.len() implies rm_before(
                    #[trigger] tiles@[i],
                    #[trigger] tiles@[j],
                ) by {
                    if j == before.len() {
                        assert(tiles@[i] == before[i]);
                    } else {
                        assert(tiles@[i] == before[i]);
                        assert(tiles@[j] == before[j]);
                    }
                }
                assert forall|i: int| 0 <= i < tiles@.len() implies rm_before(#[trigger] tiles@[i], ((x + 1) as usize, y)) by {
                    if i < before.len() {
                        assert(tiles@[i] == before[i]);
                    }
                }
            }
            }
            x = x + 1;
        }
        assert forall|yy: int, xx: int| #[trigger] g.at(yy, xx) == if in_fallback_room(h as int, w as int, yy, xx) && yy
            < y + 1 {
            FLOOR
        } else {
            g0.at(yy, xx)
        } by {
            if in_fallback_room(h as int, w as int, yy, xx) && yy == y {
                assert(xx < x);
            }
        }
        assert forall|c: (usize, usize)| #[trigger] tiles@.contains(c) <==> (t0.contains(c) || (in_fallback_room(
            h as int,
            w as int,
            c.1 as int,
            c.0 as int,
        ) && c.1 < y + 1)) by {
            if in_fallback_room(h as int, w as int, c.1 as int, c.0 as int) && c.1 == y {
                assert(c.0 < x);
            }
        }
        y = y + 1;
    }
}


/// Tile `a` comes before tile `b` in row-major order (tiles as `(column, row)`).
pub open spec fn rm_before(a: (usize, usize), b: (usize, usize)) -> bool {
    a.1 < b.1 || (a.1 == b.1 && a.0 < b.0)
}

/// The tiles are listed in strictly increasing row-major order.
pub open spec fn sorted_row_major(s: Seq<(usize, usize)>) -> bool {
    forall|i: int, j: int| 0 <= i < j < s.len() ==> rm_before(#[trigger] s[i], #[trigger] s[j])
}

/// The floor tiles of a row are listed left to right.
pub proof fn lemma_floors_in_row_sorted(g: ByteGrid, y: int, k: int)
    requires
        0 <= y <= usize::MAX,
        0 <= k <= usize::MAX,
    ensures
        sorted_row_major(floors_in_row(g, y, k)),
    decreases k,
{
    if k > 0 {
        lemma_floors_in_row_sorted(g, y, k - 1);
        let prev = floors_in_row(g, y, k - 1);
        if g.at(y, k - 1) == FLOOR {
            let e = ((k - 1) as usize, y as usize);
            assert forall|i: int| 0 <= i < prev.len() implies rm_before(#[trigger] prev[i], e) by {
                assert(prev.contains(prev[i]));
                lemma_floors_in_row(g, y, k - 1, prev[i]);
            }
            assert forall|i: int, j: int| 0 <= i < j < prev.push(e).len() implies rm_before(
                #[trigger] prev.push(e)[i],
                #[trigger] prev.push(e)[j],
            ) by {
                if j == prev.len() {
                    assert(prev.push(e)[j] == e);
                    assert(prev.push(e)[i] == prev[i]);
                } else {
                    assert(prev.push(e)[i] == prev[i]);
                    assert(prev.push(e)[j] == prev[j]);
                }
            }
        }
    }
}

/// The floor tiles of the first `r` rows are listed in row-major order.
pub proof fn lemma_floors_before_row_sorted(g: ByteGrid, r: int)
    requires
        0 <= r <= usize::MAX,
        g.cols() <= usize::MAX,
    ensures
        sorted_row_major(floors_before_row(g, r)),
    decreases r,
{
    if r > 0 {
        lemma_floors_before_row_sorted(g, r - 1);
        lemma_floors_in_row_sorted(g, r - 1, g.cols() as int);
        let a = floors_before_row(g, r - 1);
        let b = floors_in_row(g, r - 1, g.cols() as int);
        assert forall|i: int, j: int| 0 <= i < j < (a + b).len() implies rm_before(
            #[trigger] (a + b)[i],
            #[trigger] (a + b)[j],
        ) by {
            if j < a.len() {
                assert((a + b)[i] == a[i]);
                assert((a + b)[j] == a[j]);
            } else if i >= a.len() {
                assert((a + b)[i] == b[i - a.len()]);
                assert((a + b)[j] == b[j - a.len()]);
            } else {
                assert((a + b)[i] == a[i]);
                assert((a + b)[j] == b[j - a.len()]);
                assert(a.contains(a[i]));
                lemma_floors_before_row(g, r - 1, a[i]);
                assert(b.contains(b[j - a.len()]));
                lemma_floors_in_row(g, r - 1, g.cols() as int, b[j - a.len()]);
            }
        }
    }
}

/// The tile chosen by `farthest_tile` from a row-major list: every listed
/// tile as far from `from` comes before it in row-major order.
pub proof fn lemma_farthest_is_last(tiles: Seq<(usize, usize)>, from: (usize, usize), r: (usize, usize))
    requires
        sorted_row_major(tiles),
        exists|i: int|
            {
                &&& 0 <= i < tiles.len()
                &&& r == tiles[i]
                &&& forall|j: int| 0 <= j < tiles.len() ==> tile_sq_dist(#[trigger] tiles[j], from) <= tile_sq_dist(tiles[i], from)
                &&& forall|j: int| i < j < tiles.len() ==> tile_sq_dist(#[trigger] tiles[j], from) < tile_sq_dist(tiles[i], from)
            },
    ensures
        tiles.contains(r),
        forall|c: (usize, usize)| #[trigger] tiles.contains(c) ==> tile_sq_dist(c, from) <= tile_sq_dist(r, from),
        forall|c: (usize, usize)|
            #[trigger] tiles.contains(c) && tile_sq_dist(c, from) == tile_sq_dist(r, from) ==> c == r || rm_before(c, r),
{
    let i = choose|i: int|
        {
            &&& 0 <= i < tiles.len()
            &&& r == tiles[i]
            &&& forall|j: int| 0 <= j < tiles.len() ==> tile_sq_dist(#[trigger] tiles[j], from) <= tile_sq_dist(tiles[i], from)
            &&& forall|j: int| i < j < tiles.len() ==> tile_sq_dist(#[trigger] tiles[j], from) < tile_sq_dist(tiles[i], from)
        };
    assert(tiles[i] == r);
    assert forall|c: (usize, usize)| #[trigger] tiles.contains(c) implies tile_sq_dist(c, from) <= tile_sq_dist(r, from) && (
    tile_sq_dist(c, from) == tile_sq_dist(r, from) ==> c == r || rm_before(c, r)) by {
        let j = choose|j: int| 0 <= j < tiles.len() && tiles[j] == c;
        assert(tile_sq_dist(tiles[j], from) <= tile_sq_dist(tiles[i], from));
        if j < i {
            assert(rm_before(tiles[j], tiles[i]));
        }
    }
}

/// The grid has a floor tile.
pub open spec fn has_floor(g: ByteGrid) -> bool {
    exists|y: int, x: int| g.in_bounds(y, x) && #[trigger] g.at(y, x) == FLOOR
}

/// The tile is open ground once the fallback room is added to a grid without
/// floor: a floor tile of the grid, or, when it has none, a tile of the
/// fallback room.
pub open spec fn open_tile(g: ByteGrid, y: int, x: int) -> bool {
    g.at(y, x) == FLOOR || (!has_floor(g) && in_fallback_room(g.rows() as int, g.cols() as int, y, x))
}

/// The floor tiles of the grid in row-major order; when it has none, the
/// fallback room is first turned into floor and its tiles are listed.
pub(crate) fn floors_with_fallback(g: &mut ByteGrid) -> (tiles: Vec<(usize, usize)>)
    ensures
        final(g).rows() == old(g).rows(),
        final(g).cols() == old(g).cols(),
        forall|y: int, x: int| #[trigger] final(g).at(y, x) == if open_tile(*old(g), y, x) {
            FLOOR
        } else {
            old(g).at(y, x)
        },
        forall|c: (usize, usize)| #[trigger] tiles@.contains(c) <==> (old(g).in_bounds(c.1 as int, c.0 as int)
            && open_tile(*old(g), c.1 as int, c.0 as int)),
        sorted_row_major(tiles@),
{
    let ghost g0 = *g;
    let h = g.nrows();
    let w = g.ncols();
    let mut tiles = floor_tiles(g);
    proof {
        lemma_floors_before_row_sorted(g0, h as int);
        assert forall|c: (usize, usize)| #[trigger] tiles@.contains(c) <==> (g0.in_bounds(c.1 as int, c.0 as int)
            && g0.at(c.1 as int, c.0 as int) == FLOOR) by {
            lemma_floors_before_row(g0, h as int, c);
        }
    }
    if tiles.len() == 0 {
        proof {
            assert(!has_floor(g0)) by {
                if has_floor(g0) {
                    let (y, x) = choose|y: int, x: int| g0.in_bounds(y, x) && #[trigger] g0.at(y, x) == FLOOR;
                    assert(tiles@.contains((x as usize, y as usize)));
                }
            }
        }
        add_fallback_room(g, &mut tiles);
        proof {
            assert forall|c: (usize, usize)| #[trigger] tiles@.contains(c) <==> (g0.in_bounds(c.1 as int, c.0 as int)
                && open_tile(g0, c.1 as int, c.0 as int)) by {}
        }
    } else {
        proof {
            assert(has_floor(g0)) by {
                let c = tiles@[0];
                assert(tiles@.contains(c));
                assert(g0.at(c.1 as int, c.0 as int) == FLOOR);
            }
        }
    }
    tiles
}

/// A start tile drawn at random from the list and the exit on the listed tile
/// farthest from it (the last one in the list among equally far tiles).
/// Returns `(start, exit)`.
pub(crate) fn choose_start_and_exit(tiles: &Vec<(usize, usize)>, rng: &mut ThreadRng) -> (res: (
    (usize, usize),
    (usize, usize),
))
    requires
        tiles.len() > 0,
        forall|i: int| 0 <= i < tiles.len() ==> small_tile(#[trigger] tiles[i]),
    ensures
        tiles@.contains(res.0),
        exists|i: int|
            {
                &&& 0 <= i < tiles.len()
                &&& res.1 == tiles[i]
                &&& forall|j: int| 0 <= j < tiles.len() ==> tile_sq_dist(#[trigger] tiles[j], res.0) <= tile_sq_dist(tiles[i], res.0)
                &&& forall|j: int| i < j < tiles.len() ==> tile_sq_dist(#[trigger] tiles[j], res.0) < tile_sq_dist(tiles[i], res.0)
            },
{
    let idx = gen_range_usize(rng, 0, tiles.len());
    let player = tiles[idx];
    assert(tiles@.contains(player));
    let exit = farthest_tile(tiles, player);
    (player, exit)
}

/// Tiles inside a grid whose shape fits have coordinates that fit in `isize`.
pub proof fn lemma_in_bounds_small(g: ByteGrid, c: (usize, usize))
    requires
        shape_fits(g.rows() as int, g.cols() as int),
        g.in_bounds(c.1 as int, c.0 as int),
    ensures
        small_tile(c),
{
    assert(g.rows() <= isize::MAX && g.cols() <= isize::MAX) by (nonlinear_arith)
        requires
            shape_fits(g.rows() as int, g.cols() as int),
            g.rows() >= 1,
            g.cols() >= 1,
    ;
}

/// A start tile drawn at random from the list and the exit on the listed tile
/// farthest from it (the last one in the list among equally far tiles); the
/// exit code is written to the grid. Returns `(start, exit)`.
pub(crate) fn place_start_and_exit(g: &mut ByteGrid, tiles: &Vec<(usize, usize)>, rng: &mut ThreadRng) -> (res: (
    (usize, usize),
    (usize, usize),
))
    requires
        tiles.len() > 0,
        forall|i: int| 0 <= i < tiles.len() ==> old(g).in_bounds((#[trigger] tiles[i]).1 as int, tiles[i].0 as int),
        shape_fits(old(g).rows() as int, old(g).cols() as int),
    ensures
        final(g).rows() == old(g).rows(),
        final(g).cols() == old(g).cols(),
        forall|y: int, x: int| #[trigger] final(g).at(y, x) == if y == res.1.1 && x == res.1.0 {
            EXIT
        } else {
            old(g).at(y, x)
        },
        tiles@.contains(res.0),
        exists|i: int|
            {
                &&& 0 <= i < tiles.len()
                &&& res.1 == tiles[i]
                &&& forall|j: int| 0 <= j < tiles.len() ==> tile_sq_dist(#[trigger] tiles[j], res.0) <= tile_sq_dist(tiles[i], res.0)
                &&& forall|j: int| i < j < tiles.len() ==> tile_sq_dist(#[trigger] tiles[j], res.0) < tile_sq_dist(tiles[i], res.0)
            },
{
    let ghost g0 = *g;
    proof {
        assert forall|i: int| 0 <= i < tiles.len() implies small_tile(#[trigger] tiles[i]) by {
            lemma_in_bounds_small(g0, tiles[i]);
        }
    }
    let (player, exit) = choose_start_and_exit(tiles, rng);
    proof {
        let i = choose|i: int|
            {
                &&& 0 <= i < tiles.len()
                &&& exit == tiles[i]
                &&& forall|j: int| 0 <= j < tiles.len() ==> tile_sq_dist(#[trigger] tiles[j], player) <= tile_sq_dist(tiles[i], player)
                &&& forall|j: int| i < j < tiles.len() ==> tile_sq_dist(#[trigger] tiles[j], player) < tile_sq_dist(tiles[i], player)
            };
        assert(g0.in_bounds(tiles[i].1 as int, tiles[i].0 as int));
    }
    g.set(exit.1, exit.0, EXIT);
    (player, exit)
}
} // verus!
