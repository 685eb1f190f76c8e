//! Placing enemies and pickups on a fresh map.
use vstd::prelude::*;
use crate::entities::{FLOOR, ItemKind};
use crate::grid::ByteGrid;
use crate::random::{thread_rng, gen_range_usize};
use crate::tiles::{small_tile, tile_sq_dist, tile_dist_key};

verus! {

/// How many random tiles are tried for one spawn before giving up.
pub const SPAWN_TRIES: usize = 1000;

/// Tile `(x, y)` suits a spawn: it is floor and lies farther than
/// `min_dist` from `start`.
pub open spec fn spawn_ok(grid: ByteGrid, start: (usize, usize), min_dist: u32, x: int, y: int) -> bool {
    &&& grid.at(y, x) == FLOOR
    &&& tile_sq_dist((x as usize, y as usize), start) > min_dist * min_dist
}

/// Every tile that can be drawn (`1 <= x < w - 1`, `1 <= y < h - 1`) suits a
/// spawn.
pub open spec fn every_draw_ok(grid: ByteGrid, w: int, h: int, start: (usize, usize), min_dist: u32) -> bool {
    forall|x: int, y: int| 1 <= x < w - 1 && 1 <= y < h - 1 ==> #[trigger] spawn_ok(grid, start, min_dist, x, y)
}

/// The first of the drawn tiles `draws` that suits a spawn, or `None` when
/// none does.
pub open spec fn first_spawn(grid: ByteGrid, draws: Seq<(usize, usize)>, start: (usize, usize), min_dist: u32) -> Option<
    (usize, usize),
>
    decreases draws.len(),
{
    if draws.len() == 0 {
        None
    } else if spawn_ok(grid, start, min_dist, draws[0].0 as int, draws[0].1 as int) {
        Some(draws[0])
    } else {
        first_spawn(grid, draws.drop_first(), start, min_dist)
    }
}

/// The tiles `(x, y)` lie where spawns are drawn: `1 <= x < w - 1` and
/// `1 <= y < h - 1`.
pub open spec fn draws_in_range(draws: Seq<(usize, usize)>, w: int, h: int) -> bool {
    forall|i: int| 0 <= i < draws.len() ==> 1 <= (#[trigger] draws[i]).0 < w - 1 && 1 <= draws[i].1 < h - 1
}

/// Draws that all fail to suit can be skipped.
proof fn lemma_first_spawn_skip(
    grid: ByteGrid,
    failed: Seq<(usize, usize)>,
    rest: Seq<(usize, usize)>,
    start: (usize, usize),
    min_dist: u32,
)
    requires
        forall|i: int| 0 <= i < failed.len() ==> !spawn_ok(grid, start, min_dist, (#[trigger] failed[i]).0 as int, failed[i].1 as int),
    ensures
        first_spawn(grid, failed + rest, start, min_dist) == first_spawn(grid, rest, start, min_dist),
    decreases failed.len(),
{
    if failed.len() > 0 {
        assert((failed + rest)[0] == failed[0]);
        assert((failed + rest).drop_first() =~= failed.drop_first() + rest);
        assert forall|i: int| 0 <= i < failed.drop_first().len() implies !spawn_ok(
            grid,
            start,
            min_dist,
            (#[trigger] failed.drop_first()[i]).0 as int,
            failed.drop_first()[i].1 as int,
        ) by {
            assert(failed.drop_first()[i] == failed[i + 1]);
        }
        lemma_first_spawn_skip(grid, failed.drop_first(), rest, start, min_dist);
    } else {
        assert(failed + rest =~= rest);
    }
}

/// The first of the given drawn tiles that suits a spawn (see `spawn_ok`),
/// or `None` when none does.
pub fn first_spawn_tile(grid: &ByteGrid, draws: &Vec<(usize, usize)>, start: (usize, usize), min_dist: u32) -> (r: Option<
    (usize, usize),
>)
    requires
        forall|i: int| 0 <= i < draws.len() ==> grid.in_bounds((#[trigger] draws@[i]).1 as int, draws@[i].0 as int),
        small_tile(start),
    ensures
        r == first_spawn(*grid, draws@, start, min_dist),
{
    proof {
        assert((min_dist as int) * (min_dist as int) <= 0xffff_ffff_ffff_ffff) by (nonlinear_arith)
            requires
                min_dist <= 0xffff_ffff,
        ;
    }
    let limit: u128 = (min_dist as u128) * (min_dist as u128);
    let rows = grid.nrows();
    let mut i: usize = 0;
    while i < draws.len()
        invariant
            i <= draws.len(),
            rows == grid.rows(),
            crate::grid::shape_fits(grid.rows() as int, grid.cols() as int),
            forall|k: int| 0 <= k < draws.len() ==> grid.in_bounds((#[trigger] draws@[k]).1 as int, draws@[k].0 as int),
            small_tile(start),
            limit == min_dist * min_dist,
            forall|k: int| 0 <= k < i ==> !spawn_ok(*grid, start, min_dist, (#[trigger] draws@[k]).0 as int, draws@[k].1 as int),
        decreases draws.len() - i,
    {
        let (x, y) = draws[i];
        if grid.get(y, x) == FLOOR {
            proof {
                crate::tiles::lemma_in_bounds_small(*grid, (x, y));
            }
            let d = tile_dist_key((x, y), start);
            if d > limit {
                proof {
                    let failed = draws@.subrange(0, i as int);
                    let rest = draws@.subrange(i as int, draws@.len() as int);
                    assert(draws@ =~= failed + rest);
                    lemma_first_spawn_skip(*grid, failed, rest, start, min_dist);
                    assert(rest[0] == draws@[i as int]);
                }
                return Some((x, y));
            }
        }
        i = i + 1;
    }
    proof {
        lemma_first_spawn_skip(*grid, draws@, seq![], start, min_dist);
        assert(draws@ + seq![] =~= draws@);
    }
    None
}

/// Draws up to 1000 random tiles `(x, y)` with `1 <= x < w - 1` and
/// `1 <= y < h - 1` and returns the first that suits a spawn (see
/// `spawn_ok`); `None` when no draw does. The result is what `first_spawn`
/// gives for some 1000 tiles drawn in that range (the draws after a suitable
/// one are never made and do not matter); which tiles are drawn is chance,
/// so a tile is owed only when every tile that can be drawn suits.
pub fn find_spawn_tile(grid: &ByteGrid, w: usize, h: usize, start: (usize, usize), min_dist: u32) -> (r: Option<(usize, usize)>)
    requires
        3 <= w <= grid.cols(),
        3 <= h <= grid.rows(),
        small_tile(start),
    ensures
        exists|draws: Seq<(usize, usize)>|
            {
                &&& draws.len() == SPAWN_TRIES
                &&& draws_in_range(draws, w as int, h as int)
                &&& r == #[trigger] first_spawn(*grid, draws, start, min_dist)
            },
        r matches Some(t) ==> {
            &&& 1 <= t.0 < w - 1
            &&& 1 <= t.1 < h - 1
            &&& spawn_ok(*grid, start, min_dist, t.0 as int, t.1 as int)
        },
        every_draw_ok(*grid, w as int, h as int, start, min_dist) ==> r is Some,
{
    let mut rng = thread_rng();
    let mut tries: usize = 0;
    let ghost mut drawn: Seq<(usize, usize)> = seq![];
    proof {
        assert((min_dist as int) * (min_dist as int) <= 0xffff_ffff_ffff_ffff) by (nonlinear_arith)
            requires
                min_dist <= 0xffff_ffff,
        ;
    }
    let limit: u128 = (min_dist as u128) * (min_dist as u128);
    let rows = grid.nrows();
    while tries < SPAWN_TRIES
        invariant
            3 <= w <= grid.cols(),
            3 <= h <= grid.rows(),
            small_tile(start),
            limit == min_dist * min_dist,
            rows == grid.rows(),
            crate::grid::shape_fits(grid.rows() as int, grid.cols() as int),
            every_draw_ok(*grid, w as int, h as int, start, min_dist) ==> tries == 0,
            tries <= SPAWN_TRIES,
            drawn.len() == tries,
            draws_in_range(drawn, w as int, h as int),
            forall|k: int| 0 <= k < drawn.len() ==> !spawn_ok(*grid, start, min_dist, (#[trigger] drawn[k]).0 as int, drawn[k].1 as int),
        decreases SPAWN_TRIES - tries,
    {
        let x = gen_range_usize(&mut rng, 1, w - 1);
        let y = gen_range_usize(&mut rng, 1, h - 1);
        proof {
            if every_draw_ok(*grid, w as int, h as int, start, min_dist) {
                assert(spawn_ok(*grid, start, min_dist, x as int, y as int));
            }
        }
        let mut suits = false;
        if grid.get(y, x) == FLOOR {
            proof {
                assert(grid.rows() <= isize::MAX && grid.cols() <= isize::MAX) by (nonlinear_arith)
                    requires
                        crate::grid::shape_fits(grid.rows() as int, grid.cols() as int),
                        grid.rows() >= 3,
                        grid.cols() >= 3,
                ;
            }
            let d = tile_dist_key((x, y), start);
            suits = d > limit;
        }
        if suits {
            proof {
                let pad = Seq::new((SPAWN_TRIES - tries - 1) as nat, |i: int| (1usize, 1usize));
                let rest = seq![(x, y)] + pad;
                let draws = drawn + rest;
                lemma_first_spawn_skip(*grid, drawn, rest, start, min_dist);
                assert(rest[0] == (x, y));
                assert(first_spawn(*grid, draws, start, min_dist) == Some((x, y)));
                assert forall|i: int| 0 <= i < draws.len() implies 1 <= (#[trigger] draws[i]).0 < w - 1 && 1 <= draws[i].1
                    < h - 1 by {
                    if i < drawn.len() {
                        assert(draws[i] == drawn[i]);
                    } else if i == drawn.len() {
                        assert(draws[i] == (x, y));
                    } else {
                        assert(draws[i] == pad[i - drawn.len() - 1]);
                    }
                }
                assert(draws.len() == SPAWN_TRIES);
            }
            return Some((x, y));
        }
        proof {
            assert(!spawn_ok(*grid, start, min_dist, x as int, y as int));
            let old_drawn = drawn;
            drawn = drawn.push((x, y));
            assert forall|k: int| 0 <= k < drawn.len() implies !spawn_ok(*grid, start, min_dist, (#[trigger] drawn[k]).0 as int, drawn[k].1 as int) by {
                if k < old_drawn.len() {
                    assert(drawn[k] == old_drawn[k]);
                }
            }
            assert forall|i: int| 0 <= i < drawn.len() implies 1 <= (#[trigger] drawn[i]).0 < w - 1 && 1 <= drawn[i].1 < h - 1 by {
                if i < old_drawn.len() {
                    assert(drawn[i] == old_drawn[i]);
                }
            }
        }
        tries = tries + 1;
    }
    proof {
        lemma_first_spawn_skip(*grid, drawn, seq![], start, min_dist);
        assert(drawn + seq![] =~= drawn);
        assert(first_spawn(*grid, drawn, start, min_dist) == None::<(usize, usize)>);
    }
    None
}

/// The pickup kind for draw `k` of `0..3`: health, ammunition, emerald.
pub open spec fn kind_for_draw(k: int) -> ItemKind {
    if k == 0 {
        ItemKind::Health
    } else if k == 1 {
        ItemKind::Ammo
    } else {
        ItemKind::Emerald
    }
}

/// The pickup kind for draw `k`; see `kind_for_draw`.
pub fn item_kind_for(k: usize) -> (kind: ItemKind)
    requires
        k < 3,
    ensures
        kind == kind_for_draw(k as int),
{
    if k == 0 {
        ItemKind::Health
    } else if k == 1 {
        ItemKind::Ammo
    } else {
        ItemKind::Emerald
    }
}

/// A pickup kind drawn at random: a number is drawn from `0..3` and mapped
/// by `item_kind_for`. Which number comes is chance.
pub fn random_item_kind() -> (kind: ItemKind)
    ensures
        exists|k: int| 0 <= k < 3 && kind == kind_for_draw(k),
{
    let mut rng = thread_rng();
    let k = gen_range_usize(&mut rng, 0, 3);
    item_kind_for(k)
}

} // verus!
