//! Synthetic dungeon generation: rooms placed at random without touching,
//! joined in order by L-shaped corridors, a start tile chosen at random among
//! the floor tiles and the exit put on the floor tile farthest from it.
use vstd::prelude::*;
use crate::entities::{WALL, FLOOR, EXIT};
use crate::grid::{ByteGrid, shape_fits};
use crate::random::{thread_rng, gen_range_usize};
use crate::tiles::{tile_sq_dist, lemma_zero_distance, in_fallback_room, sq_dist, rm_before, sorted_row_major, has_floor, open_tile, floors_with_fallback, place_start_and_exit, lemma_farthest_is_last};
use crate::text::{decimal_digits, push_decimal};
use crate::reach::{reachable, lemma_generated_map_connected};

verus! {

/// A rectangular room: left column, top row, width, height.
pub type Room = (usize, usize, usize, usize);

/// A candidate room lies closer than one tile to an existing room (the rooms,
/// each grown by one tile on its right and bottom side, intersect).
pub open spec fn rooms_touch(c: Room, o: Room) -> bool {
    &&& c.0 < o.0 + o.2 + 1
    &&& c.0 + c.2 + 1 > o.0
    &&& c.1 < o.1 + o.3 + 1
    &&& c.1 + c.3 + 1 > o.1
}

/// The candidate touches one of `rooms`.
pub open spec fn touches_any(c: Room, rooms: Seq<Room>) -> bool {
    exists|i: int| 0 <= i < rooms.len() && rooms_touch(c, #[trigger] rooms[i])
}

/// The rooms kept from a list of proposals taken in order: a proposal is kept
/// unless it touches a room kept before it.
pub open spec fn accepted_rooms(props: Seq<Room>) -> Seq<Room>
    decreases props.len(),
{
    if props.len() == 0 {
        seq![]
    } else {
        let prev = accepted_rooms(props.drop_last());
        if touches_any(props.last(), prev) {
            prev
        } else {
            prev.push(props.last())
        }
    }
}

/// The room, with a one-tile margin on its right and bottom, fits in a map of
/// `w` columns and `h` rows.
pub open spec fn room_inside(r: Room, w: int, h: int) -> bool {
    r.0 + r.2 + 1 < w && r.1 + r.3 + 1 < h
}

/// Each kept room is one of the proposals.
pub proof fn lemma_accepted_from_proposals(props: Seq<Room>)
    ensures
        forall|i: int| 0 <= i < accepted_rooms(props).len() ==>
            exists|j: int| 0 <= j < props.len() && #[trigger] accepted_rooms(props)[i] == props[j],
    decreases props.len(),
{
    if props.len() > 0 {
        let prev = accepted_rooms(props.drop_last());
        lemma_accepted_from_proposals(props.drop_last());
        assert forall|i: int| 0 <= i < accepted_rooms(props).len() implies
            exists|j: int| 0 <= j < props.len() && #[trigger] accepted_rooms(props)[i] == props[j] by {
            if i < prev.len() {
                let j = choose|j: int| 0 <= j < props.drop_last().len() && prev[i] == props.drop_last()[j];
                assert(props[j] == props.drop_last()[j]);
            } else {
                assert(accepted_rooms(props)[i] == props[props.len() - 1]);
            }
        }
    }
}

/// No two kept rooms touch: a kept room never comes within a tile of a room
/// kept before it.
pub proof fn lemma_kept_rooms_apart(props: Seq<Room>)
    ensures
        forall|i: int, j: int|
            0 <= i < j < accepted_rooms(props).len() ==> !rooms_touch(
                #[trigger] accepted_rooms(props)[j],
                #[trigger] accepted_rooms(props)[i],
            ),
    decreases props.len(),
{
    if props.len() > 0 {
        let prev = accepted_rooms(props.drop_last());
        lemma_kept_rooms_apart(props.drop_last());
        let acc = accepted_rooms(props);
        assert forall|i: int, j: int| 0 <= i < j < acc.len() implies !rooms_touch(#[trigger] acc[j], #[trigger] acc[i]) by {
            if j < prev.len() {
                assert(acc[j] == prev[j] && acc[i] == prev[i]);
            } else {
                assert(acc[i] == prev[i]);
                if rooms_touch(acc[j], acc[i]) {
                    assert(touches_any(props.last(), prev));
                }
            }
        }
    }
}

/// Any two kept rooms have at least one wall column or wall row between them:
/// one lies wholly to the right of, left of, below or above the other with a
/// gap of at least one tile.
pub proof fn lemma_kept_rooms_separated(props: Seq<Room>)
    ensures
        forall|i: int, j: int|
            #![trigger accepted_rooms(props)[i], accepted_rooms(props)[j]]
            0 <= i < j < accepted_rooms(props).len() ==> {
                let a = accepted_rooms(props)[i];
                let b = accepted_rooms(props)[j];
                ||| b.0 >= a.0 + a.2 + 1
                ||| a.0 >= b.0 + b.2 + 1
                ||| b.1 >= a.1 + a.3 + 1
                ||| a.1 >= b.1 + b.3 + 1
            },
{
    lemma_kept_rooms_apart(props);
    let acc = accepted_rooms(props);
    assert forall|i: int, j: int| #![trigger acc[i], acc[j]] 0 <= i < j < acc.len() implies {
        let a = acc[i];
        let b = acc[j];
        ||| b.0 >= a.0 + a.2 + 1
        ||| a.0 >= b.0 + b.2 + 1
        ||| b.1 >= a.1 + a.3 + 1
        ||| a.1 >= b.1 + b.3 + 1
    } by {
        assert(!rooms_touch(acc[j], acc[i]));
    }
}

/// No proposal keeps no room; proposing one more room keeps it exactly when
/// it stays at least one tile away from every room kept so far, that is when
/// it comes within one tile of none of them; otherwise the kept rooms stay as
/// they were.
pub proof fn lemma_proposal_dropped_exactly_when_near(props: Seq<Room>, p: Room)
    ensures
        accepted_rooms(Seq::<Room>::empty()).len() == 0,
        accepted_rooms(props.push(p)) == if exists|k: int|
            #![trigger accepted_rooms(props)[k]]
            0 <= k < accepted_rooms(props).len() && {
                let o = accepted_rooms(props)[k];
                &&& p.0 < o.0 + o.2 + 1
                &&& p.0 + p.2 + 1 > o.0
                &&& p.1 < o.1 + o.3 + 1
                &&& p.1 + p.3 + 1 > o.1
            } {
            accepted_rooms(props)
        } else {
            accepted_rooms(props).push(p)
        },
{
    let q = props.push(p);
    assert(q.drop_last() =~= props);
    assert(q.last() == p);
    let acc = accepted_rooms(props);
    let near = exists|k: int|
        #![trigger acc[k]]
        0 <= k < acc.len() && {
            let o = acc[k];
            &&& p.0 < o.0 + o.2 + 1
            &&& p.0 + p.2 + 1 > o.0
            &&& p.1 < o.1 + o.3 + 1
            &&& p.1 + p.3 + 1 > o.1
        };
    if near {
        let k = choose|k: int|
            #![trigger acc[k]]
            0 <= k < acc.len() && {
                let o = acc[k];
                &&& p.0 < o.0 + o.2 + 1
                &&& p.0 + p.2 + 1 > o.0
                &&& p.1 < o.1 + o.3 + 1
                &&& p.1 + p.3 + 1 > o.1
            };
        assert(rooms_touch(p, acc[k]));
        assert(touches_any(p, acc));
    } else {
        assert forall|k: int| 0 <= k < acc.len() implies !rooms_touch(p, #[trigger] acc[k]) by {
            if rooms_touch(p, acc[k]) {
                assert(0 <= k < acc.len());
            }
        }
        assert(!touches_any(p, acc));
    }
}

/// Keeps, in order, each proposed room that does not touch a room kept before
/// it.
pub fn place_rooms(w: usize, h: usize, proposals: &Vec<Room>) -> (rooms: Vec<Room>)
    requires
        forall|i: int| 0 <= i < proposals.len() ==> room_inside(#[trigger] proposals[i], w as int, h as int),
    ensures
        rooms@ == accepted_rooms(proposals@),
{
    let mut rooms: Vec<Room> = Vec::new();
    for i in 0..proposals.len()
        invariant
            forall|k: int| 0 <= k < proposals.len() ==> room_inside(#[trigger] proposals[k], w as int, h as int),
            forall|k: int| 0 <= k < rooms.len() ==> room_inside(#[trigger] rooms[k], w as int, h as int),
            rooms@ == accepted_rooms(proposals@.take(i as int)),
    {
        let (rx, ry, rw, rh) = proposals[i];
        let mut overlaps = false;
        let mut j: usize = 0;
        while j < rooms.len() && !overlaps
            invariant
                0 <= j <= rooms.len(),
                forall|k: int| 0 <= k < rooms.len() ==> room_inside(#[trigger] rooms[k], w as int, h as int),
                room_inside((rx, ry, rw, rh), w as int, h as int),
                overlaps ==> touches_any((rx, ry, rw, rh), rooms@),
                !overlaps ==> forall|k: int| 0 <= k < j ==> !rooms_touch((rx, ry, rw, rh), #[trigger] rooms@[k]),
            decreases rooms.len() - j,
        {
            let (ox, oy, ow, oh) = rooms[j];
            if rx < ox + ow + 1 && rx + rw + 1 > ox && ry < oy + oh + 1 && ry + rh + 1 > oy {
                overlaps = true;
                assert(rooms_touch((rx, ry, rw, rh), rooms@[j as int]));
            }
            j = j + 1;
        }
        assert(proposals@.take(i + 1).drop_last() =~= proposals@.take(i as int));
        assert(proposals@.take(i + 1).last() == proposals@[i as int]);
        if !overlaps {
            rooms.push((rx, ry, rw, rh));
        }
    }
    assert(proposals@.take(proposals.len() as int) =~= proposals@);
    rooms
}

/// The tile at row `y`, column `x` lies in the room.
pub open spec fn in_room(r: Room, y: int, x: int) -> bool {
    r.0 <= x < r.0 + r.2 && r.1 <= y < r.1 + r.3
}

/// The tile lies in room `i` of the list.
pub open spec fn room_cell(rooms: Seq<Room>, i: int, y: int, x: int) -> bool {
    in_room(rooms[i], y, x)
}

/// The tile lies in one of the first `k` rooms.
pub open spec fn in_some_room(rooms: Seq<Room>, k: int, y: int, x: int) -> bool {
    exists|i: int| 0 <= i < k && #[trigger] room_cell(rooms, i, y, x)
}

/// The centre column of a room.
pub open spec fn center_x(r: Room) -> int {
    r.0 + r.2 / 2
}

/// The centre row of a room.
pub open spec fn center_y(r: Room) -> int {
    r.1 + r.3 / 2
}

/// `v` is passed when stepping one unit at a time from `a` towards `b`:
/// `a` included, `b` excluded.
pub open spec fn passed_from_toward(a: int, b: int, v: int) -> bool {
    (a <= v < b) || (b < v <= a)
}

/// The corridor from room `a` to room `b`: along the row of `a`'s centre
/// from `a`'s centre column towards `b`'s, then along the column of `b`'s
/// centre from `a`'s centre row towards `b`'s.
pub open spec fn on_corridor(a: Room, b: Room, y: int, x: int) -> bool {
    ||| (y == center_y(a) && passed_from_toward(center_x(a), center_x(b), x))
    ||| (x == center_x(b) && passed_from_toward(center_y(a), center_y(b), y))
}

/// The tile lies on the corridor that joins room `i - 1` to room `i`.
pub open spec fn corridor_cell(rooms: Seq<Room>, i: int, y: int, x: int) -> bool {
    on_corridor(rooms[i - 1], rooms[i], y, x)
}

/// The tile lies on one of the corridors joining rooms `0..k` in order.
pub open spec fn on_some_corridor(rooms: Seq<Room>, k: int, y: int, x: int) -> bool {
    exists|i: int| 1 <= i < k && #[trigger] corridor_cell(rooms, i, y, x)
}

/// The tile is floor in the map carved from `rooms`: inside a room or on a
/// corridor between consecutive rooms.
pub open spec fn carved_floor(rooms: Seq<Room>, y: int, x: int) -> bool {
    in_some_room(rooms, rooms.len() as int, y, x) || on_some_corridor(rooms, rooms.len() as int, y, x)
}

/// Sets every cell of the rectangle of `rw` columns from `rx` and `rh` rows
/// from `ry` to `v`.
fn fill_rect(g: &mut ByteGrid, rx: usize, ry: usize, rw: usize, rh: usize, v: u8)
    requires
        rx + rw <= old(g).cols() <= usize::MAX,
        ry + rh <= old(g).rows() <= usize::MAX,
    ensures
        final(g).rows() == old(g).rows(),
        final(g).cols() == old(g).cols(),
        forall|y: int, x: int| #[trigger] final(g).at(y, x) == if rx <= x < rx + rw && ry <= y < ry + rh {
            v
        } else {
            old(g).at(y, x)
        },
{
    let ghost g0 = *g;
    for y in ry..ry + rh
        invariant
            g.rows() == g0.rows(),
            g.cols() == g0.cols(),
            rx + rw <= g.cols() <= usize::MAX,
            ry + rh <= g.rows() <= usize::MAX,
            forall|yy: int, xx: int| #[trigger] g.at(yy, xx) == if rx <= xx < rx + rw && ry <= yy < y {
                v
            } else {
                g0.at(yy, xx)
            },
    {
        for x in rx..rx + rw
            invariant
                ry <= y < ry + rh,
                g.rows() == g0.rows(),
                g.cols() == g0.cols(),
                rx + rw <= g.cols() <= usize::MAX,
                ry + rh <= g.rows() <= usize::MAX,
                forall|yy: int, xx: int| #[trigger] g.at(yy, xx) == if (rx <= xx < rx + rw && ry <= yy < y) || (yy == y
                    && rx <= xx < x) {
                    v
                } else {
                    g0.at(yy, xx)
                },
        {
            g.set(y, x, v);
        }
    }
}

/// Steps along row `y` from column `from` towards column `to`, setting each
/// cell passed (`to` itself excluded) to `v`.
fn fill_row_toward(g: &mut ByteGrid, y: usize, from: usize, to: usize, v: u8)
    requires
        y < old(g).rows(),
        from < old(g).cols(),
        to < old(g).cols(),
    ensures
        final(g).rows() == old(g).rows(),
        final(g).cols() == old(g).cols(),
        forall|yy: int, xx: int| #[trigger] final(g).at(yy, xx) == if yy == y && passed_from_toward(from as int, to as int, xx) {
            v
        } else {
            old(g).at(yy, xx)
        },
{
    let ghost g0 = *g;
    let mut x = from;
    while x != to
        invariant
            g.rows() == g0.rows(),
            g.cols() == g0.cols(),
            y < g.rows(),
            from < g.cols(),
            to < g.cols(),
            from <= to ==> from <= x <= to,
            to < from ==> to <= x <= from,
            forall|yy: int, xx: int| #[trigger] g.at(yy, xx) == if yy == y && passed_from_toward(from as int, x as int, xx) {
                v
            } else {
                g0.at(yy, xx)
            },
        decreases if x <= to { to - x } else { x - to },
    {
        g.set(y, x, v);
        if x < to {
            x = x + 1;
        } else {
            x = x - 1;
        }
    }
}

/// Steps along column `x` from row `from` towards row `to`, setting each cell
/// passed (`to` itself excluded) to `v`.
fn fill_col_toward(g: &mut ByteGrid, x: usize, from: usize, to: usize, v: u8)
    requires
        x < old(g).cols(),
        from < old(g).rows(),
        to < old(g).rows(),
    ensures
        final(g).rows() == old(g).rows(),
        final(g).cols() == old(g).cols(),
        forall|yy: int, xx: int| #[trigger] final(g).at(yy, xx) == if xx == x && passed_from_toward(from as int, to as int, yy) {
            v
        } else {
            old(g).at(yy, xx)
        },
{
    let ghost g0 = *g;
    let mut y = from;
    while y != to
        invariant
            g.rows() == g0.rows(),
            g.cols() == g0.cols(),
            x < g.cols(),
            from < g.rows(),
            to < g.rows(),
            from <= to ==> from <= y <= to,
            to < from ==> to <= y <= from,
            forall|yy: int, xx: int| #[trigger] g.at(yy, xx) == if xx == x && passed_from_toward(from as int, y as int, yy) {
                v
            } else {
                g0.at(yy, xx)
            },
        decreases if y <= to { to - y } else { y - to },
    {
        g.set(y, x, v);
        if y < to {
            y = y + 1;
        } else {
            y = y - 1;
        }
    }
}

/// The map carved from a list of rooms: all wall, except the rooms and the
/// corridors joining each room to the one before it, which are floor.
pub fn carve_layout(w: usize, h: usize, rooms: &Vec<Room>) -> (g: ByteGrid)
    requires
        shape_fits(h as int, w as int),
        forall|i: int| 0 <= i < rooms.len() ==> room_inside(#[trigger] rooms[i], w as int, h as int),
    ensures
        g.rows() == h,
        g.cols() == w,
        forall|y: int, x: int| g.in_bounds(y, x) ==> #[trigger] g.at(y, x) == if carved_floor(rooms@, y, x) {
            FLOOR
        } else {
            WALL
        },
{
    let mut g = ByteGrid::filled(h, w, WALL);
    let n = rooms.len();
    for i in 0..n
        invariant
            n == rooms.len(),
            g.rows() == h,
            g.cols() == w,
            forall|k: int| 0 <= k < rooms.len() ==> room_inside(#[trigger] rooms[k], w as int, h as int),
            forall|y: int, x: int| g.in_bounds(y, x) ==> #[trigger] g.at(y, x) == if in_some_room(rooms@, i as int, y, x) {
                FLOOR
            } else {
                WALL
            },
    {
        let (rx, ry, rw, rh) = rooms[i];
        assert(room_inside(rooms@[i as int], w as int, h as int));
        let ghost before = g;
        fill_rect(&mut g, rx, ry, rw, rh, FLOOR);
        assert forall|y: int, x: int| g.in_bounds(y, x) implies #[trigger] g.at(y, x) == if in_some_room(
            rooms@,
            i + 1,
            y,
            x,
        ) {
            FLOOR
        } else {
            WALL
        } by {
            if room_cell(rooms@, i as int, y, x) {
                assert(in_some_room(rooms@, i + 1, y, x));
            }
            if in_some_room(rooms@, i as int, y, x) {
                let k = choose|k: int| 0 <= k < i && #[trigger] room_cell(rooms@, k, y, x);
                assert(room_cell(rooms@, k, y, x));
            }
            if in_some_room(rooms@, i + 1, y, x) && !room_cell(rooms@, i as int, y, x) {
                let k = choose|k: int| 0 <= k < i + 1 && #[trigger] room_cell(rooms@, k, y, x);
                assert(in_some_room(rooms@, i as int, y, x));
            }
            assert(before.at(y, x) == if in_some_room(rooms@, i as int, y, x) { FLOOR } else { WALL });
        }
    }
    if n > 1 {
        for i in 1..n
            invariant
                n == rooms.len(),
                g.rows() == h,
                g.cols() == w,
                forall|k: int| 0 <= k < rooms.len() ==> room_inside(#[trigger] rooms[k], w as int, h as int),
                forall|y: int, x: int| g.in_bounds(y, x) ==> #[trigger] g.at(y, x) == if in_some_room(rooms@, n as int, y, x)
                    || on_some_corridor(rooms@, i as int, y, x) {
                    FLOOR
                } else {
                    WALL
                },
        {
            let (ax, ay, aw, ah) = rooms[i - 1];
            let (bx, by, bw, bh) = rooms[i];
            assert(room_inside(rooms@[i - 1], w as int, h as int));
            assert(room_inside(rooms@[i as int], w as int, h as int));
            let cx1 = ax + aw / 2;
            let cy1 = ay + ah / 2;
            let cx2 = bx + bw / 2;
            let cy2 = by + bh / 2;
            let ghost before = g;
            fill_row_toward(&mut g, cy1, cx1, cx2, FLOOR);
            fill_col_toward(&mut g, cx2, cy1, cy2, FLOOR);
            assert forall|y: int, x: int| g.in_bounds(y, x) implies #[trigger] g.at(y, x) == if in_some_room(
                rooms@,
                n as int,
                y,
                x,
            ) || on_some_corridor(rooms@, i + 1, y, x) {
                FLOOR
            } else {
                WALL
            } by {
                if corridor_cell(rooms@, i as int, y, x) {
                    assert(on_some_corridor(rooms@, i + 1, y, x));
                }
                if on_some_corridor(rooms@, i as int, y, x) {
                    let k = choose|k: int| 1 <= k < i && #[trigger] corridor_cell(rooms@, k, y, x);
                    assert(corridor_cell(rooms@, k, y, x));
                }
                if on_some_corridor(rooms@, i + 1, y, x) && !corridor_cell(rooms@, i as int, y, x) {
                    let k = choose|k: int| 1 <= k < i + 1 && #[trigger] corridor_cell(rooms@, k, y, x);
                    assert(on_some_corridor(rooms@, i as int, y, x));
                }
                assert(before.at(y, x) == if in_some_room(rooms@, n as int, y, x) || on_some_corridor(
                    rooms@,
                    i as int,
                    y,
                    x,
                ) {
                    FLOOR
                } else {
                    WALL
                });
            }
        }
    }
    assert forall|y: int, x: int| g.in_bounds(y, x) implies #[trigger] g.at(y, x) == if carved_floor(rooms@, y, x) {
        FLOOR
    } else {
        WALL
    } by {
        if n <= 1 {
            if on_some_corridor(rooms@, n as int, y, x) {
                let k = choose|k: int| 1 <= k < n && #[trigger] corridor_cell(rooms@, k, y, x);
            }
        }
    }
    g
}

/// The squared distance between two tiles given as `(column, row)`, as ints.
pub open spec fn layout_dist(x: int, y: int, p: (usize, usize)) -> int {
    sq_dist(x, y, p.0 as int, p.1 as int)
}

/// A generated map: the exit tile holds the exit, the start tile is floor
/// unless it is the exit itself (which happens only when no floor is left),
/// every other tile is wall or floor, and no floor tile is farther from the
/// start than the exit; a floor tile as far as the exit comes before it in
/// row-major order.
pub open spec fn is_dungeon_layout(g: ByteGrid, player: (usize, usize), exit: (usize, usize)) -> bool {
    &&& g.in_bounds(player.1 as int, player.0 as int)
    &&& g.in_bounds(exit.1 as int, exit.0 as int)
    &&& player != exit ==> g.at(player.1 as int, player.0 as int) == FLOOR
    &&& player == exit ==> forall|y: int, x: int| g.in_bounds(y, x) ==> #[trigger] g.at(y, x) != FLOOR
    &&& g.at(exit.1 as int, exit.0 as int) == EXIT
    &&& forall|y: int, x: int|
        g.in_bounds(y, x) && (y != exit.1 || x != exit.0) ==> (#[trigger] g.at(y, x) == WALL || g.at(y, x) == FLOOR)
    &&& forall|y: int, x: int|
        g.in_bounds(y, x) && #[trigger] g.at(y, x) == FLOOR ==> layout_dist(x, y, player) <= layout_dist(
            exit.0 as int,
            exit.1 as int,
            player,
        ) && ((x == exit.0 && y == exit.1) || layout_dist(x, y, player) < layout_dist(exit.0 as int, exit.1 as int, player)
            || rm_before((x as usize, y as usize), exit))
}

/// A room proposal as the generator draws it: 5 to 11 tiles wide and 5 to 9
/// tall, at least one tile from the top and left edges, and with its margin
/// inside the map.
pub open spec fn proposal_ok(p: Room, w: int, h: int) -> bool {
    &&& 5 <= p.2 <= 11
    &&& 5 <= p.3 <= 9
    &&& 1 <= p.0
    &&& 1 <= p.1
    &&& room_inside(p, w, h)
}

/// Tile `(x, y)` of a `w` by `h` map drawn from the room proposals `props`
/// is open ground: it lies in a kept room or on a corridor between
/// consecutive kept rooms, or, when nothing was proposed, in the fallback
/// room.
pub open spec fn generated_open(props: Seq<Room>, w: int, h: int, y: int, x: int) -> bool {
    if props.len() == 0 {
        in_fallback_room(h, w, y, x)
    } else {
        carved_floor(accepted_rooms(props), y, x)
    }
}

/// A generated map was drawn from `attempts` room proposals `props`: each
/// proposal is one the generator can draw, every tile but the exit is floor
/// when open (see `generated_open`) and wall otherwise, and the exit tile
/// holds the exit and lies on open ground.
pub open spec fn drawn_from(g: ByteGrid, exit: (usize, usize), props: Seq<Room>, attempts: int) -> bool {
    &&& props.len() == attempts
    &&& forall|k: int| 0 <= k < props.len() ==> proposal_ok(#[trigger] props[k], g.cols() as int, g.rows() as int)
    &&& forall|y: int, x: int|
        g.in_bounds(y, x) && (y != exit.1 || x != exit.0) ==> #[trigger] g.at(y, x) == if generated_open(
            props,
            g.cols() as int,
            g.rows() as int,
            y,
            x,
        ) {
            FLOOR
        } else {
            WALL
        }
    &&& generated_open(props, g.cols() as int, g.rows() as int, exit.1 as int, exit.0 as int)
    &&& g.in_bounds(exit.1 as int, exit.0 as int)
    &&& g.at(exit.1 as int, exit.0 as int) == EXIT
}

/// The first proposal is always kept, so rooms are kept exactly when
/// something was proposed.
proof fn lemma_accepted_nonempty(props: Seq<Room>)
    ensures
        accepted_rooms(props).len() > 0 <==> props.len() > 0,
    decreases props.len(),
{
    if props.len() > 0 {
        lemma_accepted_nonempty(props.drop_last());
        if props.len() == 1 {
            assert(accepted_rooms(props.drop_last()) =~= seq![]);
            assert(!touches_any(props.last(), seq![]));
        }
    }
}

/// A map name of the synthetic generator: `synthetic_` and a number below
/// 10000.
pub open spec fn is_synthetic_name(s: Seq<char>) -> bool {
    exists|n: nat| n < 10000 && s == "synthetic_"@ + decimal_digits(n)
}

/// The map name `synthetic_` followed by the decimal digits of `n`.
fn synthetic_map_name(n: usize) -> (s: String)
    ensures
        s@ == "synthetic_"@ + decimal_digits(n as nat),
{
    let mut s = "synthetic_".to_owned();
    push_decimal(&mut s, n);
    s
}


/// After carving and the fallback room: every tile is wall or floor, the
/// listed tiles are exactly the floor tiles, and some tile is listed.
proof fn lemma_generated_tiles(w: int, h: int, rooms: Seq<Room>, carved: ByteGrid, grid: ByteGrid, tiles: Seq<(usize, usize)>)
    requires
        5 < w <= usize::MAX,
        5 < h <= usize::MAX,
        carved.rows() == h,
        carved.cols() == w,
        forall|y: int, x: int| carved.in_bounds(y, x) ==> #[trigger] carved.at(y, x) == if carved_floor(rooms, y, x) {
            FLOOR
        } else {
            WALL
        },
        grid.rows() == h,
        grid.cols() == w,
        forall|y: int, x: int| #[trigger] grid.at(y, x) == if open_tile(carved, y, x) { FLOOR } else { carved.at(y, x) },
        forall|c: (usize, usize)| #[trigger] tiles.contains(c) <==> (carved.in_bounds(c.1 as int, c.0 as int) && open_tile(
            carved,
            c.1 as int,
            c.0 as int,
        )),
    ensures
        forall|y: int, x: int| grid.in_bounds(y, x) ==> (#[trigger] grid.at(y, x) == WALL || grid.at(y, x) == FLOOR),
        forall|c: (usize, usize)| #[trigger] tiles.contains(c) <==> (grid.in_bounds(c.1 as int, c.0 as int) && grid.at(
            c.1 as int,
            c.0 as int,
        ) == FLOOR),
        exists|a: (usize, usize)| #[trigger] tiles.contains(a),
{
    assert forall|y: int, x: int| grid.in_bounds(y, x) implies (#[trigger] grid.at(y, x) == WALL || grid.at(y, x) == FLOOR) by {
        assert(carved.in_bounds(y, x));
    }
    assert forall|c: (usize, usize)| #[trigger] tiles.contains(c) <==> (grid.in_bounds(c.1 as int, c.0 as int) && grid.at(
        c.1 as int,
        c.0 as int,
    ) == FLOOR) by {
        if carved.in_bounds(c.1 as int, c.0 as int) {
            assert(carved.at(c.1 as int, c.0 as int) == WALL || carved.at(c.1 as int, c.0 as int) == FLOOR);
        }
    }
    if has_floor(carved) {
        let (y, x) = choose|y: int, x: int| carved.in_bounds(y, x) && #[trigger] carved.at(y, x) == FLOOR;
        assert(tiles.contains((x as usize, y as usize)));
    } else {
        assert(tiles.contains((5usize, 5usize)));
    }
}

/// The exit chosen among the listed floor tiles completes a dungeon layout.
proof fn lemma_generated_layout(
    before: ByteGrid,
    tiles: Seq<(usize, usize)>,
    player: (usize, usize),
    exit: (usize, usize),
    grid: ByteGrid,
)
    requires
        before.rows() <= usize::MAX,
        before.cols() <= usize::MAX,
        forall|y: int, x: int| before.in_bounds(y, x) ==> (#[trigger] before.at(y, x) == WALL || before.at(y, x) == FLOOR),
        forall|c: (usize, usize)| #[trigger] tiles.contains(c) <==> (before.in_bounds(c.1 as int, c.0 as int) && before.at(
            c.1 as int,
            c.0 as int,
        ) == FLOOR),
        sorted_row_major(tiles),
        grid.rows() == before.rows(),
        grid.cols() == before.cols(),
        forall|y: int, x: int| #[trigger] grid.at(y, x) == if y == exit.1 && x == exit.0 { EXIT } else { before.at(y, x) },
        tiles.contains(player),
        exists|i: int|
            {
                &&& 0 <= i < tiles.len()
                &&& exit == tiles[i]
                &&& forall|j: int| 0 <= j < tiles.len() ==> tile_sq_dist(#[trigger] tiles[j], player) <= tile_sq_dist(tiles[i], player)
                &&& forall|j: int| i < j < tiles.len() ==> tile_sq_dist(#[trigger] tiles[j], player) < tile_sq_dist(tiles[i], player)
            },
    ensures
        is_dungeon_layout(grid, player, exit),
{
    lemma_farthest_is_last(tiles, player, exit);
    assert(tiles.contains(exit));
    if exists|c: (usize, usize)| #[trigger] tiles.contains(c) && c != player {
        let other = choose|c: (usize, usize)| #[trigger] tiles.contains(c) && c != player;
        if tile_sq_dist(other, player) == 0 {
            lemma_zero_distance(other, player);
        }
        let dx = other.0 as int - player.0 as int;
        let dy = other.1 as int - player.1 as int;
        assert(dx * dx >= 0 && dy * dy >= 0) by (nonlinear_arith);
        assert(exit != player);
    } else {
        assert(exit == player);
        assert forall|y: int, x: int| grid.in_bounds(y, x) implies #[trigger] grid.at(y, x) != FLOOR by {
            if grid.at(y, x) == FLOOR {
                assert(tiles.contains((x as usize, y as usize)));
            }
        }
    }
    assert forall|y: int, x: int| grid.in_bounds(y, x) && #[trigger] grid.at(y, x) == FLOOR implies layout_dist(x, y, player)
        <= layout_dist(exit.0 as int, exit.1 as int, player) && ((x == exit.0 && y == exit.1) || layout_dist(x, y, player)
        < layout_dist(exit.0 as int, exit.1 as int, player) || rm_before((x as usize, y as usize), exit)) by {
        let c = (x as usize, y as usize);
        assert(before.at(y, x) == FLOOR);
        assert(tiles.contains(c));
    }
}

/// Generator of random synthetic dungeons of a fixed size.
pub struct DungeonGenerator {
    pub w: usize,
    pub h: usize,
    pub room_attempts: usize,
    pub current_map_name: String,
}

impl DungeonGenerator {
    /// A generator of `w` by `h` maps that proposes `room_attempts` rooms per
    /// map; its map name is `synthetic` until the first map is made.
    pub fn new(w: usize, h: usize, room_attempts: usize) -> (g: Self)
        ensures
            g.w == w,
            g.h == h,
            g.room_attempts == room_attempts,
            g.current_map_name@ == "synthetic"@,
    {
        Self { w, h, room_attempts, current_map_name: "synthetic".to_owned() }
    }

    /// Draws a new map: `room_attempts` random room proposals, of which those
    /// not touching an earlier kept room become floor, joined in order by
    /// corridors (when nothing is proposed, a fallback room at rows and
    /// columns 5 to 14, cut to the map); a random floor tile as the start and the floor tile
    /// farthest from it as the exit. The map name becomes `synthetic_` and a
    /// random number below 10000. Returns the map, the start and the exit,
    /// each as `(column, row)`; the exit can be walked to from the start.
    pub fn generate(&mut self) -> (res: (ByteGrid, (usize, usize), (usize, usize)))
        requires
            old(self).room_attempts > 0 ==> old(self).w >= 14 && old(self).h >= 12,
            old(self).w > 5,
            old(self).h > 5,
            shape_fits(old(self).h as int, old(self).w as int),
        ensures
            final(self).w == old(self).w,
            final(self).h == old(self).h,
            final(self).room_attempts == old(self).room_attempts,
            is_synthetic_name(final(self).current_map_name@),
            res.0.rows() == old(self).h,
            res.0.cols() == old(self).w,
            is_dungeon_layout(res.0, res.1, res.2),
            exists|props: Seq<Room>| #[trigger] drawn_from(res.0, res.2, props, old(self).room_attempts as int),
            reachable(res.0, (res.1.1 as int, res.1.0 as int), (res.2.1 as int, res.2.0 as int)),
    {
        let w = self.w;
        let h = self.h;
        let attempts = self.room_attempts;
        let mut rng = thread_rng();
        let mut proposals: Vec<Room> = Vec::new();
        let mut attempt: usize = 0;
        while attempt < attempts
            invariant
                attempts > 0 ==> w >= 14 && h >= 12,
                attempt <= attempts,
                proposals.len() == attempt,
                forall|k: int| 0 <= k < proposals.len() ==> proposal_ok(#[trigger] proposals[k], w as int, h as int),
            decreases attempts - attempt,
        {
            let dw = gen_range_usize(&mut rng, 5, 12);
            let rw = if dw < w - 2 { dw } else { w - 2 };
            let dh = gen_range_usize(&mut rng, 5, 10);
            let rh = if dh < h - 2 { dh } else { h - 2 };
            let rx = gen_range_usize(&mut rng, 1, w - (rw + 1));
            let ry = gen_range_usize(&mut rng, 1, h - (rh + 1));
            proposals.push((rx, ry, rw, rh));
            attempt = attempt + 1;
        }
        let ghost props = proposals@;
        let rooms = place_rooms(w, h, &proposals);
        proof {
            lemma_accepted_from_proposals(proposals@);
            assert forall|k: int| 0 <= k < rooms.len() implies proposal_ok(#[trigger] rooms[k], w as int, h as int) by {
                let j = choose|j: int| 0 <= j < proposals@.len() && accepted_rooms(proposals@)[k] == proposals@[j];
                assert(proposal_ok(proposals[j], w as int, h as int));
            }
        }
        let mut grid = carve_layout(w, h, &rooms);
        let ghost carved = grid;
        proof {
            lemma_accepted_nonempty(props);
            assert(has_floor(carved) <==> props.len() > 0) by {
                if props.len() > 0 {
                    let r0 = rooms@[0];
                    assert(proposal_ok(r0, w as int, h as int));
                    assert(room_cell(rooms@, 0, r0.1 as int, r0.0 as int));
                    assert(carved_floor(rooms@, r0.1 as int, r0.0 as int));
                    assert(carved.at(r0.1 as int, r0.0 as int) == FLOOR);
                } else if has_floor(carved) {
                    let (y, x) = choose|y: int, x: int| carved.in_bounds(y, x) && #[trigger] carved.at(y, x) == FLOOR;
                    assert(carved_floor(rooms@, y, x));
                }
            }
            assert forall|y: int, x: int| carved.in_bounds(y, x) implies #[trigger] open_tile(carved, y, x)
                == generated_open(props, w as int, h as int, y, x) by {}
        }
        let tiles = floors_with_fallback(&mut grid);
        proof {
            lemma_generated_tiles(w as int, h as int, rooms@, carved, grid, tiles@);
        }
        let ghost before_exit = grid;
        proof {
            assert forall|i: int| 0 <= i < tiles.len() implies grid.in_bounds((#[trigger] tiles[i]).1 as int, tiles[i].0 as int) by {
                assert(tiles@.contains(tiles@[i]));
            }
        }
        let (player, exit) = place_start_and_exit(&mut grid, &tiles, &mut rng);
        let n = gen_range_usize(&mut rng, 0, 10000);
        self.current_map_name = synthetic_map_name(n);
        proof {
            lemma_generated_layout(before_exit, tiles@, player, exit, grid);
            assert(is_synthetic_name(self.current_map_name@));
            assert(tiles@.contains(exit)) by {
                let i = choose|i: int| 0 <= i < tiles.len() && exit == tiles[i] && forall|j: int|
                    0 <= j < tiles.len() ==> tile_sq_dist(#[trigger] tiles[j], player) <= tile_sq_dist(tiles[i], player) && forall|j: int|
                    i < j < tiles.len() ==> tile_sq_dist(#[trigger] tiles[j], player) < tile_sq_dist(tiles[i], player);
                assert(tiles@[i] == exit);
            }
            assert forall|y: int, x: int| grid.in_bounds(y, x) && (y != exit.1 || x != exit.0) implies #[trigger] grid.at(y, x)
                == if generated_open(props, w as int, h as int, y, x) {
                FLOOR
            } else {
                WALL
            } by {
                assert(carved.in_bounds(y, x));
                assert(open_tile(carved, y, x) == generated_open(props, w as int, h as int, y, x));
            }
            assert(carved.in_bounds(exit.1 as int, exit.0 as int));
            assert(open_tile(carved, exit.1 as int, exit.0 as int) == generated_open(props, w as int, h as int, exit.1 as int, exit.0 as int));
            assert(drawn_from(grid, exit, props, attempts as int));
            lemma_generated_map_connected(grid, exit, props, (player.1 as int, player.0 as int), (exit.1 as int, exit.0 as int));
        }
        let res = (grid, player, exit);
        assert(drawn_from(res.0, res.2, props, attempts as int));
        res
    }
}

} // verus!
