//! Walking on a map: walks of side-by-side walkable tiles, and the proof
//! that in a generated dungeon every walkable tile can be reached from every
//! other one, the exit from the start in particular.
use vstd::prelude::*;
use crate::entities::{WALL, FLOOR, EXIT};
use crate::grid::ByteGrid;
use crate::dungeon::{
    Room, accepted_rooms, carved_floor, generated_open, drawn_from, proposal_ok, room_cell, corridor_cell, in_some_room,
    on_some_corridor, center_x, center_y, passed_from_toward, in_room, lemma_accepted_from_proposals,
};
use crate::tiles::in_fallback_room;

verus! {

/// Tile `(y, x)` (row, column) can be walked on: it is inside the grid and
/// not wall.
pub open spec fn walkable(g: ByteGrid, y: int, x: int) -> bool {
    g.in_bounds(y, x) && g.at(y, x) != WALL
}

/// Two tiles `(row, column)` share a side.
pub open spec fn adjacent(a: (int, int), b: (int, int)) -> bool {
    ||| a.0 == b.0 && (a.1 == b.1 + 1 || b.1 == a.1 + 1)
    ||| a.1 == b.1 && (a.0 == b.0 + 1 || b.0 == a.0 + 1)
}

/// Step `i` of `p` goes to a tile beside the one before.
pub open spec fn step_ok(p: Seq<(int, int)>, i: int) -> bool {
    adjacent(p[i], p[i + 1])
}

/// `p` is a walk on `g`: at least one tile, every tile walkable, every step
/// to a tile sharing a side with the one before.
pub open spec fn is_walk(g: ByteGrid, p: Seq<(int, int)>) -> bool {
    &&& p.len() >= 1
    &&& forall|i: int| 0 <= i < p.len() ==> walkable(g, (#[trigger] p[i]).0, p[i].1)
    &&& forall|i: int| 0 <= i < p.len() - 1 ==> #[trigger] step_ok(p, i)
}

/// Some walk on `g` leads from tile `a` to tile `b`.
pub open spec fn reachable(g: ByteGrid, a: (int, int), b: (int, int)) -> bool {
    exists|p: Seq<(int, int)>| #[trigger] is_walk(g, p) && p[0] == a && p[p.len() - 1] == b
}

/// A walkable tile reaches itself.
pub proof fn lemma_reach_refl(g: ByteGrid, a: (int, int))
    requires
        walkable(g, a.0, a.1),
    ensures
        reachable(g, a, a),
{
    let p = seq![a];
    assert(is_walk(g, p));
}

/// A walkable tile reaches a walkable tile beside it.
pub proof fn lemma_reach_step(g: ByteGrid, a: (int, int), b: (int, int))
    requires
        walkable(g, a.0, a.1),
        walkable(g, b.0, b.1),
        adjacent(a, b),
    ensures
        reachable(g, a, b),
{
    let p = seq![a, b];
    assert(step_ok(p, 0));
    assert(is_walk(g, p));
}

/// Walks chain: what `b` reaches, a tile reaching `b` reaches too.
pub proof fn lemma_reach_trans(g: ByteGrid, a: (int, int), b: (int, int), c: (int, int))
    requires
        reachable(g, a, b),
        reachable(g, b, c),
    ensures
        reachable(g, a, c),
{
    let p = choose|p: Seq<(int, int)>| #[trigger] is_walk(g, p) && p[0] == a && p[p.len() - 1] == b;
    let q = choose|q: Seq<(int, int)>| #[trigger] is_walk(g, q) && q[0] == b && q[q.len() - 1] == c;
    let r = p + q.drop_first();
    let n = p.len();
    assert forall|i: int| 0 <= i < r.len() implies walkable(g, (#[trigger] r[i]).0, r[i].1) by {
        if i < n {
            assert(r[i] == p[i]);
        } else {
            assert(r[i] == q[i - n + 1]);
        }
    }
    assert forall|i: int| 0 <= i < r.len() - 1 implies #[trigger] step_ok(r, i) by {
        if i < n - 1 {
            assert(step_ok(p, i));
            assert(r[i] == p[i] && r[i + 1] == p[i + 1]);
        } else if i == n - 1 {
            assert(step_ok(q, 0));
            assert(r[i] == p[n - 1] && r[i + 1] == q[1]);
        } else {
            assert(step_ok(q, i - n + 1));
            assert(r[i] == q[i - n + 1] && r[i + 1] == q[i - n + 2]);
        }
    }
    assert(is_walk(g, r));
    assert(r[0] == a);
    if q.len() == 1 {
        assert(r[r.len() - 1] == p[n - 1]);
    } else {
        assert(r[r.len() - 1] == q[q.len() - 1]);
    }
}

/// Walks can be taken backwards.
pub proof fn lemma_reach_sym(g: ByteGrid, a: (int, int), b: (int, int))
    requires
        reachable(g, a, b),
    ensures
        reachable(g, b, a),
{
    let p = choose|p: Seq<(int, int)>| #[trigger] is_walk(g, p) && p[0] == a && p[p.len() - 1] == b;
    let n = p.len();
    let r = Seq::new(n, |i: int| p[n - 1 - i]);
    assert forall|i: int| 0 <= i < r.len() implies walkable(g, (#[trigger] r[i]).0, r[i].1) by {
        assert(r[i] == p[n - 1 - i]);
    }
    assert forall|i: int| 0 <= i < r.len() - 1 implies #[trigger] step_ok(r, i) by {
        assert(step_ok(p, n - 2 - i));
    }
    assert(is_walk(g, r));
}

/// Along a row: a walk leads from column `x1` to column `x2` of row `y` when
/// every tile between them is walkable.
pub proof fn lemma_row_walk(g: ByteGrid, y: int, x1: int, x2: int)
    requires
        forall|x: int| (x1 <= x <= x2 || x2 <= x <= x1) ==> #[trigger] walkable(g, y, x),
    ensures
        reachable(g, (y, x1), (y, x2)),
    decreases (if x1 <= x2 { x2 - x1 } else { x1 - x2 }),
{
    if x1 == x2 {
        assert(walkable(g, y, x1));
        lemma_reach_refl(g, (y, x1));
    } else {
        let xp = if x1 < x2 { x2 - 1 } else { x2 + 1 };
        assert forall|x: int| (x1 <= x <= xp || xp <= x <= x1) implies #[trigger] walkable(g, y, x) by {
            assert(x1 <= x <= x2 || x2 <= x <= x1);
        }
        lemma_row_walk(g, y, x1, xp);
        assert(walkable(g, y, xp) && walkable(g, y, x2));
        lemma_reach_step(g, (y, xp), (y, x2));
        lemma_reach_trans(g, (y, x1), (y, xp), (y, x2));
    }
}

/// Along a column: a walk leads from row `y1` to row `y2` of column `x` when
/// every tile between them is walkable.
pub proof fn lemma_col_walk(g: ByteGrid, x: int, y1: int, y2: int)
    requires
        forall|y: int| (y1 <= y <= y2 || y2 <= y <= y1) ==> #[trigger] walkable(g, y, x),
    ensures
        reachable(g, (y1, x), (y2, x)),
    decreases (if y1 <= y2 { y2 - y1 } else { y1 - y2 }),
{
    if y1 == y2 {
        assert(walkable(g, y1, x));
        lemma_reach_refl(g, (y1, x));
    } else {
        let yp = if y1 < y2 { y2 - 1 } else { y2 + 1 };
        assert forall|y: int| (y1 <= y <= yp || yp <= y <= y1) implies #[trigger] walkable(g, y, x) by {
            assert(y1 <= y <= y2 || y2 <= y <= y1);
        }
        lemma_col_walk(g, x, y1, yp);
        assert(walkable(g, yp, x) && walkable(g, y2, x));
        lemma_reach_step(g, (yp, x), (y2, x));
        lemma_reach_trans(g, (y1, x), (yp, x), (y2, x));
    }
}

/// In a rectangle of walkable tiles (rows `y0..y1`, columns `x0..x1`), every
/// tile reaches every other.
pub proof fn lemma_rect_walk(g: ByteGrid, y0: int, y1: int, x0: int, x1: int, a: (int, int), b: (int, int))
    requires
        forall|y: int, x: int| y0 <= y < y1 && x0 <= x < x1 ==> #[trigger] walkable(g, y, x),
        y0 <= a.0 < y1,
        x0 <= a.1 < x1,
        y0 <= b.0 < y1,
        x0 <= b.1 < x1,
    ensures
        reachable(g, a, b),
{
    assert forall|x: int| (a.1 <= x <= b.1 || b.1 <= x <= a.1) implies #[trigger] walkable(g, a.0, x) by {}
    lemma_row_walk(g, a.0, a.1, b.1);
    assert forall|y: int| (a.0 <= y <= b.0 || b.0 <= y <= a.0) implies #[trigger] walkable(g, y, b.1) by {}
    lemma_col_walk(g, b.1, a.0, b.0);
    lemma_reach_trans(g, a, (a.0, b.1), b);
}


/// The kept rooms of a generated map are rooms the generator can draw.
proof fn lemma_rooms_ok(g: ByteGrid, exit: (usize, usize), props: Seq<Room>)
    requires
        drawn_from(g, exit, props, props.len() as int),
    ensures
        forall|k: int|
            0 <= k < accepted_rooms(props).len() ==> proposal_ok(
                #[trigger] accepted_rooms(props)[k],
                g.cols() as int,
                g.rows() as int,
            ),
{
    lemma_accepted_from_proposals(props);
    assert forall|k: int| 0 <= k < accepted_rooms(props).len() implies proposal_ok(
        #[trigger] accepted_rooms(props)[k],
        g.cols() as int,
        g.rows() as int,
    ) by {
        let j = choose|j: int| 0 <= j < props.len() && accepted_rooms(props)[k] == props[j];
        assert(proposal_ok(props[j], g.cols() as int, g.rows() as int));
    }
}

/// Open ground of a generated map can be walked on, and only open ground.
proof fn lemma_open_walkable(g: ByteGrid, exit: (usize, usize), props: Seq<Room>)
    requires
        drawn_from(g, exit, props, props.len() as int),
    ensures
        forall|y: int, x: int|
            #[trigger] walkable(g, y, x) <==> generated_open(props, g.cols() as int, g.rows() as int, y, x),
{
    let w = g.cols() as int;
    let h = g.rows() as int;
    let rooms = accepted_rooms(props);
    lemma_rooms_ok(g, exit, props);
    assert forall|y: int, x: int| #[trigger] walkable(g, y, x) <==> generated_open(props, w, h, y, x) by {
        if generated_open(props, w, h, y, x) {
            if props.len() == 0 {
                assert(in_fallback_room(h, w, y, x));
            } else {
                assert(carved_floor(rooms, y, x));
                if in_some_room(rooms, rooms.len() as int, y, x) {
                    let k = choose|k: int| 0 <= k < rooms.len() && #[trigger] room_cell(rooms, k, y, x);
                    assert(proposal_ok(rooms[k], w, h));
                } else {
                    let i = choose|i: int| 1 <= i < rooms.len() && #[trigger] corridor_cell(rooms, i, y, x);
                    assert(proposal_ok(rooms[i - 1], w, h));
                    assert(proposal_ok(rooms[i], w, h));
                }
            }
            assert(g.in_bounds(y, x));
            if y != exit.1 || x != exit.0 {
                assert(g.at(y, x) == FLOOR);
            }
        }
        if walkable(g, y, x) && (y != exit.1 || x != exit.0) {
            assert(g.at(y, x) == FLOOR);
        }
    }
}

/// The centre tile `(row, column)` of a room.
pub open spec fn room_center(r: Room) -> (int, int) {
    (center_y(r), center_x(r))
}

/// Every tile of kept room `k` reaches every other tile of it, its centre in
/// particular.
proof fn lemma_room_reaches_center(g: ByteGrid, exit: (usize, usize), props: Seq<Room>, k: int, a: (int, int))
    requires
        drawn_from(g, exit, props, props.len() as int),
        0 <= k < accepted_rooms(props).len(),
        in_room(accepted_rooms(props)[k], a.0, a.1),
    ensures
        reachable(g, a, room_center(accepted_rooms(props)[k])),
{
    let rooms = accepted_rooms(props);
    let r = rooms[k];
    lemma_rooms_ok(g, exit, props);
    lemma_open_walkable(g, exit, props);
    assert(proposal_ok(r, g.cols() as int, g.rows() as int));
    assert forall|y: int, x: int| r.1 <= y < r.1 + r.3 && r.0 <= x < r.0 + r.2 implies #[trigger] walkable(g, y, x) by {
        assert(room_cell(rooms, k, y, x));
        assert(carved_floor(rooms, y, x));
    }
    lemma_rect_walk(g, r.1 as int, r.1 + r.3, r.0 as int, r.0 + r.2, a, room_center(r));
}

/// The tiles of corridor `i` that run along the column of room `i`'s centre
/// lead there: from row `y0` (the row of room `i - 1`'s centre, or a row the
/// corridor passes) to that centre.
proof fn lemma_column_leg(g: ByteGrid, exit: (usize, usize), props: Seq<Room>, i: int, y0: int)
    requires
        drawn_from(g, exit, props, props.len() as int),
        1 <= i < accepted_rooms(props).len(),
        y0 == center_y(accepted_rooms(props)[i - 1]) || passed_from_toward(
            center_y(accepted_rooms(props)[i - 1]),
            center_y(accepted_rooms(props)[i]),
            y0,
        ),
    ensures
        reachable(g, (y0, center_x(accepted_rooms(props)[i])), room_center(accepted_rooms(props)[i])),
{
    let rooms = accepted_rooms(props);
    let a = rooms[i - 1];
    let b = rooms[i];
    let cx = center_x(b);
    lemma_rooms_ok(g, exit, props);
    lemma_open_walkable(g, exit, props);
    assert(proposal_ok(b, g.cols() as int, g.rows() as int));
    assert forall|y: int| (y0 <= y <= center_y(b) || center_y(b) <= y <= y0) implies #[trigger] walkable(g, y, cx) by {
        if y == center_y(b) {
            assert(room_cell(rooms, i, y, cx));
        } else {
            assert(passed_from_toward(center_y(a), center_y(b), y));
            assert(corridor_cell(rooms, i, y, cx));
        }
        assert(carved_floor(rooms, y, cx));
    }
    lemma_col_walk(g, cx, y0, center_y(b));
}

/// The tiles of corridor `i` that run along the row of room `i - 1`'s centre
/// lead to the corner where the corridor turns.
proof fn lemma_row_leg(g: ByteGrid, exit: (usize, usize), props: Seq<Room>, i: int, x0: int)
    requires
        drawn_from(g, exit, props, props.len() as int),
        1 <= i < accepted_rooms(props).len(),
        passed_from_toward(center_x(accepted_rooms(props)[i - 1]), center_x(accepted_rooms(props)[i]), x0),
    ensures
        reachable(
            g,
            (center_y(accepted_rooms(props)[i - 1]), x0),
            (center_y(accepted_rooms(props)[i - 1]), center_x(accepted_rooms(props)[i])),
        ),
{
    let rooms = accepted_rooms(props);
    let a = rooms[i - 1];
    let b = rooms[i];
    let cy = center_y(a);
    lemma_rooms_ok(g, exit, props);
    lemma_open_walkable(g, exit, props);
    assert(proposal_ok(b, g.cols() as int, g.rows() as int));
    assert forall|x: int| (x0 <= x <= center_x(b) || center_x(b) <= x <= x0) implies #[trigger] walkable(g, cy, x) by {
        if x == center_x(b) {
            if cy == center_y(b) {
                assert(room_cell(rooms, i, cy, x));
            } else {
                assert(passed_from_toward(center_y(a), center_y(b), cy));
                assert(corridor_cell(rooms, i, cy, x));
            }
        } else {
            assert(passed_from_toward(center_x(a), center_x(b), x));
            assert(corridor_cell(rooms, i, cy, x));
        }
        assert(carved_floor(rooms, cy, x));
    }
    lemma_row_walk(g, cy, x0, center_x(b));
}

/// Every tile of corridor `i` reaches the centre of room `i`.
proof fn lemma_corridor_reaches_center(g: ByteGrid, exit: (usize, usize), props: Seq<Room>, i: int, c: (int, int))
    requires
        drawn_from(g, exit, props, props.len() as int),
        1 <= i < accepted_rooms(props).len(),
        corridor_cell(accepted_rooms(props), i, c.0, c.1),
    ensures
        reachable(g, c, room_center(accepted_rooms(props)[i])),
{
    let rooms = accepted_rooms(props);
    let a = rooms[i - 1];
    let b = rooms[i];
    if c.0 == center_y(a) && passed_from_toward(center_x(a), center_x(b), c.1) {
        lemma_row_leg(g, exit, props, i, c.1);
        lemma_column_leg(g, exit, props, i, center_y(a));
        lemma_reach_trans(g, c, (center_y(a), center_x(b)), room_center(b));
    } else {
        lemma_column_leg(g, exit, props, i, c.0);
    }
}

/// The centre of each kept room reaches the centre of the next one.
proof fn lemma_next_center(g: ByteGrid, exit: (usize, usize), props: Seq<Room>, i: int)
    requires
        drawn_from(g, exit, props, props.len() as int),
        1 <= i < accepted_rooms(props).len(),
    ensures
        reachable(g, room_center(accepted_rooms(props)[i - 1]), room_center(accepted_rooms(props)[i])),
{
    let rooms = accepted_rooms(props);
    let a = rooms[i - 1];
    let b = rooms[i];
    if center_x(a) != center_x(b) {
        assert(passed_from_toward(center_x(a), center_x(b), center_x(a)));
        assert(corridor_cell(rooms, i, center_y(a), center_x(a)));
        lemma_corridor_reaches_center(g, exit, props, i, room_center(a));
    } else {
        lemma_column_leg(g, exit, props, i, center_y(a));
    }
}

/// The centre of every kept room reaches the centre of the first one.
proof fn lemma_center_reaches_first(g: ByteGrid, exit: (usize, usize), props: Seq<Room>, k: int)
    requires
        drawn_from(g, exit, props, props.len() as int),
        0 <= k < accepted_rooms(props).len(),
    ensures
        reachable(g, room_center(accepted_rooms(props)[k]), room_center(accepted_rooms(props)[0])),
    decreases k,
{
    let rooms = accepted_rooms(props);
    if k == 0 {
        lemma_rooms_ok(g, exit, props);
        let r = rooms[0];
        assert(proposal_ok(r, g.cols() as int, g.rows() as int));
        lemma_room_reaches_center(g, exit, props, 0, room_center(r));
    } else {
        lemma_center_reaches_first(g, exit, props, k - 1);
        lemma_next_center(g, exit, props, k);
        lemma_reach_sym(g, room_center(rooms[k - 1]), room_center(rooms[k]));
        lemma_reach_trans(g, room_center(rooms[k]), room_center(rooms[k - 1]), room_center(rooms[0]));
    }
}

/// Every walkable tile of a generated map reaches one common tile: the centre
/// of the first kept room, or the corner of the fallback room.
proof fn lemma_reaches_hub(g: ByteGrid, exit: (usize, usize), props: Seq<Room>, a: (int, int)) -> (hub: (int, int))
    requires
        drawn_from(g, exit, props, props.len() as int),
        walkable(g, a.0, a.1),
    ensures
        reachable(g, a, hub),
        hub == (if props.len() == 0 {
            (5int, 5int)
        } else {
            room_center(accepted_rooms(props)[0])
        }),
{
    let w = g.cols() as int;
    let h = g.rows() as int;
    let rooms = accepted_rooms(props);
    lemma_open_walkable(g, exit, props);
    assert(generated_open(props, w, h, a.0, a.1));
    if props.len() == 0 {
        assert(in_fallback_room(h, w, a.0, a.1));
        let y1 = if h < 15 { h } else { 15 };
        let x1 = if w < 15 { w } else { 15 };
        assert forall|y: int, x: int| 5 <= y < y1 && 5 <= x < x1 implies #[trigger] walkable(g, y, x) by {
            assert(in_fallback_room(h, w, y, x));
        }
        lemma_rect_walk(g, 5, y1, 5, x1, a, (5, 5));
        (5, 5)
    } else {
        assert(carved_floor(rooms, a.0, a.1));
        if in_some_room(rooms, rooms.len() as int, a.0, a.1) {
            let k = choose|k: int| 0 <= k < rooms.len() && #[trigger] room_cell(rooms, k, a.0, a.1);
            lemma_room_reaches_center(g, exit, props, k, a);
            lemma_center_reaches_first(g, exit, props, k);
            lemma_reach_trans(g, a, room_center(rooms[k]), room_center(rooms[0]));
        } else {
            let i = choose|i: int| 1 <= i < rooms.len() && #[trigger] corridor_cell(rooms, i, a.0, a.1);
            lemma_corridor_reaches_center(g, exit, props, i, a);
            lemma_center_reaches_first(g, exit, props, i);
            lemma_reach_trans(g, a, room_center(rooms[i]), room_center(rooms[0]));
        }
        room_center(rooms[0])
    }
}

/// A generated dungeon is connected: any walkable tile can be reached from
/// any other by steps between side-by-side walkable tiles; in particular the
/// exit can be reached from the start.
pub proof fn lemma_generated_map_connected(
    g: ByteGrid,
    exit: (usize, usize),
    props: Seq<Room>,
    a: (int, int),
    b: (int, int),
)
    requires
        drawn_from(g, exit, props, props.len() as int),
        walkable(g, a.0, a.1),
        walkable(g, b.0, b.1),
    ensures
        reachable(g, a, b),
{
    let hub = lemma_reaches_hub(g, exit, props, a);
    let hub2 = lemma_reaches_hub(g, exit, props, b);
    assert(hub == hub2);
    lemma_reach_sym(g, b, hub);
    lemma_reach_trans(g, a, hub, b);
}

} // verus!
