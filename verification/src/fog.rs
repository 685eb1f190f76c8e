//! Fog of war: which tiles the player has seen and which it has walked near.
use vstd::prelude::*;
use crate::grid::BoolGrid;

verus! {

/// Tile `(x, y)` lies within `radius` of `(cx, cy)`: both offsets at most
/// `radius` and the squared distance at most `radius² + radius`. For whole
/// offsets this is the test "distance ≤ radius + 0.5".
pub open spec fn in_sight_disk(cx: int, cy: int, radius: int, y: int, x: int) -> bool {
    let dx = x - cx;
    let dy = y - cy;
    &&& -radius <= dx <= radius
    &&& -radius <= dy <= radius
    &&& dx * dx + dy * dy <= radius * radius + radius
}

/// The tile is revealed by `reveal_area`: inside the first `w` columns and
/// `h` rows and within the sight disk.
pub open spec fn revealed_cell(cx: int, cy: int, radius: int, w: int, h: int, y: int, x: int) -> bool {
    0 <= x < w && 0 <= y < h && in_sight_disk(cx, cy, radius, y, x)
}

/// The tile is marked by `mark_visited`: inside the first `w` columns and
/// `h` rows and at most one step from `(cx, cy)` on each axis.
pub open spec fn visited_cell(cx: int, cy: int, w: int, h: int, y: int, x: int) -> bool {
    0 <= x < w && 0 <= y < h && cx - 1 <= x <= cx + 1 && cy - 1 <= y <= cy + 1
}

proof fn lemma_square_bound(v: int)
    requires
        -0x7fff_ffff <= v <= 0x7fff_ffff,
    ensures
        0 <= v * v <= 0x3fff_ffff_0000_0001,
{
    assert(0 <= v * v <= 0x3fff_ffff_0000_0001) by (nonlinear_arith)
        requires
            -0x7fff_ffff <= v <= 0x7fff_ffff,
    ;
}

/// A tile is revealed exactly when it lies in the first `w` columns and `h`
/// rows, the radius is not negative, and its squared distance from
/// `(cx, cy)` (column `cx`, row `cy`) is at most `radius² + radius`; the
/// offset bounds of `in_sight_disk` follow from the distance test.
pub proof fn lemma_revealed_cell_is_disk(cx: int, cy: int, radius: int, w: int, h: int, y: int, x: int)
    ensures
        revealed_cell(cx, cy, radius, w, h, y, x) <==> (0 <= x < w && 0 <= y < h && radius >= 0 && (x - cx) * (x
            - cx) + (y - cy) * (y - cy) <= radius * radius + radius),
{
    let dx = x - cx;
    let dy = y - cy;
    if radius >= 0 && dx * dx + dy * dy <= radius * radius + radius {
        assert(-radius <= dx <= radius && -radius <= dy <= radius) by (nonlinear_arith)
            requires
                radius >= 0,
                dx * dx + dy * dy <= radius * radius + radius,
        {
            assert(dy * dy >= 0);
            assert(dx * dx >= 0);
            if dx > radius {
                assert(dx * dx >= (radius + 1) * (radius + 1));
            }
            if dx < -radius {
                assert(dx * dx >= (radius + 1) * (radius + 1));
            }
            if dy > radius {
                assert(dy * dy >= (radius + 1) * (radius + 1));
            }
            if dy < -radius {
                assert(dy * dy >= (radius + 1) * (radius + 1));
            }
        }
    }
}

/// Marks as explored every tile within `radius` of `(cx, cy)` (see
/// `in_sight_disk`) that lies in the first `w` columns and `h` rows.
pub fn reveal_area(explored: &mut BoolGrid, cx: isize, cy: isize, radius: i32, w: usize, h: usize)
    requires
        radius >= 0 ==> cx - radius >= isize::MIN && cx + radius <= isize::MAX && cy - radius >= isize::MIN && cy
            + radius <= isize::MAX,
        forall|y: int, x: int|
            #[trigger] revealed_cell(cx as int, cy as int, radius as int, w as int, h as int, y, x) ==> old(explored).in_bounds(y, x),
    ensures
        final(explored).rows() == old(explored).rows(),
        final(explored).cols() == old(explored).cols(),
        forall|y: int, x: int| #[trigger] final(explored).at(y, x) == if revealed_cell(
            cx as int,
            cy as int,
            radius as int,
            w as int,
            h as int,
            y,
            x,
        ) {
            true
        } else {
            old(explored).at(y, x)
        },
        forall|y: int, x: int|
            #[trigger] final(explored).at(y, x) && !old(explored).at(y, x) ==> 0 <= x < w && 0 <= y < h && (x - cx) * (x
                - cx) + (y - cy) * (y - cy) <= radius * radius + radius,
        forall|y: int, x: int|
            0 <= x < w && 0 <= y < h && radius >= 0 && (x - cx) * (x - cx) + (y - cy) * (y - cy) <= radius * radius
                + radius ==> #[trigger] final(explored).at(y, x),
        radius >= 0 && 0 <= cx < w && 0 <= cy < h ==> final(explored).at(cy as int, cx as int),
{
    proof {
        assert forall|y: int, x: int|
            #[trigger] revealed_cell(cx as int, cy as int, radius as int, w as int, h as int, y, x) <==> (0 <= x < w && 0
                <= y < h && radius >= 0 && (x - cx) * (x - cx) + (y - cy) * (y - cy) <= radius * radius + radius) by {
            lemma_revealed_cell_is_disk(cx as int, cy as int, radius as int, w as int, h as int, y, x);
        }
        lemma_revealed_cell_is_disk(cx as int, cy as int, radius as int, w as int, h as int, cy as int, cx as int);
    }
    let ghost g0 = *explored;
    if radius < 0 {
        assert forall|y: int, x: int| #[trigger] explored.at(y, x) == if revealed_cell(
            cx as int,
            cy as int,
            radius as int,
            w as int,
            h as int,
            y,
            x,
        ) {
            true
        } else {
            g0.at(y, x)
        } by {}
        return;
    }
    let r = radius as isize;
    proof {
        lemma_square_bound(radius as int);
    }
    let rr: i128 = (radius as i128) * (radius as i128);
    let mut dy: i64 = -(radius as i64);
    while dy <= radius as i64
        invariant
            0 <= radius,
            r == radius,
            rr == radius * radius,
            rr <= 0x3fff_ffff_0000_0001,
            -r <= dy <= r + 1,
            cx - r >= isize::MIN && cx + r <= isize::MAX && cy - r >= isize::MIN && cy + r <= isize::MAX,
            forall|y: int, x: int|
                #[trigger] revealed_cell(cx as int, cy as int, radius as int, w as int, h as int, y, x) ==> g0.in_bounds(y, x),
            explored.rows() == g0.rows(),
            explored.cols() == g0.cols(),
            forall|y: int, x: int| #[trigger] explored.at(y, x) == if revealed_cell(
                cx as int,
                cy as int,
                radius as int,
                w as int,
                h as int,
                y,
                x,
            ) && y - cy < dy {
                true
            } else {
                g0.at(y, x)
            },
        decreases r + 1 - dy,
    {
        let mut dx: i64 = -(radius as i64);
        while dx <= radius as i64
            invariant
                0 <= radius,
                r == radius,
                rr == radius * radius,
                rr <= 0x3fff_ffff_0000_0001,
            rr <= 0x3fff_ffff_0000_0001,
                -r <= dy <= r,
                -r <= dx <= r + 1,
                cx - r >= isize::MIN && cx + r <= isize::MAX && cy - r >= isize::MIN && cy + r <= isize::MAX,
                forall|y: int, x: int|
                    #[trigger] revealed_cell(cx as int, cy as int, radius as int, w as int, h as int, y, x) ==> g0.in_bounds(y, x),
                explored.rows() == g0.rows(),
                explored.cols() == g0.cols(),
                forall|y: int, x: int| #[trigger] explored.at(y, x) == if revealed_cell(
                    cx as int,
                    cy as int,
                    radius as int,
                    w as int,
                    h as int,
                    y,
                    x,
                ) && (y - cy < dy || (y - cy == dy && x - cx < dx)) {
                    true
                } else {
                    g0.at(y, x)
                },
            decreases r + 1 - dx,
        {
            let gx = cx + dx as isize;
            let gy = cy + dy as isize;
            if gx >= 0 && gy >= 0 && (gx as usize) < w && (gy as usize) < h {
                let sx = dx as i128;
                let sy = dy as i128;
                proof {
                    lemma_square_bound(sx as int);
                    lemma_square_bound(sy as int);
                }
                let d = sx * sx + sy * sy;
                if d <= rr + (radius as i128) {
                    assert(revealed_cell(cx as int, cy as int, radius as int, w as int, h as int, gy as int, gx as int));
                    explored.set(gy as usize, gx as usize, true);
                }
            }
            dx = dx + 1;
        }
        dy = dy + 1;
    }
    proof {
        assert forall|y: int, x: int|
            0 <= x < w && 0 <= y < h && radius >= 0 && (x - cx) * (x - cx) + (y - cy) * (y - cy) <= radius * radius
                + radius implies #[trigger] explored.at(y, x) by {
            lemma_revealed_cell_is_disk(cx as int, cy as int, radius as int, w as int, h as int, y, x);
        }
    }
}

/// Marks as visited the tile `(cx, cy)` and its eight neighbours, where they
/// lie in the first `w` columns and `h` rows.
pub fn mark_visited(visited: &mut BoolGrid, cx: isize, cy: isize, w: usize, h: usize)
    requires
        cx - 1 >= isize::MIN && cx + 1 <= isize::MAX && cy - 1 >= isize::MIN && cy + 1 <= isize::MAX,
        forall|y: int, x: int| #[trigger] visited_cell(cx as int, cy as int, w as int, h as int, y, x) ==> old(visited).in_bounds(y, x),
    ensures
        final(visited).rows() == old(visited).rows(),
        final(visited).cols() == old(visited).cols(),
        forall|y: int, x: int| #[trigger] final(visited).at(y, x) == if visited_cell(
            cx as int,
            cy as int,
            w as int,
            h as int,
            y,
            x,
        ) {
            true
        } else {
            old(visited).at(y, x)
        },
{
    let ghost g0 = *visited;
    let mut dy: isize = -1;
    while dy <= 1
        invariant
            -1 <= dy <= 2,
            cx - 1 >= isize::MIN && cx + 1 <= isize::MAX && cy - 1 >= isize::MIN && cy + 1 <= isize::MAX,
            forall|y: int, x: int| #[trigger] visited_cell(cx as int, cy as int, w as int, h as int, y, x) ==> g0.in_bounds(y, x),
            visited.rows() == g0.rows(),
            visited.cols() == g0.cols(),
            forall|y: int, x: int| #[trigger] visited.at(y, x) == if visited_cell(cx as int, cy as int, w as int, h as int, y, x)
                && y - cy < dy {
                true
            } else {
                g0.at(y, x)
            },
        decreases 2 - dy,
    {
        let mut dx: isize = -1;
        while dx <= 1
            invariant
                -1 <= dy <= 1,
                -1 <= dx <= 2,
                cx - 1 >= isize::MIN && cx + 1 <= isize::MAX && cy - 1 >= isize::MIN && cy + 1 <= isize::MAX,
                forall|y: int, x: int| #[trigger] visited_cell(cx as int, cy as int, w as int, h as int, y, x) ==> g0.in_bounds(y, x),
                visited.rows() == g0.rows(),
                visited.cols() == g0.cols(),
                forall|y: int, x: int| #[trigger] visited.at(y, x) == if visited_cell(
                    cx as int,
                    cy as int,
                    w as int,
                    h as int,
                    y,
                    x,
                ) && (y - cy < dy || (y - cy == dy && x - cx < dx)) {
                    true
                } else {
                    g0.at(y, x)
                },
            decreases 2 - dx,
        {
            let gx = cx + dx;
            let gy = cy + dy;
            if gx >= 0 && gy >= 0 && (gx as usize) < w && (gy as usize) < h {
                assert(visited_cell(cx as int, cy as int, w as int, h as int, gy as int, gx as int));
                visited.set(gy as usize, gx as usize, true);
            }
            dx = dx + 1;
        }
        dy = dy + 1;
    }
}

} // verus!
