//! The pixel work of rendering: tile colours, the player's view, circles for
//! entities, nearest-neighbour resizing and the minimap.
//!
//! Images are row-major lists of RGB pixels, or of bytes (three per pixel).
use vstd::prelude::*;
use vstd::arithmetic::div_mod::lemma_fundamental_div_mod_converse;
use crate::entities::{WALL, FLOOR, DOOR, EXIT};
use crate::grid::{ByteGrid, BoolGrid};

verus! {

/// Offset `(dx, dy)` from the corner of a circle's bounding box of side
/// `2 * radius + 1` lies in the disk of that radius around the box's centre.
pub open spec fn in_circle_box(radius: int, dx: int, dy: int) -> bool {
    &&& 0 <= dx <= 2 * radius
    &&& 0 <= dy <= 2 * radius
    &&& (dx - radius) * (dx - radius) + (dy - radius) * (dy - radius) <= radius * radius
}

/// Pixel `(x, y)` of a `width` by `height` buffer is painted by `draw_circle`
/// at `(cx, cy)`: the disk is drawn in the box whose top-left corner is
/// `(cx, cy)`, clipped to the buffer.
pub open spec fn circle_painted(width: int, height: int, cx: int, cy: int, radius: int, y: int, x: int) -> bool {
    0 <= x < width && 0 <= y < height && in_circle_box(radius, x - cx, y - cy)
}

/// Paints the disk of `radius` whose bounding box has its top-left corner at
/// `(cx, cy)` into a row-major buffer `width` pixels wide, leaving out pixels
/// beyond `width` and `height`.
pub fn draw_circle(
    buffer: &mut [[u8; 3]],
    width: usize,
    height: usize,
    cx: usize,
    cy: usize,
    radius: usize,
    color: [u8; 3],
)
    requires
        2 * radius * radius <= isize::MAX,
        cx + 2 * radius <= usize::MAX,
        cy + 2 * radius <= usize::MAX,
        forall|y: int, x: int|
            #[trigger] circle_painted(width as int, height as int, cx as int, cy as int, radius as int, y, x) ==> y * width
                + x < old(buffer)@.len(),
    ensures
        final(buffer)@.len() == old(buffer)@.len(),
        forall|y: int, x: int|
            #[trigger] circle_painted(width as int, height as int, cx as int, cy as int, radius as int, y, x)
                ==> final(buffer)@[y * width + x] == color,
        forall|i: int|
            0 <= i < old(buffer)@.len() ==> #[trigger] final(buffer)@[i] == old(buffer)@[i] || (final(buffer)@[i] == color
                && circle_painted(width as int, height as int, cx as int, cy as int, radius as int, i / width as int, i
                % width as int)),
{
    let ghost b0 = buffer@;
    let blen = buffer.len();
    proof {
        assert(radius * radius <= 2 * radius * radius && radius * 2 <= 2 * radius * radius + 2) by (nonlinear_arith);
    }
    let r2 = radius * radius;
    let side = radius * 2;
    let mut dy: usize = 0;
    while dy <= side
        invariant
            side == 2 * radius,
            r2 == radius * radius,
            2 * radius * radius <= isize::MAX,
            cx + 2 * radius <= usize::MAX,
            cy + 2 * radius <= usize::MAX,
            dy <= side + 1,
            buffer@.len() == b0.len(),
            blen == b0.len(),
            forall|y: int, x: int|
                #[trigger] circle_painted(width as int, height as int, cx as int, cy as int, radius as int, y, x) ==> y
                    * width + x < b0.len(),
            forall|y: int, x: int|
                #[trigger] circle_painted(width as int, height as int, cx as int, cy as int, radius as int, y, x) && y - cy
                    < dy ==> buffer@[y * width + x] == color,
            forall|i: int|
                0 <= i < b0.len() ==> #[trigger] buffer@[i] == b0[i] || (buffer@[i] == color && circle_painted(
                    width as int,
                    height as int,
                    cx as int,
                    cy as int,
                    radius as int,
                    i / width as int,
                    i % width as int,
                )),
        decreases side + 1 - dy,
    {
        let mut dx: usize = 0;
        while dx <= side
            invariant
                side == 2 * radius,
                r2 == radius * radius,
                2 * radius * radius <= isize::MAX,
                cx + 2 * radius <= usize::MAX,
                cy + 2 * radius <= usize::MAX,
                dy <= side,
                dx <= side + 1,
                buffer@.len() == b0.len(),
                blen == b0.len(),
            blen == b0.len(),
                forall|y: int, x: int|
                    #[trigger] circle_painted(width as int, height as int, cx as int, cy as int, radius as int, y, x) ==> y
                        * width + x < b0.len(),
                forall|y: int, x: int|
                    #[trigger] circle_painted(width as int, height as int, cx as int, cy as int, radius as int, y, x) && (y
                        - cy < dy || (y - cy == dy && x - cx < dx)) ==> buffer@[y * width + x] == color,
                forall|i: int|
                    0 <= i < b0.len() ==> #[trigger] buffer@[i] == b0[i] || (buffer@[i] == color && circle_painted(
                        width as int,
                        height as int,
                        cx as int,
                        cy as int,
                        radius as int,
                        i / width as int,
                        i % width as int,
                    )),
            decreases side + 1 - dx,
        {
            let ddx = dx as i128 - radius as i128;
            let ddy = dy as i128 - radius as i128;
            proof {
                let rr = radius as int;
                let a = ddx as int;
                let b = ddy as int;
                assert(0 <= a * a <= rr * rr) by (nonlinear_arith)
                    requires
                        -rr <= a <= rr,
                ;
                assert(0 <= b * b <= rr * rr) by (nonlinear_arith)
                    requires
                        -rr <= b <= rr,
                ;
                assert(rr * rr <= usize::MAX);
            }
            if ddx * ddx + ddy * ddy <= r2 as i128 {
                let x = cx + dx;
                let y = cy + dy;
                if x < width && y < height {
                    assert(circle_painted(width as int, height as int, cx as int, cy as int, radius as int, y as int, x as int));
                    let idx = y * width + x;
                    let ghost before = buffer@;
                    buffer[idx] = color;
                    proof {
                        lemma_fundamental_div_mod_converse(idx as int, width as int, y as int, x as int);
                        assert forall|yy: int, xx: int|
                            #[trigger] circle_painted(width as int, height as int, cx as int, cy as int, radius as int, yy, xx)
                                && (yy - cy < dy || (yy - cy == dy && xx - cx < dx + 1)) implies buffer@[yy * width + xx]
                            == color by {
                            if yy != y || xx != x {
                                assert(yy * width + xx != idx) by (nonlinear_arith)
                                    requires
                                        0 <= xx < width,
                                        0 <= x < width,
                                        yy != y || xx != x,
                                        idx == y * width + x,
                                ;
                            }
                        }
                    }
                }
            }
            dx = dx + 1;
        }
        dy = dy + 1;
    }
}

/// Row `y` of an image whose pixel at row `y`, column `x` is `f(y, x)`, up to
/// column `k`.
pub open spec fn pixel_row(y: int, k: int, f: spec_fn(int, int) -> [u8; 3]) -> Seq<[u8; 3]>
    decreases k,
{
    if k <= 0 {
        seq![]
    } else {
        pixel_row(y, k - 1, f).push(f(y, k - 1))
    }
}

/// The first `r` rows, `w` pixels each, of the image given by `f`, in
/// row-major order.
pub open spec fn pixel_image(w: int, r: int, f: spec_fn(int, int) -> [u8; 3]) -> Seq<[u8; 3]>
    decreases r,
{
    if r <= 0 {
        seq![]
    } else {
        pixel_image(w, r - 1, f) + pixel_row(r - 1, w, f)
    }
}

/// The three bytes of a pixel.
pub open spec fn rgb(c: [u8; 3]) -> Seq<u8> {
    seq![c[0], c[1], c[2]]
}

/// Row `y` of the image given by `f`, as bytes, up to column `k`.
pub open spec fn byte_row(y: int, k: int, f: spec_fn(int, int) -> [u8; 3]) -> Seq<u8>
    decreases k,
{
    if k <= 0 {
        seq![]
    } else {
        byte_row(y, k - 1, f) + rgb(f(y, k - 1))
    }
}

/// The first `r` rows, `w` pixels each, of the image given by `f`, as bytes
/// (red, green, blue per pixel) in row-major order.
pub open spec fn byte_image(w: int, r: int, f: spec_fn(int, int) -> [u8; 3]) -> Seq<u8>
    decreases r,
{
    if r <= 0 {
        seq![]
    } else {
        byte_image(w, r - 1, f) + byte_row(r - 1, w, f)
    }
}

proof fn lemma_pixel_row(y: int, k: int, f: spec_fn(int, int) -> [u8; 3])
    requires
        0 <= k,
    ensures
        pixel_row(y, k, f).len() == k,
        forall|x: int| 0 <= x < k ==> #[trigger] pixel_row(y, k, f)[x] == f(y, x),
    decreases k,
{
    if k > 0 {
        lemma_pixel_row(y, k - 1, f);
    }
}

/// An image given by `f` has `w * h` pixels, the one at row `y`, column `x`
/// at position `y * w + x`.
pub proof fn lemma_pixel_image(w: int, h: int, f: spec_fn(int, int) -> [u8; 3])
    requires
        0 <= w,
        0 <= h,
    ensures
        pixel_image(w, h, f).len() == w * h,
        forall|y: int, x: int| 0 <= y < h && 0 <= x < w ==> #[trigger] pixel_image(w, h, f)[y * w + x] == f(y, x),
    decreases h,
{
    if h > 0 {
        lemma_pixel_image(w, h - 1, f);
        lemma_pixel_row(h - 1, w, f);
        let a = pixel_image(w, h - 1, f);
        let b = pixel_row(h - 1, w, f);
        assert(w * (h - 1) + w == w * h) by (nonlinear_arith);
        assert(a.len() == w * (h - 1));
        assert forall|y: int, x: int| 0 <= y < h && 0 <= x < w implies #[trigger] pixel_image(w, h, f)[y * w + x] == f(y, x) by {
            if y < h - 1 {
                assert(y * w + x < w * (h - 1)) by (nonlinear_arith)
                    requires
                        0 <= y < h - 1,
                        0 <= x < w,
                ;
                assert((a + b)[y * w + x] == a[y * w + x]);
            } else {
                assert(y * w + x == w * (h - 1) + x) by (nonlinear_arith)
                    requires
                        y == h - 1,
                ;
                assert((a + b)[y * w + x] == b[x]);
            }
        }
    } else {
        assert(w * h == 0) by (nonlinear_arith)
            requires
                h == 0,
        ;
    }
}

proof fn lemma_byte_row(y: int, k: int, f: spec_fn(int, int) -> [u8; 3])
    requires
        0 <= k,
    ensures
        byte_row(y, k, f).len() == 3 * k,
        forall|x: int, c: int| 0 <= x < k && 0 <= c < 3 ==> #[trigger] byte_row(y, k, f)[3 * x + c] == f(y, x)[c],
    decreases k,
{
    if k > 0 {
        lemma_byte_row(y, k - 1, f);
        let a = byte_row(y, k - 1, f);
        let b = rgb(f(y, k - 1));
        assert forall|x: int, c: int| 0 <= x < k && 0 <= c < 3 implies #[trigger] byte_row(y, k, f)[3 * x + c] == f(y, x)[c] by {
            if x < k - 1 {
                assert((a + b)[3 * x + c] == a[3 * x + c]);
            } else {
                assert((a + b)[3 * x + c] == b[c]);
            }
        }
    }
}

/// An image given by `f`, as bytes, has `3 * w * h` bytes; the colour
/// channel `c` of the pixel at row `y`, column `x` is at `3 * (y * w + x) + c`.
pub proof fn lemma_byte_image(w: int, h: int, f: spec_fn(int, int) -> [u8; 3])
    requires
        0 <= w,
        0 <= h,
    ensures
        byte_image(w, h, f).len() == 3 * (w * h),
        forall|y: int, x: int, c: int|
            0 <= y < h && 0 <= x < w && 0 <= c < 3 ==> #[trigger] byte_image(w, h, f)[3 * (y * w + x) + c] == f(y, x)[c],
    decreases h,
{
    if h > 0 {
        lemma_byte_image(w, h - 1, f);
        lemma_byte_row(h - 1, w, f);
        let a = byte_image(w, h - 1, f);
        let b = byte_row(h - 1, w, f);
        assert(3 * (w * (h - 1)) + 3 * w == 3 * (w * h)) by (nonlinear_arith);
        assert(a.len() == 3 * (w * (h - 1)));
        assert forall|y: int, x: int, c: int| 0 <= y < h && 0 <= x < w && 0 <= c < 3 implies #[trigger] byte_image(
            w,
            h,
            f,
        )[3 * (y * w + x) + c] == f(y, x)[c] by {
            if y < h - 1 {
                assert(y * w + x < w * (h - 1)) by (nonlinear_arith)
                    requires
                        0 <= y < h - 1,
                        0 <= x < w,
                ;
                assert((a + b)[3 * (y * w + x) + c] == a[3 * (y * w + x) + c]);
            } else {
                assert(3 * (y * w + x) + c == 3 * (w * (h - 1)) + 3 * x + c) by (nonlinear_arith)
                    requires
                        y == h - 1,
                ;
                assert((a + b)[3 * (y * w + x) + c] == b[3 * x + c]);
            }
        }
    } else {
        assert(w * h == 0) by (nonlinear_arith)
            requires
                h == 0,
        ;
    }
}

/// The source coordinate sampled for destination coordinate `x` when
/// resizing `src_w` to `dst_w`: `x * src_w / dst_w` rounded down, at most
/// `src_w - 1`.
pub open spec fn resize_source(x: int, src_w: int, dst_w: int) -> int {
    let s = x * src_w / dst_w;
    if s < src_w - 1 { s } else { src_w - 1 }
}

/// The pixel at row `y`, column `x` of a `src_w` by `src_h` image resized to
/// `dst_w` by `dst_h` by nearest-neighbour sampling.
pub open spec fn resized_pixel(src: Seq<[u8; 3]>, src_w: int, src_h: int, dst_w: int, dst_h: int, y: int, x: int) -> [u8; 3] {
    src[resize_source(y, src_h, dst_h) * src_w + resize_source(x, src_w, dst_w)]
}

/// Resizing an image to its own size gives it back: every pixel samples
/// itself.
pub proof fn lemma_resize_same_size(src: Seq<[u8; 3]>, w: int, h: int, y: int, x: int)
    requires
        0 <= y < h,
        0 <= x < w,
    ensures
        resized_pixel(src, w, h, w, h, y, x) == src[y * w + x],
{
    vstd::arithmetic::div_mod::lemma_div_by_multiple(x, w);
    vstd::arithmetic::div_mod::lemma_div_by_multiple(y, h);
}

/// An image of RGB pixels as bytes, three per pixel, in order.
pub open spec fn flat_bytes(src: Seq<[u8; 3]>) -> Seq<u8> {
    Seq::new(3 * src.len(), |k: int| src[k / 3][k % 3])
}

/// A `w` by `h` image given by `f` whose pixel `(x, y)` is pixel `y * w + x`
/// of `src` is, as bytes, `src` flattened.
proof fn lemma_image_is_flat(w: int, h: int, f: spec_fn(int, int) -> [u8; 3], src: Seq<[u8; 3]>)
    requires
        0 <= w,
        0 <= h,
        src.len() == w * h,
        forall|y: int, x: int| 0 <= y < h && 0 <= x < w ==> #[trigger] f(y, x) == src[y * w + x],
    ensures
        byte_image(w, h, f) == flat_bytes(src),
{
    lemma_byte_image(w, h, f);
    let img = byte_image(w, h, f);
    assert forall|k: int| 0 <= k < img.len() implies #[trigger] img[k] == flat_bytes(src)[k] by {
        let p = k / 3;
        let c = k % 3;
        vstd::arithmetic::div_mod::lemma_fundamental_div_mod(k, 3);
        assert(0 <= p < w * h);
        assert(w > 0) by (nonlinear_arith)
            requires
                0 <= p < w * h,
                0 <= h,
        ;
        let y = p / w;
        let x = p % w;
        vstd::arithmetic::div_mod::lemma_fundamental_div_mod(p, w);
        assert(0 <= y < h) by (nonlinear_arith)
            requires
                w > 0,
                0 <= p < w * h,
                p == w * y + x,
                0 <= x < w,
        ;
        assert(k == 3 * (y * w + x) + c) by (nonlinear_arith)
            requires
                k == 3 * p + c,
                p == w * y + x,
        ;
        assert(img[3 * (y * w + x) + c] == f(y, x)[c]);
    }
    assert(img =~= flat_bytes(src));
}

/// Resizing a `w` by `h` image to its own size gives back its bytes in
/// order, for any size; `bilinear_resize` returns exactly this image (it
/// asks only that the result's `3 * w * h` bytes can be allocated, which
/// holds for any image that exists in memory).
pub proof fn lemma_resize_same_size_is_flat(src: Seq<[u8; 3]>, w: int, h: int)
    requires
        0 <= w,
        0 <= h,
        src.len() == w * h,
    ensures
        byte_image(w, h, |y: int, x: int| resized_pixel(src, w, h, w, h, y, x)) == flat_bytes(src),
{
    let f = |y: int, x: int| resized_pixel(src, w, h, w, h, y, x);
    assert forall|y: int, x: int| 0 <= y < h && 0 <= x < w implies #[trigger] f(y, x) == src[y * w + x] by {
        lemma_resize_same_size(src, w, h, y, x);
    }
    lemma_image_is_flat(w, h, f, src);
}

fn resize_index(x: usize, src_w: usize, dst_w: usize) -> (s: usize)
    requires
        x < dst_w,
        0 < src_w,
    ensures
        s == resize_source(x as int, src_w as int, dst_w as int),
        s < src_w,
{
    proof {
        assert((x as int) * (src_w as int) / (dst_w as int) <= src_w) by (nonlinear_arith)
            requires
                x < dst_w,
                0 < src_w,
        ;
        assert(0 <= (x as int) * (src_w as int) / (dst_w as int)) by (nonlinear_arith)
            requires
                0 <= x,
                0 < dst_w,
                0 < src_w,
        ;
        assert((x as u128) * (src_w as u128) <= 0xffff_ffff_ffff_ffff_ffff_ffff_ffff_ffffu128) by (nonlinear_arith)
            requires
                x <= 0xffff_ffff_ffff_ffff,
                src_w <= 0xffff_ffff_ffff_ffff,
        ;
    }
    let s = ((x as u128) * (src_w as u128) / (dst_w as u128)) as usize;
    if s < src_w - 1 { s } else { src_w - 1 }
}

/// Resizes a `src_w` by `src_h` image to `dst_w` by `dst_h` by
/// nearest-neighbour sampling (pixel `(x, y)` takes source pixel
/// `(x * src_w / dst_w, y * src_h / dst_h)`, clamped) and returns it as bytes.
pub fn bilinear_resize(src: &[[u8; 3]], src_w: usize, src_h: usize, dst_w: usize, dst_h: usize) -> (dst: Vec<u8>)
    requires
        dst_w == 0 || dst_h == 0 || (src_w > 0 && src_h > 0 && src_w * src_h <= src@.len()),
        3 * (dst_w * dst_h) <= isize::MAX,
    ensures
        dst@ == byte_image(
            dst_w as int,
            dst_h as int,
            |y: int, x: int| resized_pixel(src@, src_w as int, src_h as int, dst_w as int, dst_h as int, y, x),
        ),
        src_w == dst_w && src_h == dst_h && src@.len() == src_w * src_h ==> dst@ == flat_bytes(src@),
{
    let ghost f = |y: int, x: int| resized_pixel(src@, src_w as int, src_h as int, dst_w as int, dst_h as int, y, x);
    proof {
        if src_w == dst_w && src_h == dst_h && src@.len() == src_w * src_h {
            assert forall|y: int, x: int| 0 <= y < src_h && 0 <= x < src_w implies #[trigger] f(y, x) == src@[y
                * src_w + x] by {
                lemma_resize_same_size(src@, src_w as int, src_h as int, y, x);
            }
            lemma_image_is_flat(src_w as int, src_h as int, f, src@);
        }
    }
    let slen = src.len();
    let mut dst: Vec<u8> = Vec::new();
    let mut y: usize = 0;
    while y < dst_h
        invariant
            y <= dst_h,
            dst_w == 0 || dst_h == 0 || (src_w > 0 && src_h > 0 && src_w * src_h <= src@.len()),
            slen == src@.len(),
            f == (|y: int, x: int| resized_pixel(src@, src_w as int, src_h as int, dst_w as int, dst_h as int, y, x)),
            dst@ == byte_image(dst_w as int, y as int, f),
        decreases dst_h - y,
    {
        let mut x: usize = 0;
        while x < dst_w
            invariant
                y < dst_h,
                x <= dst_w,
                dst_w == 0 || dst_h == 0 || (src_w > 0 && src_h > 0 && src_w * src_h <= src@.len()),
                slen == src@.len(),
                f == (|y: int, x: int| resized_pixel(src@, src_w as int, src_h as int, dst_w as int, dst_h as int, y, x)),
                dst@ == byte_image(dst_w as int, y as int, f) + byte_row(y as int, x as int, f),
            decreases dst_w - x,
        {
            let sx = resize_index(x, src_w, dst_w);
            let sy = resize_index(y, src_h, dst_h);
            proof {
                assert(sy * src_w + sx < src_w * src_h) by (nonlinear_arith)
                    requires
                        sy < src_h,
                        sx < src_w,
                ;
            }
            let c = src[sy * src_w + sx];
            dst.push(c[0]);
            dst.push(c[1]);
            dst.push(c[2]);
            assert(dst@ =~= byte_image(dst_w as int, y as int, f) + byte_row(y as int, x + 1, f));
            x = x + 1;
        }
        assert(dst@ =~= byte_image(dst_w as int, y + 1, f));
        y = y + 1;
    }
    dst
}

/// Wall colour in the player's view.
pub const COLOR_WALL: [u8; 3] = [30, 40, 50];
/// Floor colour on tiles whose coordinates have an even sum.
pub const COLOR_FLOOR: [u8; 3] = [80, 85, 90];
/// Floor colour on tiles whose coordinates have an odd sum.
pub const COLOR_FLOOR_ALT: [u8; 3] = [70, 75, 80];
/// Door colour.
pub const COLOR_DOOR: [u8; 3] = [150, 100, 40];
/// Exit colour.
pub const COLOR_EXIT: [u8; 3] = [120, 220, 0];
/// Player colour.
pub const COLOR_PLAYER: [u8; 3] = [255, 200, 0];
/// Colour of an enemy not chasing the player.
pub const COLOR_ENEMY: [u8; 3] = [220, 0, 0];
/// Colour of an enemy chasing the player.
pub const COLOR_ENEMY_CHASE: [u8; 3] = [255, 0, 0];
/// Health pickup colour.
pub const COLOR_ITEM_HEALTH: [u8; 3] = [0, 255, 0];
/// Ammunition pickup colour.
pub const COLOR_ITEM_AMMO: [u8; 3] = [255, 200, 0];
/// Emerald pickup colour.
pub const COLOR_ITEM_EMERALD: [u8; 3] = [0, 180, 255];
/// Colour of tiles not yet explored.
pub const COLOR_FOG: [u8; 3] = [10, 15, 20];

/// The palette colour of a tile code: wall, floor, door, and exit for any
/// code from 3 up.
pub open spec fn tile_palette(code: u8) -> [u8; 3] {
    if code == WALL {
        COLOR_WALL
    } else if code == FLOOR {
        COLOR_FLOOR
    } else if code == DOOR {
        COLOR_DOOR
    } else {
        COLOR_EXIT
    }
}

/// The colour of map tile `(gx, gy)` in the player's view: fog when not
/// explored, a checkerboard of two shades on floor, the palette otherwise.
pub open spec fn view_cell_color(grid: ByteGrid, explored: BoolGrid, gy: int, gx: int) -> [u8; 3] {
    if !explored.at(gy, gx) {
        COLOR_FOG
    } else if grid.at(gy, gx) == FLOOR {
        if (gx + gy) % 2 == 0 { COLOR_FLOOR } else { COLOR_FLOOR_ALT }
    } else {
        tile_palette(grid.at(gy, gx))
    }
}

/// Tile `(tx, ty)` of the square view of radius `vr` centred on the
/// player's tile `(px, py)`: the colour of map tile
/// `(px - vr + tx, py - vr + ty)`, black outside the map.
pub open spec fn view_tile(grid: ByteGrid, explored: BoolGrid, px: int, py: int, vr: int, ty: int, tx: int) -> [u8; 3] {
    let gy = py - vr + ty;
    let gx = px - vr + tx;
    if grid.in_bounds(gy, gx) {
        view_cell_color(grid, explored, gy, gx)
    } else {
        [0u8, 0u8, 0u8]
    }
}

fn palette(code: u8) -> (c: [u8; 3])
    ensures
        c == tile_palette(code),
{
    if code == WALL {
        COLOR_WALL
    } else if code == FLOOR {
        COLOR_FLOOR
    } else if code == DOOR {
        COLOR_DOOR
    } else {
        COLOR_EXIT
    }
}

/// The colours of the `2 * view_radius + 1` square of tiles centred on the
/// player's tile `(px, py)`, row by row (see `view_tile`).
pub fn view_tile_colors(grid: &ByteGrid, explored: &BoolGrid, px: isize, py: isize, view_radius: i32) -> (colors: Vec<[u8; 3]>)
    requires
        0 <= view_radius,
        2 * view_radius + 1 <= isize::MAX,
        0 <= px,
        0 <= py,
        px + view_radius + 1 <= isize::MAX,
        py + view_radius + 1 <= isize::MAX,
        px - view_radius <= grid.cols(),
        py - view_radius <= grid.rows(),
        explored.rows() >= grid.rows(),
        explored.cols() >= grid.cols(),
    ensures
        colors@ == pixel_image(
            2 * view_radius + 1,
            2 * view_radius + 1,
            |ty: int, tx: int| view_tile(*grid, *explored, px as int, py as int, view_radius as int, ty, tx),
        ),
        colors@.len() == (2 * view_radius + 1) * (2 * view_radius + 1),
        forall|ty: int, tx: int|
            0 <= ty < 2 * view_radius + 1 && 0 <= tx < 2 * view_radius + 1 ==> {
                let gy = py - view_radius + ty;
                let gx = px - view_radius + tx;
                let c = #[trigger] colors@[ty * (2 * view_radius + 1) + tx];
                &&& !(0 <= gy < grid.rows() && 0 <= gx < grid.cols()) ==> c == [0u8, 0u8, 0u8]
                &&& 0 <= gy < grid.rows() && 0 <= gx < grid.cols() && !explored.at(gy, gx) ==> c == COLOR_FOG
                &&& 0 <= gy < grid.rows() && 0 <= gx < grid.cols() && explored.at(gy, gx) && grid.at(gy, gx) == FLOOR
                    ==> c == (if (gx + gy) % 2 == 0 { COLOR_FLOOR } else { COLOR_FLOOR_ALT })
                &&& 0 <= gy < grid.rows() && 0 <= gx < grid.cols() && explored.at(gy, gx) && grid.at(gy, gx) != FLOOR
                    ==> c == tile_palette(grid.at(gy, gx))
            },
{
    let ghost f = |ty: int, tx: int| view_tile(*grid, *explored, px as int, py as int, view_radius as int, ty, tx);
    let h = grid.nrows();
    let w = grid.ncols();
    let vr = view_radius as isize;
    let vd: usize = (view_radius as usize) * 2 + 1;
    let mut colors: Vec<[u8; 3]> = Vec::new();
    let mut ty: usize = 0;
    while ty < vd
        invariant
            ty <= vd,
            vd == 2 * view_radius + 1,
            2 * view_radius + 1 <= isize::MAX,
            vr == view_radius,
            0 <= view_radius,
            0 <= px,
            0 <= py,
            px + vr + 1 <= isize::MAX,
            py + vr + 1 <= isize::MAX,
            h == grid.rows(),
            w == grid.cols(),
            explored.rows() >= grid.rows(),
            explored.cols() >= grid.cols(),
            f == (|ty: int, tx: int| view_tile(*grid, *explored, px as int, py as int, view_radius as int, ty, tx)),
            colors@ == pixel_image(vd as int, ty as int, f),
        decreases vd - ty,
    {
        let mut tx: usize = 0;
        while tx < vd
            invariant
                ty < vd,
                tx <= vd,
                vd == 2 * view_radius + 1,
                2 * view_radius + 1 <= isize::MAX,
                vr == view_radius,
                0 <= view_radius,
                0 <= px,
                0 <= py,
                px + vr + 1 <= isize::MAX,
                py + vr + 1 <= isize::MAX,
                h == grid.rows(),
                w == grid.cols(),
                explored.rows() >= grid.rows(),
                explored.cols() >= grid.cols(),
                f == (|ty: int, tx: int| view_tile(*grid, *explored, px as int, py as int, view_radius as int, ty, tx)),
                colors@ == pixel_image(vd as int, ty as int, f) + pixel_row(ty as int, tx as int, f),
            decreases vd - tx,
        {
            let gy = py - vr + ty as isize;
            let gx = px - vr + tx as isize;
            let c = if gy >= 0 && gx >= 0 && (gy as usize) < h && (gx as usize) < w {
                let gyu = gy as usize;
                let gxu = gx as usize;
                if !explored.get(gyu, gxu) {
                    COLOR_FOG
                } else {
                    let t = grid.get(gyu, gxu);
                    if t == FLOOR {
                        if (gxu + gyu) % 2 == 0 {
                            COLOR_FLOOR
                        } else {
                            COLOR_FLOOR_ALT
                        }
                    } else {
                        palette(t)
                    }
                }
            } else {
                [0u8, 0u8, 0u8]
            };
            assert(c == f(ty as int, tx as int));
            colors.push(c);
            assert(colors@ =~= pixel_image(vd as int, ty as int, f) + pixel_row(ty as int, tx + 1, f));
            tx = tx + 1;
        }
        assert(colors@ =~= pixel_image(vd as int, ty + 1, f));
        ty = ty + 1;
    }
    proof {
        lemma_pixel_image(vd as int, vd as int, f);
    }
    colors
}

/// Scales a square of `vd` by `vd` tile colours up by `ts` pixels per tile:
/// pixel `(x, y)` of the `vd * ts` square takes the colour of tile
/// `(x / ts, y / ts)`.
pub fn upscale_tiles(tiles: &Vec<[u8; 3]>, vd: usize, ts: usize) -> (view: Vec<[u8; 3]>)
    requires
        0 < ts,
        vd * vd <= tiles@.len(),
        vd * ts <= usize::MAX,
    ensures
        view@ == pixel_image(
            (vd * ts) as int,
            (vd * ts) as int,
            |y: int, x: int| tiles@[(y / ts as int) * vd + x / ts as int],
        ),
{
    let vpx = vd * ts;
    let tlen = tiles.len();
    let ghost f = |y: int, x: int| tiles@[(y / ts as int) * vd + x / ts as int];
    let mut view: Vec<[u8; 3]> = Vec::new();
    let mut y: usize = 0;
    while y < vpx
        invariant
            y <= vpx,
            vpx == vd * ts,
            0 < ts,
            vd * vd <= tiles@.len(),
            tlen == tiles@.len(),
            f == (|y: int, x: int| tiles@[(y / ts as int) * vd + x / ts as int]),
            view@ == pixel_image(vpx as int, y as int, f),
        decreases vpx - y,
    {
        let mut x: usize = 0;
        while x < vpx
            invariant
                y < vpx,
                x <= vpx,
                vpx == vd * ts,
                0 < ts,
                vd * vd <= tiles@.len(),
                tlen == tiles@.len(),
                f == (|y: int, x: int| tiles@[(y / ts as int) * vd + x / ts as int]),
                view@ == pixel_image(vpx as int, y as int, f) + pixel_row(y as int, x as int, f),
            decreases vpx - x,
        {
            let tile_y = y / ts;
            let tile_x = x / ts;
            proof {
                assert(tile_y < vd && tile_x < vd) by (nonlinear_arith)
                    requires
                        y < vd * ts,
                        x < vd * ts,
                        0 < ts,
                        tile_y == y / ts,
                        tile_x == x / ts,
                ;
                assert(tile_y * vd + tile_x < vd * vd) by (nonlinear_arith)
                    requires
                        tile_y < vd,
                        tile_x < vd,
                ;
            }
            let c = tiles[tile_y * vd + tile_x];
            view.push(c);
            assert(view@ =~= pixel_image(vpx as int, y as int, f) + pixel_row(y as int, x + 1, f));
            x = x + 1;
        }
        assert(view@ =~= pixel_image(vpx as int, y + 1, f));
        y = y + 1;
    }
    view
}

/// The colour of an explored map tile on the maps of the whole level: dark
/// grey walls, grey floor and doors, green exit, a lighter green on visited
/// floor and exit; unexplored tiles and unknown codes are near black.
pub open spec fn map_cell_color(grid: ByteGrid, explored: BoolGrid, visited: BoolGrid, gy: int, gx: int) -> [u8; 3] {
    let t = grid.at(gy, gx);
    if !explored.at(gy, gx) {
        [10u8, 10u8, 10u8]
    } else if visited.at(gy, gx) && (t == FLOOR || t == EXIT) {
        [100u8, 140u8, 100u8]
    } else if t == WALL {
        [30u8, 30u8, 30u8]
    } else if t == FLOOR || t == DOOR {
        [60u8, 60u8, 60u8]
    } else if t == EXIT {
        [0u8, 100u8, 60u8]
    } else {
        [10u8, 10u8, 10u8]
    }
}

/// The colour marking the player on the maps of the whole level.
pub const COLOR_MAP_PLAYER: [u8; 3] = [0, 200, 255];

fn map_color(grid: &ByteGrid, explored: &BoolGrid, visited: &BoolGrid, gy: usize, gx: usize) -> (c: [u8; 3])
    requires
        grid.in_bounds(gy as int, gx as int),
        explored.in_bounds(gy as int, gx as int),
        visited.in_bounds(gy as int, gx as int),
    ensures
        c == map_cell_color(*grid, *explored, *visited, gy as int, gx as int),
{
    if !explored.get(gy, gx) {
        return [10u8, 10u8, 10u8];
    }
    let t = grid.get(gy, gx);
    if visited.get(gy, gx) && (t == FLOOR || t == EXIT) {
        [100u8, 140u8, 100u8]
    } else if t == WALL {
        [30u8, 30u8, 30u8]
    } else if t == FLOOR || t == DOOR {
        [60u8, 60u8, 60u8]
    } else if t == EXIT {
        [0u8, 100u8, 60u8]
    } else {
        [10u8, 10u8, 10u8]
    }
}

/// Tile `(gx, gy)` of the map of the whole level, with the player's tile
/// `(px, py)` marked.
pub open spec fn full_map_pixel(
    grid: ByteGrid,
    explored: BoolGrid,
    visited: BoolGrid,
    px: int,
    py: int,
    gy: int,
    gx: int,
) -> [u8; 3] {
    if gy == py && gx == px {
        COLOR_MAP_PLAYER
    } else {
        map_cell_color(grid, explored, visited, gy, gx)
    }
}

/// The map of the whole level (one pixel per tile, player marked when on the
/// map) resized to `output_w` by `output_h`, as bytes.
pub fn render_full_map(
    grid: &ByteGrid,
    explored: &BoolGrid,
    visited: &BoolGrid,
    px: usize,
    py: usize,
    output_w: usize,
    output_h: usize,
) -> (frame: Vec<u8>)
    requires
        explored.rows() >= grid.rows(),
        explored.cols() >= grid.cols(),
        visited.rows() >= grid.rows(),
        visited.cols() >= grid.cols(),
        output_w == 0 || output_h == 0 || (grid.rows() > 0 && grid.cols() > 0),
        3 * (output_w * output_h) <= isize::MAX,
    ensures
        frame@ == byte_image(
            output_w as int,
            output_h as int,
            |y: int, x: int|
                resized_pixel(
                    pixel_image(
                        grid.cols() as int,
                        grid.rows() as int,
                        |gy: int, gx: int| full_map_pixel(*grid, *explored, *visited, px as int, py as int, gy, gx),
                    ),
                    grid.cols() as int,
                    grid.rows() as int,
                    output_w as int,
                    output_h as int,
                    y,
                    x,
                ),
        ),
        output_w == grid.cols() && output_h == grid.rows() ==> frame@.len() == 3 * (output_w * output_h),
        output_w == grid.cols() && output_h == grid.rows() && py < grid.rows() && px < grid.cols() ==> forall|c: int|
            0 <= c < 3 ==> #[trigger] frame@[3 * (py * output_w + px) + c] == COLOR_MAP_PLAYER[c],
        output_w == grid.cols() && output_h == grid.rows() ==> forall|gy: int, gx: int, c: int|
            0 <= gy < grid.rows() && 0 <= gx < grid.cols() && 0 <= c < 3 && !(gy == py && gx == px) ==> #[trigger] frame@[3
                * (gy * output_w + gx) + c] == map_cell_color(*grid, *explored, *visited, gy, gx)[c],
{
    let h = grid.nrows();
    let w = grid.ncols();
    let ghost f = |gy: int, gx: int| full_map_pixel(*grid, *explored, *visited, px as int, py as int, gy, gx);
    let mut map: Vec<[u8; 3]> = Vec::new();
    let mut gy: usize = 0;
    while gy < h
        invariant
            gy <= h,
            h == grid.rows(),
            w == grid.cols(),
            explored.rows() >= grid.rows(),
            explored.cols() >= grid.cols(),
            visited.rows() >= grid.rows(),
            visited.cols() >= grid.cols(),
            f == (|gy: int, gx: int| full_map_pixel(*grid, *explored, *visited, px as int, py as int, gy, gx)),
            map@ == pixel_image(w as int, gy as int, f),
        decreases h - gy,
    {
        let mut gx: usize = 0;
        while gx < w
            invariant
                gy < h,
                gx <= w,
                h == grid.rows(),
                w == grid.cols(),
                explored.rows() >= grid.rows(),
                explored.cols() >= grid.cols(),
                visited.rows() >= grid.rows(),
                visited.cols() >= grid.cols(),
                f == (|gy: int, gx: int| full_map_pixel(*grid, *explored, *visited, px as int, py as int, gy, gx)),
                map@ == pixel_image(w as int, gy as int, f) + pixel_row(gy as int, gx as int, f),
            decreases w - gx,
        {
            let c = if gy == py && gx == px {
                COLOR_MAP_PLAYER
            } else {
                map_color(grid, explored, visited, gy, gx)
            };
            map.push(c);
            assert(map@ =~= pixel_image(w as int, gy as int, f) + pixel_row(gy as int, gx + 1, f));
            gx = gx + 1;
        }
        assert(map@ =~= pixel_image(w as int, gy + 1, f));
        gy = gy + 1;
    }
    proof {
        lemma_pixel_image(w as int, h as int, f);
    }
    let frame = bilinear_resize(map.as_slice(), w, h, output_w, output_h);
    proof {
        if output_w == w && output_h == h {
            let src = pixel_image(w as int, h as int, f);
            let g = |y: int, x: int| resized_pixel(src, w as int, h as int, output_w as int, output_h as int, y, x);
            lemma_byte_image(w as int, h as int, g);
            assert forall|gy: int, gx: int, c: int|
                0 <= gy < h && 0 <= gx < w && 0 <= c < 3 implies #[trigger] frame@[3 * (gy * output_w + gx) + c] == f(
                gy,
                gx,
            )[c] by {
                lemma_resize_same_size(src, w as int, h as int, gy, gx);
                assert(frame@[3 * (gy * w + gx) + c] == g(gy, gx)[c]);
            }
            if py < h && px < w {
                assert forall|c: int| 0 <= c < 3 implies #[trigger] frame@[3 * (py * output_w + px) + c]
                    == COLOR_MAP_PLAYER[c] by {
                    assert(frame@[3 * (py * output_w + px) + c] == f(py as int, px as int)[c]);
                }
            }
        }
    }
    frame
}

/// On the map of the whole level before resizing (one pixel per tile, row by
/// row), the pixel of the player's tile, column `px` of row `py`, has the
/// player colour when that tile lies on the map, and every other pixel, column
/// `gx` of row `gy`, has the map colour of tile `(gx, gy)`.
pub proof fn lemma_full_map_marks_player(grid: ByteGrid, explored: BoolGrid, visited: BoolGrid, px: int, py: int)
    ensures
        ({
            let w = grid.cols() as int;
            let h = grid.rows() as int;
            let img = pixel_image(w, h, |gy: int, gx: int| full_map_pixel(grid, explored, visited, px, py, gy, gx));
            &&& img.len() == w * h
            &&& 0 <= py < h && 0 <= px < w ==> img[py * w + px] == COLOR_MAP_PLAYER
            &&& forall|gy: int, gx: int|
                0 <= gy < h && 0 <= gx < w && !(gy == py && gx == px) ==> #[trigger] img[gy * w + gx] == map_cell_color(
                    grid,
                    explored,
                    visited,
                    gy,
                    gx,
                )
        }),
{
    let f = |gy: int, gx: int| full_map_pixel(grid, explored, visited, px, py, gy, gx);
    lemma_pixel_image(grid.cols() as int, grid.rows() as int, f);
    let w = grid.cols() as int;
    let h = grid.rows() as int;
    if 0 <= py < h && 0 <= px < w {
        assert(pixel_image(w, h, f)[py * w + px] == f(py, px));
    }
}

/// The side of the minimap box: a third of the frame height, at most 120.
pub open spec fn minimap_size(output_h: int) -> int {
    if 120 < output_h / 3 { 120 } else { output_h / 3 }
}

/// How many map tiles one minimap pixel stands for along each axis.
pub open spec fn minimap_scale(h: int, w: int, output_h: int) -> int {
    (if h < w { w } else { h }) / minimap_size(output_h) + 1
}

/// Minimap pixel `(mx, my)`: the map tile `(mx * scale, my * scale)`, or the
/// player marker on the pixel holding the player's tile `(px, py)` (clamped
/// into the minimap).
pub open spec fn minimap_pixel(
    grid: ByteGrid,
    explored: BoolGrid,
    visited: BoolGrid,
    scale: int,
    mm_w: int,
    mm_h: int,
    px: int,
    py: int,
    my: int,
    mx: int,
) -> [u8; 3] {
    let ppx = if px / scale < mm_w - 1 { px / scale } else { mm_w - 1 };
    let ppy = if py / scale < mm_h - 1 { py / scale } else { mm_h - 1 };
    if my == ppy && mx == ppx {
        COLOR_MAP_PLAYER
    } else {
        map_cell_color(grid, explored, visited, my * scale, mx * scale)
    }
}

/// A frame byte darkened to 30% with half of a minimap channel added.
pub open spec fn blend(bg: u8, m: u8) -> u8 {
    (bg * 3 / 10 + m / 2) as u8
}

/// Byte `i` of a frame `output_w` pixels wide after the minimap image `mm`
/// (`mm_w` by `mm_h`) is blended in with its top-left corner at `(fx0, fy0)`.
pub open spec fn overlaid_byte(
    old: Seq<u8>,
    output_w: int,
    output_h: int,
    fx0: int,
    fy0: int,
    mm_w: int,
    mm_h: int,
    mm: spec_fn(int, int) -> [u8; 3],
    i: int,
) -> u8 {
    let p = i / 3;
    let fy = p / output_w;
    let fx = p % output_w;
    if 0 <= i < 3 * (output_w * output_h) && fy0 <= fy < fy0 + mm_h && fx0 <= fx < fx0 + mm_w {
        blend(old[i], mm(fy - fy0, fx - fx0)[i % 3])
    } else {
        old[i]
    }
}

proof fn lemma_decode_byte(i: int, w: int, fy: int, fx: int, c: int)
    requires
        0 < w,
        0 <= fx < w,
        0 <= c < 3,
        i == 3 * (fy * w + fx) + c,
    ensures
        i / 3 == fy * w + fx,
        i % 3 == c,
        (i / 3) / w == fy,
        (i / 3) % w == fx,
{
    lemma_fundamental_div_mod_converse(i, 3, fy * w + fx, c);
    lemma_fundamental_div_mod_converse(fy * w + fx, w, fy, fx);
}

/// Blends the minimap of the level into the bottom-right corner of a frame
/// `output_w` by `output_h` pixels (bytes, three per pixel): each minimap
/// pixel stands for one tile in `scale` along each axis (see
/// `minimap_scale`), the player's tile `(px, py)` is marked, and each
/// covered frame byte becomes 30% of itself plus half the minimap channel.
/// The minimap sits 4 pixels from the right and bottom edges, or at the edge
/// when the frame is too small.
pub fn overlay_minimap(
    frame: &mut Vec<u8>,
    output_w: usize,
    output_h: usize,
    grid: &ByteGrid,
    explored: &BoolGrid,
    visited: &BoolGrid,
    px: usize,
    py: usize,
)
    requires
        3 <= output_h,
        3 * (output_w * output_h) <= old(frame)@.len(),
        explored.rows() >= grid.rows(),
        explored.cols() >= grid.cols(),
        visited.rows() >= grid.rows(),
        visited.cols() >= grid.cols(),
        (grid.cols() as int) / minimap_scale(grid.rows() as int, grid.cols() as int, output_h as int) >= 1,
        (grid.rows() as int) / minimap_scale(grid.rows() as int, grid.cols() as int, output_h as int) >= 1,
    ensures
        final(frame)@.len() == old(frame)@.len(),
        ({
            let scale = minimap_scale(grid.rows() as int, grid.cols() as int, output_h as int);
            let mm_w = (grid.cols() as int) / scale;
            let mm_h = (grid.rows() as int) / scale;
            let fy0 = if output_h >= mm_h + 4 { output_h - (mm_h + 4) } else { 0int };
            let fx0 = if output_w >= mm_w + 4 { output_w - (mm_w + 4) } else { 0int };
            forall|i: int|
                0 <= i < old(frame)@.len() ==> #[trigger] final(frame)@[i] == overlaid_byte(
                    old(frame)@,
                    output_w as int,
                    output_h as int,
                    fx0,
                    fy0,
                    mm_w,
                    mm_h,
                    |my: int, mx: int|
                        minimap_pixel(*grid, *explored, *visited, scale, mm_w, mm_h, px as int, py as int, my, mx),
                    i,
                )
        }),
        ({
            let rows = grid.rows() as int;
            let cols = grid.cols() as int;
            let side: int = if 120 < output_h / 3 { 120 } else { output_h as int / 3 };
            let scale: int = (if rows < cols { cols } else { rows }) / side + 1;
            let mm_w = cols / scale;
            let mm_h = rows / scale;
            let fy0 = if output_h >= mm_h + 4 { output_h - (mm_h + 4) } else { 0int };
            let fx0 = if output_w >= mm_w + 4 { output_w - (mm_w + 4) } else { 0int };
            let ppx: int = if (px as int) / scale < mm_w - 1 { (px as int) / scale } else { mm_w - 1 };
            let ppy: int = if (py as int) / scale < mm_h - 1 { (py as int) / scale } else { mm_h - 1 };
            &&& mm_w * scale <= cols < (mm_w + 1) * scale
            &&& mm_h * scale <= rows < (mm_h + 1) * scale
            &&& forall|i: int|
                0 <= i < old(frame)@.len() && !(i < 3 * (output_w * output_h) && fy0 <= (i / 3) / (output_w as int) < fy0
                    + mm_h && fx0 <= (i / 3) % (output_w as int) < fx0 + mm_w) ==> #[trigger] final(frame)@[i] == old(
                    frame,
                )@[i]
            &&& forall|my: int, mx: int, c: int|
                0 <= my < mm_h && 0 <= mx < mm_w && fy0 + my < output_h && fx0 + mx < output_w && 0 <= c < 3 ==> {
                    let i = 3 * ((fy0 + my) * output_w + fx0 + mx) + c;
                    let m = if my == ppy && mx == ppx {
                        COLOR_MAP_PLAYER[c]
                    } else {
                        map_cell_color(*grid, *explored, *visited, my * scale, mx * scale)[c]
                    };
                    #[trigger] final(frame)@[3 * ((fy0 + my) * output_w + fx0 + mx) + c] == (old(frame)@[i] * 3 / 10 + m
                        / 2) as u8
                }
        }),
{
    let ghost f0 = frame@;
    let flen = frame.len();
    let h = grid.nrows();
    let w = grid.ncols();
    let mm_size: usize = if 120 < output_h / 3 { 120 } else { output_h / 3 };
    let big = if h < w { w } else { h };
    proof {
        assert(h >= 1 && w >= 1);
        assert(h <= isize::MAX && w <= isize::MAX) by (nonlinear_arith)
            requires
                h >= 1,
                w >= 1,
                h * w <= isize::MAX,
        ;
    }
    let scale = big / mm_size + 1;
    let mm_w = w / scale;
    let mm_h = h / scale;
    proof {
        assert(mm_w * scale <= w && mm_h * scale <= h) by (nonlinear_arith)
            requires
                mm_w == w / scale,
                mm_h == h / scale,
                scale > 0,
        ;
    }
    let ghost mmf = |my: int, mx: int| minimap_pixel(*grid, *explored, *visited, scale as int, mm_w as int, mm_h as int, px as int, py as int, my, mx);
    let ppx = if px / scale < mm_w - 1 { px / scale } else { mm_w - 1 };
    let ppy = if py / scale < mm_h - 1 { py / scale } else { mm_h - 1 };
    let mut mm: Vec<[u8; 3]> = Vec::new();
    let mut my: usize = 0;
    while my < mm_h
        invariant
            my <= mm_h,
            mm_w * scale <= w,
            mm_h * scale <= h,
            0 < scale,
            h == grid.rows(),
            w == grid.cols(),
            explored.rows() >= grid.rows(),
            explored.cols() >= grid.cols(),
            visited.rows() >= grid.rows(),
            visited.cols() >= grid.cols(),
            1 <= mm_w,
            1 <= mm_h,
            ppx == (if px / scale < mm_w - 1 { px / scale } else { (mm_w - 1) as usize }),
            ppy == (if py / scale < mm_h - 1 { py / scale } else { (mm_h - 1) as usize }),
            mmf == (|my: int, mx: int| minimap_pixel(*grid, *explored, *visited, scale as int, mm_w as int, mm_h as int, px as int, py as int, my, mx)),
            mm@ == pixel_image(mm_w as int, my as int, mmf),
        decreases mm_h - my,
    {
        let mut mx: usize = 0;
        while mx < mm_w
            invariant
                my < mm_h,
                mx <= mm_w,
                mm_w * scale <= w,
                mm_h * scale <= h,
                0 < scale,
                h == grid.rows(),
                w == grid.cols(),
                explored.rows() >= grid.rows(),
                explored.cols() >= grid.cols(),
                visited.rows() >= grid.rows(),
                visited.cols() >= grid.cols(),
                1 <= mm_w,
                1 <= mm_h,
                ppx == (if px / scale < mm_w - 1 { px / scale } else { (mm_w - 1) as usize }),
                ppy == (if py / scale < mm_h - 1 { py / scale } else { (mm_h - 1) as usize }),
                mmf == (|my: int, mx: int| minimap_pixel(*grid, *explored, *visited, scale as int, mm_w as int, mm_h as int, px as int, py as int, my, mx)),
                mm@ == pixel_image(mm_w as int, my as int, mmf) + pixel_row(my as int, mx as int, mmf),
            decreases mm_w - mx,
        {
            proof {
                assert(my * scale < h && mx * scale < w) by (nonlinear_arith)
                    requires
                        my < mm_h,
                        mx < mm_w,
                        mm_w * scale <= w,
                        mm_h * scale <= h,
                        0 < scale,
                ;
            }
            let c = if my == ppy && mx == ppx {
                COLOR_MAP_PLAYER
            } else {
                map_color(grid, explored, visited, my * scale, mx * scale)
            };
            mm.push(c);
            assert(mm@ =~= pixel_image(mm_w as int, my as int, mmf) + pixel_row(my as int, mx + 1, mmf));
            mx = mx + 1;
        }
        assert(mm@ =~= pixel_image(mm_w as int, my + 1, mmf));
        my = my + 1;
    }
    proof {
        lemma_pixel_image(mm_w as int, mm_h as int, mmf);
    }
    let fy0 = if output_h >= mm_h + 4 { output_h - (mm_h + 4) } else { 0 };
    let fx0 = if output_w >= mm_w + 4 { output_w - (mm_w + 4) } else { 0 };
    let mmlen = mm.len();
    let mut my: usize = 0;
    while my < mm_h
        invariant
            my <= mm_h,
            1 <= mm_w,
            1 <= mm_h,
            3 <= output_h,
            flen == f0.len(),
            frame@.len() == f0.len(),
            3 * (output_w * output_h) <= f0.len(),
            mm@.len() == mm_w * mm_h,
            mmlen == mm@.len(),
            mm_w <= isize::MAX,
            mm_h <= isize::MAX,
            fy0 <= output_h,
            fx0 <= output_w,
            fy0 + mm_h <= output_h || fy0 == 0,
            fx0 + mm_w <= output_w || fx0 == 0,
            forall|yy: int, xx: int| 0 <= yy < mm_h && 0 <= xx < mm_w ==> #[trigger] mm@[yy * mm_w + xx] == mmf(yy, xx),
            forall|i: int|
                0 <= i < f0.len() ==> #[trigger] frame@[i] == overlaid_byte(
                    f0,
                    output_w as int,
                    output_h as int,
                    fx0 as int,
                    fy0 as int,
                    mm_w as int,
                    my as int,
                    mmf,
                    i,
                ),
        decreases mm_h - my,
    {
        let mut mx: usize = 0;
        while mx < mm_w
            invariant
                my < mm_h,
                mx <= mm_w,
                1 <= mm_w,
                1 <= mm_h,
                3 <= output_h,
                flen == f0.len(),
                frame@.len() == f0.len(),
                3 * (output_w * output_h) <= f0.len(),
                mm@.len() == mm_w * mm_h,
                mmlen == mm@.len(),
                mm_w <= isize::MAX,
                mm_h <= isize::MAX,
                fy0 <= output_h,
                fx0 <= output_w,
                fy0 + mm_h <= output_h || fy0 == 0,
                fx0 + mm_w <= output_w || fx0 == 0,
                forall|yy: int, xx: int| 0 <= yy < mm_h && 0 <= xx < mm_w ==> #[trigger] mm@[yy * mm_w + xx] == mmf(yy, xx),
                forall|i: int|
                    0 <= i < f0.len() ==> #[trigger] frame@[i] == {
                        let p = i / 3;
                        let fy = p / output_w as int;
                        let fx = p % output_w as int;
                        if 0 <= i < 3 * (output_w * output_h) && fy0 <= fy < fy0 + my && fx0 <= fx < fx0 + mm_w {
                            blend(f0[i], mmf(fy - fy0, fx - fx0)[i % 3])
                        } else if 0 <= i < 3 * (output_w * output_h) && fy == fy0 + my && fx0 <= fx < fx0 + mx {
                            blend(f0[i], mmf(fy - fy0, fx - fx0)[i % 3])
                        } else {
                            f0[i]
                        }
                    },
            decreases mm_w - mx,
        {
            let fy = fy0 + my;
            let fx = fx0 + mx;
            if fy < output_h && fx < output_w {
                proof {
                    assert(my * mm_w + mx < mm_w * mm_h) by (nonlinear_arith)
                        requires
                            my < mm_h,
                            mx < mm_w,
                    ;
                    assert(3 * (fy * output_w + fx) + 2 < 3 * (output_w * output_h)) by (nonlinear_arith)
                        requires
                            fy < output_h,
                            fx < output_w,
                    ;
                }
                let m = mm[my * mm_w + mx];
                let idx = (fy * output_w + fx) * 3;
                let ghost before = frame@;
                let b0 = frame[idx];
                let b1 = frame[idx + 1];
                let b2 = frame[idx + 2];
                frame.set(idx, ((b0 as u16) * 3 / 10 + (m[0] / 2) as u16) as u8);
                frame.set(idx + 1, ((b1 as u16) * 3 / 10 + (m[1] / 2) as u16) as u8);
                frame.set(idx + 2, ((b2 as u16) * 3 / 10 + (m[2] / 2) as u16) as u8);
                proof {
                    lemma_decode_byte(idx as int, output_w as int, fy as int, fx as int, 0);
                    lemma_decode_byte(idx + 1, output_w as int, fy as int, fx as int, 1);
                    lemma_decode_byte(idx + 2, output_w as int, fy as int, fx as int, 2);
                    assert forall|i: int| 0 <= i < f0.len() implies #[trigger] frame@[i] == {
                        let p = i / 3;
                        let fyy = p / output_w as int;
                        let fxx = p % output_w as int;
                        if 0 <= i < 3 * (output_w * output_h) && fy0 <= fyy < fy0 + my && fx0 <= fxx < fx0 + mm_w {
                            blend(f0[i], mmf(fyy - fy0, fxx - fx0)[i % 3])
                        } else if 0 <= i < 3 * (output_w * output_h) && fyy == fy0 + my && fx0 <= fxx < fx0 + mx + 1 {
                            blend(f0[i], mmf(fyy - fy0, fxx - fx0)[i % 3])
                        } else {
                            f0[i]
                        }
                    } by {
                        lemma_decoded_in_frame(i, output_w as int, output_h as int);
                        if i != idx && i != idx + 1 && i != idx + 2 {
                            assert(frame@[i] == before[i]);
                            let p = i / 3;
                            if 0 <= i < 3 * (output_w * output_h) && p / output_w as int == fy && p % output_w as int == fx {
                                assert(i == 3 * (fy * output_w + fx) + i % 3) by (nonlinear_arith)
                                    requires
                                        p == i / 3,
                                        p / output_w as int == fy,
                                        p % output_w as int == fx,
                                        output_w > 0,
                                        0 <= i,
                                ;
                            }
                        }
                    }
                }
            } else {
                proof {
                    assert forall|i: int| 0 <= i < f0.len() implies #[trigger] frame@[i] == {
                        let p = i / 3;
                        let fyy = p / output_w as int;
                        let fxx = p % output_w as int;
                        if 0 <= i < 3 * (output_w * output_h) && fy0 <= fyy < fy0 + my && fx0 <= fxx < fx0 + mm_w {
                            blend(f0[i], mmf(fyy - fy0, fxx - fx0)[i % 3])
                        } else if 0 <= i < 3 * (output_w * output_h) && fyy == fy0 + my && fx0 <= fxx < fx0 + mx + 1 {
                            blend(f0[i], mmf(fyy - fy0, fxx - fx0)[i % 3])
                        } else {
                            f0[i]
                        }
                    } by {
                        lemma_decoded_in_frame(i, output_w as int, output_h as int);
                    }
                }
            }
            mx = mx + 1;
        }
        proof {
            assert forall|i: int| 0 <= i < f0.len() implies #[trigger] frame@[i] == overlaid_byte(
                f0,
                output_w as int,
                output_h as int,
                fx0 as int,
                fy0 as int,
                mm_w as int,
                my + 1,
                mmf,
                i,
            ) by {
                lemma_decoded_in_frame(i, output_w as int, output_h as int);
            }
        }
        my = my + 1;
    }
    proof {
        assert((mm_w + 1) * scale > w && (mm_h + 1) * scale > h) by (nonlinear_arith)
            requires
                mm_w == w / scale,
                mm_h == h / scale,
                scale > 0,
        ;
        let side: int = if 120 < output_h / 3 { 120 } else { output_h as int / 3 };
        let sscale: int = (if (h as int) < (w as int) { w as int } else { h as int }) / side + 1;
        assert(side == mm_size);
        assert(sscale == scale);
        assert(((w as int) / sscale) == mm_w);
        assert(((h as int) / sscale) == mm_h);
        assert(ppx == (if (px as int) / sscale < mm_w - 1 { (px as int) / sscale } else { mm_w - 1 }));
        assert(ppy == (if (py as int) / sscale < mm_h - 1 { (py as int) / sscale } else { mm_h - 1 }));
        assert forall|i: int|
            0 <= i < f0.len() && !(i < 3 * (output_w * output_h) && fy0 <= (i / 3) / (output_w as int) < fy0 + mm_h && fx0
                <= (i / 3) % (output_w as int) < fx0 + mm_w) implies #[trigger] frame@[i] == f0[i] by {
            assert(frame@[i] == overlaid_byte(
                f0,
                output_w as int,
                output_h as int,
                fx0 as int,
                fy0 as int,
                mm_w as int,
                mm_h as int,
                mmf,
                i,
            ));
        }
        assert forall|my: int, mx: int, c: int|
            0 <= my < mm_h && 0 <= mx < mm_w && fy0 + my < output_h && fx0 + mx < output_w && 0 <= c < 3 implies {
                let i = 3 * ((fy0 + my) * output_w + fx0 + mx) + c;
                let m = if my == ppy && mx == ppx {
                    COLOR_MAP_PLAYER[c]
                } else {
                    map_cell_color(*grid, *explored, *visited, my * scale, mx * scale)[c]
                };
                #[trigger] frame@[3 * ((fy0 + my) * output_w + fx0 + mx) + c] == (f0[i] * 3 / 10 + m / 2) as u8
            } by {
            let fy = fy0 + my;
            let fx = fx0 + mx;
            let i = 3 * (fy * output_w + fx) + c;
            assert(0 <= i < 3 * (output_w * output_h)) by (nonlinear_arith)
                requires
                    0 <= fy < output_h,
                    0 <= fx < output_w,
                    0 <= c < 3,
                    i == 3 * (fy * output_w + fx) + c,
            ;
            lemma_decode_byte(i, output_w as int, fy, fx, c);
            assert(frame@[i] == overlaid_byte(
                f0,
                output_w as int,
                output_h as int,
                fx0 as int,
                fy0 as int,
                mm_w as int,
                mm_h as int,
                mmf,
                i,
            ));
        }
    }
}

/// A byte position inside a `w` by `h` frame decodes to a pixel inside it.
proof fn lemma_decoded_in_frame(i: int, w: int, h: int)
    requires
        0 <= w,
        0 <= h,
    ensures
        0 <= i < 3 * (w * h) ==> 0 < w && 0 <= (i / 3) / w < h && 0 <= (i / 3) % w < w && 0 <= i / 3,
{
    if 0 <= i < 3 * (w * h) {
        assert(w > 0) by (nonlinear_arith)
            requires
                0 <= i < 3 * (w * h),
                0 <= w,
                0 <= h,
        ;
        assert(i / 3 < w * h);
        assert(0 <= (i / 3) / w < h) by (nonlinear_arith)
            requires
                0 <= i / 3 < w * h,
                0 < w,
        ;
    }
}

} // verus!
