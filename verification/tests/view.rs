use minecraft_dungeons_ai::entities::{DOOR, EXIT, FLOOR, WALL};
use minecraft_dungeons_ai::fog::{mark_visited, reveal_area};
use minecraft_dungeons_ai::grid::{BoolGrid, ByteGrid};
use minecraft_dungeons_ai::renderer::{
    bilinear_resize, draw_circle, overlay_minimap, render_full_map, upscale_tiles, view_tile_colors, COLOR_DOOR,
    COLOR_EXIT, COLOR_FLOOR, COLOR_FLOOR_ALT, COLOR_FOG, COLOR_MAP_PLAYER, COLOR_WALL,
};

fn count_true(g: &BoolGrid) -> usize {
    let mut n = 0;
    for y in 0..g.nrows() {
        for x in 0..g.ncols() {
            if g.get(y, x) {
                n += 1;
            }
        }
    }
    n
}

#[test]
fn reveal_area_disk() {
    let mut e = BoolGrid::filled(10, 10, false);
    reveal_area(&mut e, 5, 5, 2, 10, 10);
    assert_eq!(count_true(&e), 21);
    assert!(e.get(5, 5));
    assert!(e.get(3, 5));
    assert!(e.get(4, 7));
    assert!(!e.get(3, 3));
    assert!(!e.get(7, 7));
    assert!(!e.get(5, 8));
}

#[test]
fn reveal_area_clipped_and_cumulative() {
    let mut e = BoolGrid::filled(10, 10, false);
    reveal_area(&mut e, 0, 0, 1, 10, 10);
    assert_eq!(count_true(&e), 3 + 1);
    reveal_area(&mut e, 9, 9, 0, 10, 10);
    assert_eq!(count_true(&e), 5);
    assert!(e.get(0, 0));
    assert!(e.get(9, 9));
    // only the first 4 columns and rows count
    let mut f = BoolGrid::filled(10, 10, false);
    reveal_area(&mut f, 4, 4, 3, 4, 4);
    assert!(f.get(3, 3));
    assert!(!f.get(4, 4));
}

#[test]
fn mark_visited_neighbourhood() {
    let mut v = BoolGrid::filled(10, 10, false);
    mark_visited(&mut v, 0, 0, 10, 10);
    assert_eq!(count_true(&v), 4);
    mark_visited(&mut v, 5, 5, 10, 10);
    assert_eq!(count_true(&v), 13);
    assert!(v.get(6, 4));
    assert!(!v.get(7, 5));
}

#[test]
fn draw_circle_plus_shape() {
    let mut buf = vec![[0u8; 3]; 25];
    draw_circle(&mut buf, 5, 5, 0, 0, 1, [9, 8, 7]);
    let painted: Vec<usize> = (0..25).filter(|&i| buf[i] == [9, 8, 7]).collect();
    assert_eq!(painted, vec![1, 5, 6, 7, 11]);
}

#[test]
fn draw_circle_clipped_at_edge() {
    let mut buf = vec![[1u8; 3]; 9];
    draw_circle(&mut buf, 3, 3, 1, 1, 1, [5, 5, 5]);
    assert_eq!(buf[2 * 3 + 2], [5, 5, 5]);
    assert_eq!(buf[1 * 3 + 2], [5, 5, 5]);
    assert_eq!(buf[2 * 3 + 1], [5, 5, 5]);
    assert_eq!(buf[1 * 3 + 1], [1, 1, 1]);
    assert_eq!(buf[0], [1, 1, 1]);
}

#[test]
fn resize_nearest_upscale() {
    let src = vec![[1, 1, 1], [2, 2, 2], [3, 3, 3], [4, 4, 4]];
    let dst = bilinear_resize(&src, 2, 2, 4, 4);
    assert_eq!(dst.len(), 48);
    let px = |x: usize, y: usize| dst[(y * 4 + x) * 3];
    assert_eq!(px(0, 0), 1);
    assert_eq!(px(1, 1), 1);
    assert_eq!(px(2, 0), 2);
    assert_eq!(px(3, 1), 2);
    assert_eq!(px(0, 2), 3);
    assert_eq!(px(3, 3), 4);
}

#[test]
fn resize_same_size_is_identity() {
    let src: Vec<[u8; 3]> = (0..12u8).map(|i| [i, i + 1, i + 2]).collect();
    let dst = bilinear_resize(&src, 4, 3, 4, 3);
    let flat: Vec<u8> = src.iter().flat_map(|c| c.iter().copied()).collect();
    assert_eq!(dst, flat);
}

#[test]
fn resize_downscale_and_empty() {
    let src = vec![[10, 0, 0], [20, 0, 0], [30, 0, 0], [40, 0, 0], [50, 0, 0]];
    let dst = bilinear_resize(&src, 5, 1, 2, 1);
    // x * 5 / 2: columns 0 and 2
    assert_eq!(dst, vec![10, 0, 0, 30, 0, 0]);
    assert!(bilinear_resize(&src, 5, 1, 0, 7).is_empty());
}

#[test]
fn view_colors_checkerboard_fog_and_outside() {
    let mut grid = ByteGrid::filled(3, 3, FLOOR);
    grid.set(0, 0, WALL);
    grid.set(0, 2, DOOR);
    grid.set(2, 2, EXIT);
    let mut explored = BoolGrid::filled(3, 3, true);
    explored.set(2, 0, false);
    let colors = view_tile_colors(&grid, &explored, 1, 1, 1);
    assert_eq!(colors.len(), 9);
    assert_eq!(colors[0], COLOR_WALL);
    assert_eq!(colors[1], COLOR_FLOOR_ALT);
    assert_eq!(colors[2], COLOR_DOOR);
    assert_eq!(colors[4], COLOR_FLOOR);
    assert_eq!(colors[6], COLOR_FOG);
    assert_eq!(colors[8], COLOR_EXIT);
    // a view reaching past the map corner is black there
    let colors = view_tile_colors(&grid, &explored, 0, 0, 1);
    assert_eq!(colors[0], [0, 0, 0]);
    assert_eq!(colors[3], [0, 0, 0]);
    assert_eq!(colors[4], COLOR_WALL);
    assert_eq!(colors[5], COLOR_FLOOR_ALT);
}

#[test]
fn upscale_repeats_tiles() {
    let tiles = vec![[1, 1, 1], [2, 2, 2], [3, 3, 3], [4, 4, 4]];
    let view = upscale_tiles(&tiles, 2, 3);
    assert_eq!(view.len(), 36);
    assert_eq!(view[0], [1, 1, 1]);
    assert_eq!(view[2], [1, 1, 1]);
    assert_eq!(view[3], [2, 2, 2]);
    assert_eq!(view[2 * 6 + 5], [2, 2, 2]);
    assert_eq!(view[3 * 6], [3, 3, 3]);
    assert_eq!(view[5 * 6 + 5], [4, 4, 4]);
}

#[test]
fn full_map_colours() {
    let mut grid = ByteGrid::filled(2, 3, FLOOR);
    grid.set(0, 1, WALL);
    grid.set(1, 2, EXIT);
    let mut explored = BoolGrid::filled(2, 3, true);
    explored.set(1, 0, false);
    let mut visited = BoolGrid::filled(2, 3, false);
    visited.set(0, 2, true);
    let frame = render_full_map(&grid, &explored, &visited, 0, 0, 3, 2);
    let px = |x: usize, y: usize| [frame[(y * 3 + x) * 3], frame[(y * 3 + x) * 3 + 1], frame[(y * 3 + x) * 3 + 2]];
    assert_eq!(px(0, 0), COLOR_MAP_PLAYER);
    assert_eq!(px(1, 0), [30, 30, 30]);
    assert_eq!(px(2, 0), [100, 140, 100]);
    assert_eq!(px(0, 1), [10, 10, 10]);
    assert_eq!(px(1, 1), [60, 60, 60]);
    assert_eq!(px(2, 1), [0, 100, 60]);
}

#[test]
fn full_map_player_off_map_is_not_drawn() {
    let grid = ByteGrid::filled(2, 2, FLOOR);
    let explored = BoolGrid::filled(2, 2, true);
    let visited = BoolGrid::filled(2, 2, false);
    let frame = render_full_map(&grid, &explored, &visited, 5, 0, 4, 4);
    assert_eq!(frame.len(), 48);
    assert!(frame.chunks(3).all(|c| c == [60, 60, 60]));
}

#[test]
fn minimap_blends_into_corner() {
    let grid = ByteGrid::filled(40, 40, WALL);
    let explored = BoolGrid::filled(40, 40, true);
    let visited = BoolGrid::filled(40, 40, false);
    let mut frame = vec![100u8; 160 * 90 * 3];
    overlay_minimap(&mut frame, 160, 90, &grid, &explored, &visited, 10, 4);
    // scale 40 / 30 + 1 = 2, minimap 20 by 20 at (136, 66)
    let at = |x: usize, y: usize, c: usize| frame[(y * 160 + x) * 3 + c];
    assert_eq!(at(135, 70, 0), 100);
    assert_eq!(at(136, 65, 0), 100);
    assert_eq!(at(136, 66, 0), 30 + 15);
    assert_eq!(at(155, 85, 2), 30 + 15);
    assert_eq!(at(156, 85, 0), 100);
    assert_eq!(at(155, 86, 0), 100);
    // player tile (10, 4) is minimap pixel (5, 2)
    assert_eq!([at(141, 68, 0), at(141, 68, 1), at(141, 68, 2)], [30, 130, 157]);
}

#[test]
fn resize_same_size_returns_flattened_source() {
    let src: Vec<[u8; 3]> = vec![[1, 2, 3], [4, 5, 6], [7, 8, 9]];
    assert_eq!(bilinear_resize(&src, 3, 1, 3, 1), vec![1, 2, 3, 4, 5, 6, 7, 8, 9]);
    assert_eq!(bilinear_resize(&src, 1, 3, 1, 3), vec![1, 2, 3, 4, 5, 6, 7, 8, 9]);
}
