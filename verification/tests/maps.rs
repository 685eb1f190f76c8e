use minecraft_dungeons_ai::dungeon::{carve_layout, place_rooms, DungeonGenerator, Room};
use minecraft_dungeons_ai::entities::{EXIT, FLOOR, WALL};
use minecraft_dungeons_ai::env::ProgressChange;
use minecraft_dungeons_ai::generator::{detect_rooms, npy_entries, raw_usable, MapGenerator, RealMapGenerator, RAW_FLOOR};
use minecraft_dungeons_ai::grid::ByteGrid;
use minecraft_dungeons_ai::spawn::{find_spawn_tile, first_spawn_tile, item_kind_for, random_item_kind};
use minecraft_dungeons_ai::entities::ItemKind;
use minecraft_dungeons_ai::tiles::{farthest_tile, floor_tiles};

fn sq(a: (usize, usize), b: (usize, usize)) -> i64 {
    let dx = a.0 as i64 - b.0 as i64;
    let dy = a.1 as i64 - b.1 as i64;
    dx * dx + dy * dy
}

fn count(g: &ByteGrid, v: u8) -> usize {
    let mut n = 0;
    for y in 0..g.nrows() {
        for x in 0..g.ncols() {
            if g.get(y, x) == v {
                n += 1;
            }
        }
    }
    n
}

fn walk_reaches(g: &ByteGrid, from: (usize, usize), to: (usize, usize)) -> bool {
    let (h, w) = (g.nrows(), g.ncols());
    let mut seen = vec![false; h * w];
    let mut stack = vec![from];
    seen[from.1 * w + from.0] = true;
    while let Some((x, y)) = stack.pop() {
        if (x, y) == to {
            return true;
        }
        let mut next = Vec::new();
        if x > 0 {
            next.push((x - 1, y));
        }
        if y > 0 {
            next.push((x, y - 1));
        }
        if x + 1 < w {
            next.push((x + 1, y));
        }
        if y + 1 < h {
            next.push((x, y + 1));
        }
        for (nx, ny) in next {
            if !seen[ny * w + nx] && g.get(ny, nx) != WALL {
                seen[ny * w + nx] = true;
                stack.push((nx, ny));
            }
        }
    }
    false
}

fn empty_real() -> RealMapGenerator {
    RealMapGenerator {
        map_files: Vec::new(),
        map_id: 0,
        current_map_name: "unknown".to_string(),
        rooms: Vec::new(),
        cached_grid: None,
    }
}

#[test]
fn place_rooms_drops_touching_proposals() {
    let props: Vec<Room> = vec![(1, 1, 5, 5), (3, 3, 5, 5), (10, 1, 5, 5), (7, 1, 5, 5)];
    let rooms = place_rooms(30, 20, &props);
    assert_eq!(rooms, vec![(1, 1, 5, 5), (10, 1, 5, 5)]);
}

#[test]
fn place_rooms_keeps_rooms_one_tile_apart() {
    let props: Vec<Room> = vec![(1, 1, 5, 5), (7, 1, 5, 5), (1, 7, 5, 5)];
    let rooms = place_rooms(30, 20, &props);
    assert_eq!(rooms, props);
}

#[test]
fn carve_layout_rooms_and_corridor() {
    let rooms: Vec<Room> = vec![(1, 1, 5, 5), (10, 6, 5, 5)];
    let g = carve_layout(20, 14, &rooms);
    assert_eq!(g.nrows(), 14);
    assert_eq!(g.ncols(), 20);
    assert_eq!(g.get(1, 1), FLOOR);
    assert_eq!(g.get(5, 5), FLOOR);
    assert_eq!(g.get(10, 14), FLOOR);
    // corridor along row 3 from column 3 towards column 12
    assert_eq!(g.get(3, 8), FLOOR);
    assert_eq!(g.get(3, 11), FLOOR);
    // then along column 12 from row 3 towards row 8
    assert_eq!(g.get(3, 12), FLOOR);
    assert_eq!(g.get(5, 12), FLOOR);
    assert_eq!(g.get(4, 8), WALL);
    assert_eq!(g.get(0, 0), WALL);
    assert_eq!(g.get(13, 19), WALL);
    assert_eq!(count(&g, FLOOR), 25 + 25 + 6 + 3);
}

#[test]
fn floor_tiles_in_row_major_order() {
    let mut g = ByteGrid::filled(3, 3, WALL);
    g.set(1, 0, FLOOR);
    g.set(0, 2, FLOOR);
    g.set(2, 2, EXIT);
    assert_eq!(floor_tiles(&g), vec![(2, 0), (0, 1)]);
}

#[test]
fn farthest_tile_prefers_last_of_equals() {
    let tiles = vec![(0, 0), (3, 4), (4, 3), (1, 1)];
    assert_eq!(farthest_tile(&tiles, (0, 0)), (4, 3));
    assert_eq!(farthest_tile(&tiles, (4, 3)), (0, 0));
}

#[test]
fn detect_rooms_thirty_percent_rule() {
    let mut g = ByteGrid::filled(16, 16, WALL);
    // sector (0, 0): 20 of 64 floor tiles, above 30%
    for k in 0..20 {
        g.set(k / 8, k % 8, FLOOR);
    }
    // sector at column 8: 19 of 64, not above 30%
    for k in 0..19 {
        g.set(k / 8, 8 + k % 8, FLOOR);
    }
    assert_eq!(detect_rooms(&g, 16, 16), vec![(0, 0, 8, 8)]);
}

#[test]
fn detect_rooms_whole_map_when_none() {
    let g = ByteGrid::filled(10, 20, WALL);
    assert_eq!(detect_rooms(&g, 10, 20), vec![(0, 0, 20, 10)]);
    let g = ByteGrid::filled(10, 20, FLOOR);
    assert_eq!(
        detect_rooms(&g, 10, 20),
        vec![(0, 0, 8, 8), (8, 0, 8, 8), (16, 0, 4, 8), (0, 8, 8, 2), (8, 8, 8, 2), (16, 8, 4, 2)]
    );
}

#[test]
fn synthetic_generator_new() {
    let g = DungeonGenerator::new(40, 30, 8);
    assert_eq!(g.w, 40);
    assert_eq!(g.h, 30);
    assert_eq!(g.room_attempts, 8);
    assert_eq!(g.current_map_name, "synthetic");
}

#[test]
fn synthetic_generate_layout() {
    let mut gen = DungeonGenerator::new(40, 40, 8);
    for _ in 0..20 {
        let (grid, start, exit) = gen.generate();
        assert_eq!(grid.nrows(), 40);
        assert_eq!(grid.ncols(), 40);
        assert_eq!(grid.get(start.1, start.0), FLOOR);
        assert_eq!(grid.get(exit.1, exit.0), EXIT);
        assert_ne!(start, exit);
        assert_eq!(count(&grid, EXIT), 1);
        assert!(walk_reaches(&grid, start, exit));
        let far = sq(exit, start);
        for y in 0..40 {
            for x in 0..40 {
                let v = grid.get(y, x);
                assert!(v == WALL || v == FLOOR || v == EXIT);
                if v == FLOOR {
                    assert!(sq((x, y), start) <= far);
                }
            }
        }
        let name = gen.current_map_name.clone();
        assert!(name.starts_with("synthetic_"));
        let n: u32 = name["synthetic_".len()..].parse().unwrap();
        assert!(n < 10000);
        assert_eq!(name, format!("synthetic_{}", n));
    }
}

#[test]
fn real_fallback_map() {
    let mut r = empty_real();
    assert_eq!(r.next_map_index(), None);
    assert_eq!(r.map_id, 1);
    let (grid, start, exit) = r.generate_fallback();
    assert_eq!(r.current_map_name, "fallback");
    assert_eq!((grid.nrows(), grid.ncols()), (20, 20));
    assert_eq!(start, (10, 10));
    assert_eq!(exit, (12, 12));
    assert_eq!(grid.get(5, 5), FLOOR);
    assert_eq!(grid.get(14, 14), FLOOR);
    assert_eq!(grid.get(4, 5), WALL);
    assert_eq!(grid.get(15, 14), WALL);
    assert_eq!(grid.get(12, 12), FLOOR);
    assert_eq!(count(&grid, FLOOR), 100);
}

#[test]
fn real_map_from_raw_grid() {
    let mut raw = ByteGrid::filled(8, 8, 1);
    for y in 2..5 {
        for x in 2..5 {
            raw.set(y, x, RAW_FLOOR);
        }
    }
    raw.set(0, 0, 0);
    let mut r = empty_real();
    let (grid, start, exit) = r.generate_from_raw("level_a".to_string(), &raw);
    assert_eq!(r.current_map_name, "level_a");
    assert_eq!((grid.nrows(), grid.ncols()), (8, 8));
    assert!((2..5).contains(&start.0) && (2..5).contains(&start.1));
    assert_eq!(grid.get(exit.1, exit.0), EXIT);
    assert_eq!(count(&grid, FLOOR), 8);
    assert_eq!(count(&grid, EXIT), 1);
    assert_eq!(grid.get(0, 0), WALL);
    assert_eq!(grid.get(1, 1), WALL);
    for y in 2..5 {
        for x in 2..5 {
            assert!(sq((x, y), start) <= sq(exit, start));
        }
    }
    assert_eq!(r.rooms, vec![(0, 0, 8, 8)]);
    let kept = r.cached_grid.as_ref().unwrap();
    assert_eq!(kept.get(exit.1, exit.0), EXIT);

    let again = r.generate_same_cached().unwrap();
    assert_eq!(r.map_id, 1);
    let (g2, s2, e2) = again;
    assert_eq!(count(&g2, EXIT), 1);
    assert_eq!(g2.get(e2.1, e2.0), EXIT);
    assert_eq!(count(&g2, FLOOR), 8);
    assert!((2..5).contains(&s2.0) && (2..5).contains(&s2.1));
    // the old exit was not a floor tile of the kept map, so it is no candidate
    assert_ne!(s2, exit);
    for y in 0..8 {
        for x in 0..8 {
            assert_eq!(g2.get(y, x) == WALL, grid.get(y, x) == WALL);
            assert_eq!(g2.get(y, x) == EXIT, (x, y) == e2);
        }
    }
}

#[test]
fn real_map_without_floor_uses_fallback_room() {
    let raw = ByteGrid::filled(12, 12, 1);
    let mut r = empty_real();
    let (grid, start, exit) = r.generate_from_raw("empty".to_string(), &raw);
    assert!((5..12).contains(&start.0) && (5..12).contains(&start.1));
    assert_eq!(grid.get(exit.1, exit.0), EXIT);
    assert_eq!(count(&grid, FLOOR) + count(&grid, EXIT), 49);
    assert_eq!(grid.get(4, 4), WALL);
}

#[test]
fn generate_same_without_kept_map() {
    let mut r = empty_real();
    assert!(r.generate_same_cached().is_none());
    assert_eq!(r.map_id, 1);
    r.cached_grid = Some(ByteGrid::filled(4, 4, WALL));
    assert!(r.generate_same_cached().is_none());
    assert_eq!(r.map_id, 2);
}

#[test]
fn map_generator_names_and_progress() {
    let mut r = empty_real();
    r.cached_grid = Some(ByteGrid::filled(2, 2, FLOOR));
    let mut mg = MapGenerator::Real(r);
    assert_eq!(mg.current_map_name(), "unknown");
    mg.apply_progress(ProgressChange::Cleared);
    match &mg {
        MapGenerator::Real(r) => assert!(r.cached_grid.is_some()),
        _ => panic!("generator kind changed"),
    }
    mg.apply_progress(ProgressChange::NewMap);
    match &mg {
        MapGenerator::Real(r) => {
            assert!(r.cached_grid.is_none());
            assert_eq!(r.current_map_name, "unknown");
        },
        _ => panic!("generator kind changed"),
    }

    let mut s = MapGenerator::Synthetic(DungeonGenerator::new(60, 50, 3));
    s.apply_progress(ProgressChange::NoVictory);
    match &s {
        MapGenerator::Synthetic(g) => assert_eq!((g.w, g.h, g.room_attempts), (60, 50, 3)),
        _ => panic!("generator kind changed"),
    }
    s.apply_progress(ProgressChange::CombatPhase);
    match &s {
        MapGenerator::Synthetic(g) => {
            assert_eq!((g.w, g.h, g.room_attempts), (40, 40, 8));
            assert_eq!(g.current_map_name, "synthetic");
        },
        _ => panic!("generator kind changed"),
    }
}

#[test]
fn spawn_tile_respects_floor_and_distance() {
    let g = ByteGrid::filled(12, 12, WALL);
    assert_eq!(find_spawn_tile(&g, 12, 12, (1, 1), 5), None);
    let mut g = ByteGrid::filled(12, 12, WALL);
    g.set(9, 9, FLOOR);
    g.set(2, 2, FLOOR);
    let r = find_spawn_tile(&g, 12, 12, (1, 1), 5);
    assert!(r == None || r == Some((9, 9)));
    let g = ByteGrid::filled(12, 12, FLOOR);
    for _ in 0..20 {
        if let Some(t) = find_spawn_tile(&g, 12, 12, (1, 1), 3) {
            assert!(t.0 >= 1 && t.0 < 11 && t.1 >= 1 && t.1 < 11);
            assert!(sq(t, (1, 1)) > 9);
        }
    }
}

#[test]
fn raw_grid_usability() {
    assert!(raw_usable(&ByteGrid::filled(6, 6, 0)));
    assert!(!raw_usable(&ByteGrid::filled(5, 9, 1)));
    let mut g = ByteGrid::filled(3, 3, 0);
    assert!(!raw_usable(&g));
    g.set(2, 1, RAW_FLOOR);
    assert!(raw_usable(&g));
}

#[test]
fn synthetic_without_proposals_uses_fallback_room() {
    let mut gen = DungeonGenerator::new(16, 12, 0);
    let (grid, start, exit) = gen.generate();
    assert_eq!((grid.nrows(), grid.ncols()), (12, 16));
    assert_eq!(count(&grid, FLOOR) + count(&grid, EXIT), 7 * 10);
    assert_eq!(count(&grid, EXIT), 1);
    assert!((5..15).contains(&start.0) && (5..12).contains(&start.1));
    assert_eq!(grid.get(4, 5), WALL);
    assert!(walk_reaches(&grid, start, exit));
}

#[test]
fn spawn_tile_owed_when_every_draw_suits() {
    let g = ByteGrid::filled(6, 7, FLOOR);
    for _ in 0..50 {
        let t = find_spawn_tile(&g, 7, 6, (0, 0), 1).unwrap();
        assert!(t.0 >= 1 && t.0 < 6 && t.1 >= 1 && t.1 < 5);
        assert!(sq(t, (0, 0)) > 1);
    }
}

#[test]
fn smallest_synthetic_map_has_one_tile() {
    let mut gen = DungeonGenerator::new(6, 6, 0);
    let (grid, start, exit) = gen.generate();
    assert_eq!(start, (5, 5));
    assert_eq!(exit, (5, 5));
    assert_eq!(grid.get(5, 5), EXIT);
    assert_eq!(count(&grid, FLOOR), 0);
    assert_eq!(count(&grid, EXIT), 1);
    let mut gen = DungeonGenerator::new(9, 7, 0);
    let (grid, start, exit) = gen.generate();
    assert_ne!(start, exit);
    assert_eq!(count(&grid, FLOOR) + count(&grid, EXIT), 2 * 4);
    assert!(walk_reaches(&grid, start, exit));
}

#[test]
fn item_kinds_for_draws() {
    assert_eq!(item_kind_for(0), ItemKind::Health);
    assert_eq!(item_kind_for(1), ItemKind::Ammo);
    assert_eq!(item_kind_for(2), ItemKind::Emerald);
    let mut seen = [false; 3];
    for _ in 0..300 {
        match random_item_kind() {
            ItemKind::Health => seen[0] = true,
            ItemKind::Ammo => seen[1] = true,
            ItemKind::Emerald => seen[2] = true,
        }
    }
    assert!(seen.iter().all(|&b| b));
}

#[test]
fn npy_entries_pick_npy_extensions() {
    let exts = vec![
        Some("npy".to_string()),
        None,
        Some("txt".to_string()),
        Some("NPY".to_string()),
        Some("npy".to_string()),
        Some("npyz".to_string()),
    ];
    assert_eq!(npy_entries(&exts), vec![0, 4]);
    assert!(npy_entries(&vec![]).is_empty());
}

#[test]
fn first_spawn_tile_takes_first_suitable_draw() {
    let mut g = ByteGrid::filled(8, 8, WALL);
    g.set(1, 1, FLOOR);
    g.set(6, 6, FLOOR);
    g.set(5, 6, FLOOR);
    // (1, 1) is floor but too near (0, 0); (3, 3) is wall
    let draws = vec![(1, 1), (3, 3), (6, 6), (6, 5)];
    assert_eq!(first_spawn_tile(&g, &draws, (0, 0), 2), Some((6, 6)));
    let draws = vec![(6, 5), (6, 6)];
    assert_eq!(first_spawn_tile(&g, &draws, (0, 0), 2), Some((6, 5)));
    assert_eq!(first_spawn_tile(&g, &vec![(1, 1), (3, 3)], (0, 0), 2), None);
    assert_eq!(first_spawn_tile(&g, &vec![], (0, 0), 0), None);
    // distance must be strictly greater: (6, 6) from (6, 4) is 2 away
    assert_eq!(first_spawn_tile(&g, &vec![(6, 6)], (6, 4), 2), None);
    assert_eq!(first_spawn_tile(&g, &vec![(6, 6)], (6, 4), 1), Some((6, 6)));
}
