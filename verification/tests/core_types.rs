use minecraft_dungeons_ai::config::{
    default_action_repeat, default_batch_size, default_capture, default_env, default_fps_cap, default_frame_stack,
    default_game, default_max_episode_steps, default_n_epochs, default_n_steps, default_num_enemies_phase1,
    default_num_enemies_phase2, default_num_envs, default_num_items, default_phase1_clears, default_process_name,
    default_resolution, default_save_freq, default_target_fps, default_total_timesteps, default_view_radius,
    default_window_title, CaptureConfig, EnvConfig, GameConfig,
};
use minecraft_dungeons_ai::entities::{Tile, DOOR, EXIT, FLOOR, WALL};
use minecraft_dungeons_ai::grid::{BoolGrid, ByteGrid};
use minecraft_dungeons_ai::text::push_decimal;

#[test]
fn tile_from_u8_reads_known_codes() {
    assert_eq!(Tile::from_u8(0), Tile::Wall);
    assert_eq!(Tile::from_u8(1), Tile::Floor);
    assert_eq!(Tile::from_u8(2), Tile::Door);
    assert_eq!(Tile::from_u8(3), Tile::Exit);
}

#[test]
fn tile_from_u8_unknown_codes_are_walls() {
    assert_eq!(Tile::from_u8(4), Tile::Wall);
    assert_eq!(Tile::from_u8(77), Tile::Wall);
    assert_eq!(Tile::from_u8(255), Tile::Wall);
}

#[test]
fn tile_code_roundtrip() {
    for t in [Tile::Wall, Tile::Floor, Tile::Door, Tile::Exit] {
        assert_eq!(Tile::from_u8(t.code()), t);
    }
    assert_eq!(Tile::Wall.code(), WALL);
    assert_eq!(Tile::Floor.code(), FLOOR);
    assert_eq!(Tile::Door.code(), DOOR);
    assert_eq!(Tile::Exit.code(), EXIT);
}

#[test]
fn default_field_values() {
    assert_eq!(default_process_name(), "Dungeons-Win64-Shipping.exe");
    assert_eq!(default_window_title(), "Minecraft Dungeons");
    assert_eq!(default_target_fps(), 30);
    assert_eq!(default_resolution(), [160, 90]);
    assert_eq!(default_max_episode_steps(), 10000);
    assert_eq!(default_frame_stack(), 2);
    assert_eq!(default_num_items(), 5);
    assert_eq!(default_view_radius(), 6);
    assert_eq!(default_num_enemies_phase1(), 0);
    assert_eq!(default_num_enemies_phase2(), 36);
    assert_eq!(default_phase1_clears(), 5);
    assert_eq!(default_action_repeat(), 4);
    assert_eq!(default_total_timesteps(), 2_000_000);
    assert_eq!(default_n_steps(), 1024);
    assert_eq!(default_batch_size(), 256);
    assert_eq!(default_n_epochs(), 4);
    assert_eq!(default_save_freq(), 100_000);
    assert_eq!(default_num_envs(), 2);
    assert_eq!(default_fps_cap(), 60);
}

#[test]
fn missing_sections_take_type_defaults() {
    let g = default_game();
    assert_eq!(g.process_name, "");
    assert_eq!(g.window_title, "");
    let c = default_capture();
    assert_eq!(c.target_fps, 0);
    assert_eq!(c.resolution, [0, 0]);
    let e = default_env();
    assert_eq!(e.max_episode_steps, 0);
    assert_eq!(e.frame_stack, 0);
    assert_eq!(e.num_items, 0);
    assert_eq!(e.view_radius, 0);
    assert_eq!(e.num_enemies_phase1, 0);
    assert_eq!(e.num_enemies_phase2, 0);
    assert_eq!(e.phase1_clears, 0);
    assert_eq!(e.action_repeat, 0);
    let d = GameConfig::default();
    assert_eq!(d.process_name, "");
    let d = CaptureConfig::default();
    assert_eq!(d.resolution, [0, 0]);
    let d = EnvConfig::default();
    assert_eq!(d.view_radius, 0);
}

#[test]
fn full_default_sections_use_field_defaults() {
    let g = GameConfig::with_defaults();
    assert_eq!(g.process_name, "Dungeons-Win64-Shipping.exe");
    assert_eq!(g.window_title, "Minecraft Dungeons");
    let c = CaptureConfig::with_defaults();
    assert_eq!(c.target_fps, 30);
    assert_eq!(c.resolution, [160, 90]);
    let e = EnvConfig::with_defaults();
    assert_eq!(e.max_episode_steps, 10000);
    assert_eq!(e.frame_stack, 2);
    assert_eq!(e.num_items, 5);
    assert_eq!(e.view_radius, 6);
    assert_eq!(e.num_enemies_phase1, 0);
    assert_eq!(e.num_enemies_phase2, 36);
    assert_eq!(e.phase1_clears, 5);
    assert_eq!(e.action_repeat, 4);
}

#[test]
fn byte_grid_read_after_write() {
    let mut g = ByteGrid::filled(3, 4, 7);
    assert_eq!(g.nrows(), 3);
    assert_eq!(g.ncols(), 4);
    assert_eq!(g.get(2, 3), 7);
    g.set(1, 2, 9);
    assert_eq!(g.get(1, 2), 9);
    assert_eq!(g.get(2, 1), 7);
    assert_eq!(g.get(1, 1), 7);
    let c = g.copy();
    g.set(0, 0, 1);
    assert_eq!(c.get(0, 0), 7);
    assert_eq!(c.get(1, 2), 9);
}

#[test]
fn byte_grid_from_row_major() {
    let g = ByteGrid::from_row_major(2, 3, vec![1, 2, 3, 4, 5, 6]).unwrap();
    assert_eq!(g.nrows(), 2);
    assert_eq!(g.ncols(), 3);
    assert_eq!(g.get(0, 2), 3);
    assert_eq!(g.get(1, 0), 4);
    assert!(ByteGrid::from_row_major(2, 3, vec![1, 2, 3]).is_none());
    assert!(ByteGrid::from_row_major(2, 2, vec![1, 2, 3, 4, 5]).is_none());
}

#[test]
fn bool_grid_read_after_write() {
    let mut g = BoolGrid::filled(2, 5, false);
    assert_eq!(g.nrows(), 2);
    assert_eq!(g.ncols(), 5);
    g.set(1, 4, true);
    assert!(g.get(1, 4));
    assert!(!g.get(0, 4));
    assert!(!g.get(1, 3));
}

#[test]
fn decimal_digits_as_display_writes_them() {
    for n in [0usize, 7, 10, 99, 100, 9999, 1234567, usize::MAX] {
        let mut s = "map_".to_string();
        push_decimal(&mut s, n);
        assert_eq!(s, format!("map_{}", n));
    }
}
