use minecraft_dungeons_ai::conv::flat_size;
use minecraft_dungeons_ai::entities::{EXIT, FLOOR, WALL};
use minecraft_dungeons_ai::env::{fill_frames, push_frame, stack_frames, Progress, ProgressChange};
use minecraft_dungeons_ai::grid::ByteGrid;
use minecraft_dungeons_ai::physics::{cell_walkable, footprint_walkable};
use minecraft_dungeons_ai::records::{BestTimes, FINISH_BONUS, RECORD_BONUS};
use minecraft_dungeons_ai::schedule::checkpoint_due;

#[test]
fn progress_starts_in_exploration() {
    let p = Progress::new(5);
    assert_eq!(
        p,
        Progress { phase: 1, phase1_clears: 5, phase1_cleared: 0, map_num: 0, wins_on_map: 0, wins_needed: 100 }
    );
}

#[test]
fn progress_defeat_changes_nothing() {
    let mut p = Progress::new(5);
    p.wins_on_map = 42;
    let before = p;
    assert_eq!(p.record_episode_end(false), ProgressChange::NoVictory);
    assert_eq!(p, before);
}

#[test]
fn progress_new_map_after_enough_wins() {
    let mut p = Progress::new(5);
    for k in 1..100 {
        assert_eq!(p.record_episode_end(true), ProgressChange::Cleared);
        assert_eq!(p.wins_on_map, k);
    }
    assert_eq!(p.record_episode_end(true), ProgressChange::NewMap);
    assert_eq!(p.map_num, 1);
    assert_eq!(p.wins_on_map, 0);
    assert_eq!(p.phase1_cleared, 100);
    assert_eq!(p.phase, 1);
}

#[test]
fn progress_combat_phase_after_clears() {
    let mut p = Progress::new(5);
    let mut changes = Vec::new();
    for _ in 0..500 {
        let c = p.record_episode_end(true);
        if c != ProgressChange::Cleared {
            changes.push(c);
        }
    }
    assert_eq!(
        changes,
        vec![
            ProgressChange::NewMap,
            ProgressChange::NewMap,
            ProgressChange::NewMap,
            ProgressChange::NewMap,
            ProgressChange::CombatPhase
        ]
    );
    assert_eq!(p.phase, 2);
    assert_eq!(p.map_num, 0);
    assert_eq!(p.wins_on_map, 0);
    assert_eq!(p.phase1_cleared, 500);
    for _ in 0..100 {
        p.record_episode_end(true);
    }
    assert_eq!(p.phase, 2);
    assert_eq!(p.map_num, 1);
    assert_eq!(p.phase1_cleared, 500);
}

#[test]
fn progress_zero_clears_enters_combat_at_first_map() {
    let mut p = Progress { phase: 1, phase1_clears: 0, phase1_cleared: 0, map_num: 3, wins_on_map: 99, wins_needed: 100 };
    assert_eq!(p.record_episode_end(true), ProgressChange::CombatPhase);
    assert_eq!(p.phase, 2);
    assert_eq!(p.map_num, 0);
}

#[test]
fn frame_window_slides() {
    let mut buf: Vec<Vec<u8>> = vec![vec![1], vec![2]];
    push_frame(&mut buf, vec![3], 2);
    assert_eq!(buf, vec![vec![2], vec![3]]);
    push_frame(&mut buf, vec![4], 3);
    assert_eq!(buf, vec![vec![2], vec![3], vec![4]]);
    push_frame(&mut buf, vec![5], 0);
    assert_eq!(buf, vec![vec![3], vec![4], vec![5]]);
}

#[test]
fn frame_window_refill() {
    let mut buf: Vec<Vec<u8>> = vec![vec![9, 9]];
    fill_frames(&mut buf, &vec![1, 2, 3], 3);
    assert_eq!(buf, vec![vec![1, 2, 3], vec![1, 2, 3], vec![1, 2, 3]]);
    fill_frames(&mut buf, &vec![7], 0);
    assert!(buf.is_empty());
}

#[test]
fn stacked_screen_planes() {
    let f0: Vec<u8> = (1..=12).collect();
    let screen = stack_frames(&vec![f0], 2, 2, 2);
    let mut expected = vec![1, 4, 7, 10, 2, 5, 8, 11, 3, 6, 9, 12];
    expected.extend(vec![0u8; 12]);
    assert_eq!(screen, expected);
}

#[test]
fn stacked_screen_short_frame_reads_zero() {
    let f0: Vec<u8> = vec![1, 2, 3, 4, 5, 6];
    let f1: Vec<u8> = (10..22).collect();
    let screen = stack_frames(&vec![f0, f1], 2, 1, 4);
    assert_eq!(
        screen,
        vec![1, 4, 0, 0, 2, 5, 0, 0, 3, 6, 0, 0, 10, 13, 16, 19, 11, 14, 17, 20, 12, 15, 18, 21]
    );
    assert!(stack_frames(&vec![], 3, 0, 5).is_empty());
}

#[test]
fn best_times_speedrun_bonus() {
    let mut t = BestTimes::new();
    let a = "map_a".to_string();
    assert_eq!(t.get(&a), None);
    assert_eq!(t.record_finish(a.clone(), 50), RECORD_BONUS);
    assert_eq!(t.get(&a), Some(50));
    assert_eq!(t.record_finish(a.clone(), 60), FINISH_BONUS);
    assert_eq!(t.get(&a), Some(50));
    assert_eq!(t.record_finish(a.clone(), 50), RECORD_BONUS);
    assert_eq!(t.record_finish(a.clone(), 40), RECORD_BONUS);
    assert_eq!(t.get(&a), Some(40));
    assert_eq!(t.record_finish("map_b".to_string(), 70), RECORD_BONUS);
    let mut e = t.entries();
    e.sort();
    assert_eq!(e, vec![("map_a".to_string(), 40), ("map_b".to_string(), 70)]);
    assert_eq!(RECORD_BONUS, 200);
    assert_eq!(FINISH_BONUS, 100);
}

#[test]
fn checkpoint_when_multiple_passed() {
    assert!(checkpoint_due(100_000, 2048, 50_000));
    assert!(!checkpoint_due(60_000, 2048, 50_000));
    assert!(checkpoint_due(50_000, 2048, 50_000));
    assert!(!checkpoint_due(52_048, 2048, 50_000));
    assert!(checkpoint_due(2048, 4096, 1000));
    assert!(!checkpoint_due(999, 4096, 1000));
    assert!(!checkpoint_due(0, 0, 7));
}

#[test]
fn walkable_cells() {
    let mut g = ByteGrid::filled(3, 4, FLOOR);
    g.set(1, 1, WALL);
    g.set(2, 3, EXIT);
    assert!(cell_walkable(&g, 4, 3, 0, 0));
    assert!(cell_walkable(&g, 4, 3, 3, 2));
    assert!(!cell_walkable(&g, 4, 3, 1, 1));
    assert!(!cell_walkable(&g, 4, 3, -1, 0));
    assert!(!cell_walkable(&g, 4, 3, 0, -1));
    assert!(!cell_walkable(&g, 4, 3, 4, 0));
    assert!(!cell_walkable(&g, 3, 3, 3, 0));
    assert!(!cell_walkable(&g, 4, 2, 0, 2));
    assert!(footprint_walkable(&g, 4, 3, &vec![(0, 0), (2, 0), (3, 2)]));
    assert!(!footprint_walkable(&g, 4, 3, &vec![(0, 0), (1, 1), (3, 2)]));
    assert!(!footprint_walkable(&g, 4, 3, &vec![(0, 0), (5, 0)]));
    assert!(footprint_walkable(&g, 4, 3, &vec![]));
}

#[test]
fn convolution_stack_sizes() {
    assert_eq!(flat_size(90, 160), 512 * 4 * 7);
    assert_eq!(flat_size(3, 3), 512);
    assert_eq!(flat_size(24, 48), 512 * 1 * 2);
}

#[test]
fn progress_overflow_guard() {
    let p = Progress::new(5);
    assert!(p.can_record(true));
    assert!(p.can_record(false));
    let q = Progress { phase: 1, phase1_clears: 5, phase1_cleared: 0, map_num: 0, wins_on_map: u32::MAX, wins_needed: 100 };
    assert!(!q.can_record(true));
    assert!(q.can_record(false));
    let r = Progress { phase: 1, phase1_clears: u32::MAX, phase1_cleared: 0, map_num: 0, wins_on_map: 99, wins_needed: 100 };
    assert!(!r.can_record(true));
    let s = Progress { phase: 2, phase1_clears: u32::MAX, phase1_cleared: 0, map_num: 0, wins_on_map: 99, wins_needed: 100 };
    assert!(s.can_record(true));
}
