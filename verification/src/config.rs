//! Settings read from the configuration file, and their defaults.
//!
//! A section left out of the file takes the type's `Default` (empty names,
//! zero numbers); a field left out of a present section takes the value of
//! the matching `default_*` function.
use vstd::prelude::*;

verus! {

/// Which game process and window to attach to.
#[derive(Debug, Clone)]
pub struct GameConfig {
    pub process_name: String,
    pub window_title: String,
}

/// How frames are captured.
#[derive(Debug, Clone)]
pub struct CaptureConfig {
    pub target_fps: u32,
    pub resolution: [u32; 2],
}

/// Environment settings.
#[derive(Debug, Clone)]
pub struct EnvConfig {
    pub max_episode_steps: u32,
    pub frame_stack: usize,
    pub num_items: usize,
    pub view_radius: i32,
    pub num_enemies_phase1: usize,
    pub num_enemies_phase2: usize,
    pub phase1_clears: u32,
    pub action_repeat: usize,
}

impl Default for GameConfig {
    /// Empty process name and window title.
    fn default() -> (c: Self)
        ensures
            c.process_name@ == Seq::<char>::empty(),
            c.window_title@ == Seq::<char>::empty(),
    {
        GameConfig { process_name: String::new(), window_title: String::new() }
    }
}

impl Default for CaptureConfig {
    /// Zero frame rate and a zero resolution.
    fn default() -> (c: Self)
        ensures
            c.target_fps == 0,
            c.resolution == [0u32, 0u32],
    {
        CaptureConfig { target_fps: 0, resolution: [0, 0] }
    }
}

impl Default for EnvConfig {
    /// Every setting zero.
    fn default() -> (c: Self)
        ensures
            c.max_episode_steps == 0,
            c.frame_stack == 0,
            c.num_items == 0,
            c.view_radius == 0,
            c.num_enemies_phase1 == 0,
            c.num_enemies_phase2 == 0,
            c.phase1_clears == 0,
            c.action_repeat == 0,
    {
        EnvConfig {
            max_episode_steps: 0,
            frame_stack: 0,
            num_items: 0,
            view_radius: 0,
            num_enemies_phase1: 0,
            num_enemies_phase2: 0,
            phase1_clears: 0,
            action_repeat: 0,
        }
    }
}

/// The game section used when the file has none: the type's default.
pub fn default_game() -> (c: GameConfig)
    ensures
        c.process_name@ == Seq::<char>::empty(),
        c.window_title@ == Seq::<char>::empty(),
{
    GameConfig::default()
}

/// The capture section used when the file has none: the type's default.
pub fn default_capture() -> (c: CaptureConfig)
    ensures
        c.target_fps == 0,
        c.resolution == [0u32, 0u32],
{
    CaptureConfig::default()
}

/// The environment section used when the file has none: the type's default.
pub fn default_env() -> (c: EnvConfig)
    ensures
        c.max_episode_steps == 0,
        c.frame_stack == 0,
        c.num_items == 0,
        c.view_radius == 0,
        c.num_enemies_phase1 == 0,
        c.num_enemies_phase2 == 0,
        c.phase1_clears == 0,
        c.action_repeat == 0,
{
    EnvConfig::default()
}

/// The game's process name.
pub fn default_process_name() -> (s: String)
    ensures
        s@ == "Dungeons-Win64-Shipping.exe"@,
{
    "Dungeons-Win64-Shipping.exe".to_owned()
}

/// The game's window title.
pub fn default_window_title() -> (s: String)
    ensures
        s@ == "Minecraft Dungeons"@,
{
    "Minecraft Dungeons".to_owned()
}

/// Frames captured per second.
pub fn default_target_fps() -> (v: u32)
    ensures
        v == 30,
{
    30
}

/// Frame width and height in pixels.
pub fn default_resolution() -> (v: [u32; 2])
    ensures
        v == [160u32, 90u32],
{
    [160, 90]
}

/// Steps after which an episode is cut short.
pub fn default_max_episode_steps() -> (v: u32)
    ensures
        v == 10000,
{
    10000
}

/// Frames stacked into one observation.
pub fn default_frame_stack() -> (v: usize)
    ensures
        v == 2,
{
    2
}

/// Pickups placed on each map.
pub fn default_num_items() -> (v: usize)
    ensures
        v == 5,
{
    5
}

/// Tiles the player sees in each direction.
pub fn default_view_radius() -> (v: i32)
    ensures
        v == 6,
{
    6
}

/// Enemies per map in the exploration phase.
pub fn default_num_enemies_phase1() -> (v: usize)
    ensures
        v == 0,
{
    0
}

/// Enemies per map in the combat phase.
pub fn default_num_enemies_phase2() -> (v: usize)
    ensures
        v == 36,
{
    36
}

/// Maps to clear before the combat phase starts.
pub fn default_phase1_clears() -> (v: u32)
    ensures
        v == 5,
{
    5
}

/// Simulation steps per environment step.
pub fn default_action_repeat() -> (v: usize)
    ensures
        v == 4,
{
    4
}

/// Environment steps to train for.
pub fn default_total_timesteps() -> (v: u64)
    ensures
        v == 2_000_000,
{
    2_000_000
}

/// Steps collected per environment before each update.
pub fn default_n_steps() -> (v: usize)
    ensures
        v == 1024,
{
    1024
}

/// Samples per training batch.
pub fn default_batch_size() -> (v: usize)
    ensures
        v == 256,
{
    256
}

/// Passes over the collected steps per update.
pub fn default_n_epochs() -> (v: usize)
    ensures
        v == 4,
{
    4
}

/// Steps between checkpoints.
pub fn default_save_freq() -> (v: u64)
    ensures
        v == 100_000,
{
    100_000
}

/// Environments run side by side.
pub fn default_num_envs() -> (v: usize)
    ensures
        v == 2,
{
    2
}

/// Frame-rate cap of the simulator.
pub fn default_fps_cap() -> (v: u32)
    ensures
        v == 60,
{
    60
}

impl GameConfig {
    /// The game section of the full default configuration: every field at
    /// its `default_*` value.
    pub fn with_defaults() -> (c: GameConfig)
        ensures
            c.process_name@ == "Dungeons-Win64-Shipping.exe"@,
            c.window_title@ == "Minecraft Dungeons"@,
    {
        GameConfig { process_name: default_process_name(), window_title: default_window_title() }
    }
}

impl CaptureConfig {
    /// The capture section of the full default configuration: 30 frames per
    /// second at 160 by 90.
    pub fn with_defaults() -> (c: CaptureConfig)
        ensures
            c.target_fps == 30,
            c.resolution == [160u32, 90u32],
    {
        CaptureConfig { target_fps: default_target_fps(), resolution: default_resolution() }
    }
}

impl EnvConfig {
    /// The environment section of the full default configuration: every
    /// field at its `default_*` value.
    pub fn with_defaults() -> (c: EnvConfig)
        ensures
            c.max_episode_steps == 10000,
            c.frame_stack == 2,
            c.num_items == 5,
            c.view_radius == 6,
            c.num_enemies_phase1 == 0,
            c.num_enemies_phase2 == 36,
            c.phase1_clears == 5,
            c.action_repeat == 4,
    {
        EnvConfig {
            max_episode_steps: default_max_episode_steps(),
            frame_stack: default_frame_stack(),
            num_items: default_num_items(),
            view_radius: default_view_radius(),
            num_enemies_phase1: default_num_enemies_phase1(),
            num_enemies_phase2: default_num_enemies_phase2(),
            phase1_clears: default_phase1_clears(),
            action_repeat: default_action_repeat(),
        }
    }
}

} // verus!
