//! Verified core of a dungeon-crawling training environment: map generation
//! and loading, fog of war, the pixel work of rendering, and the bookkeeping
//! of episodes, curriculum and training.
pub mod grid;
pub mod random;
pub mod text;
pub mod entities;
pub mod config;
pub mod tiles;
pub mod dungeon;
pub mod generator;
pub mod npy;
pub mod spawn;
pub mod fog;
pub mod physics;
pub mod renderer;
pub mod env;
pub mod records;
pub mod schedule;
pub mod conv;
pub mod reach;
