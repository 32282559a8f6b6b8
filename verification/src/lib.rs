//! Scheduling, playing and controlling FOF grains for granular synthesis.
pub mod cli;
pub mod client;
pub mod clock;
pub mod delivery;
pub mod engine;
pub mod fastsin;
pub mod fof;
pub mod handover;
pub mod killing;
pub mod offline;
pub mod order;
pub mod pan;
pub mod playback;
pub mod pool;
pub mod probe;
pub mod queue;
pub mod ring;
pub mod runs;
pub mod schedule;
pub mod setup;
pub mod shm;
pub mod text;
pub mod wheel;

pub use clock::ClockMode;
pub use engine::RfofsEngine;
pub use fof::{FofKillRequest, FofParams};
pub use offline::OfflineRenderer;
pub use pan::PanMode;
