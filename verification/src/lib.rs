//! Master-node telemetry pipeline: frame wire codec, per-peer frame
//! accumulation, device identity assignment, dual-path dispatch (network sink
//! or durable block log), and the supporting clock and timer state.
//!
//! Hardware edges (wireless driver, TCP socket, SD card block transfers,
//! persisted key-value cells) live outside this crate; the pipeline here works
//! on the plain values those edges hand in and out.

pub mod clock;
pub mod codec;
pub mod delivery;
pub mod frame;
pub mod identity;
pub mod health;
pub mod lineproto;
pub mod logstore;
pub mod pipeline;
pub mod timer;
