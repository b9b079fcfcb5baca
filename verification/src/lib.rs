//! Supervision core for a long-lived speech-to-text worker process.
//!
//! The library holds the logic of the supervisor: the respawn state machine
//! with backoff, the line-delimited JSON wire protocol, the event dispatcher
//! that maintains the recording flag and usage statistics, the debounced
//! hotkey controller, and the durable usage-stats store with daily rollover.
//! All I/O (spawning the worker, reading its streams, touching the stats
//! file) stays outside; the functions here compute over plain values.

pub mod bytes_util;
pub mod controller;
pub mod date;
pub mod decimal;
pub mod dispatcher;
pub mod events;
pub mod json;
pub mod postprocess;
pub mod settings;
pub mod stats;
pub mod stats_file;
pub mod supervisor;
pub mod text_metrics;
pub mod wire;
