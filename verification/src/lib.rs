//! Pressure monitoring for safe-idle-worker governance: the decisions of a
//! service that watches external pressure on a shared resource (a GPU),
//! pauses a workload when the pressure is sustained and resumes it when the
//! pressure clears.

pub mod action;
pub mod config;
pub mod detector;
pub mod discovery;
pub mod logging;
pub mod metrics_server;
pub mod monitor;
pub mod text;

pub use logging::{LogFormat, LogLevel};
