//! Storage Harvester: configuration resolution, cached scan state, scan
//! accounting and metric/status rendering for a per-host storage exporter.

pub mod text;
pub mod time;
pub mod path;
pub mod config;
pub mod scanner;
pub mod cache;
pub mod exporter;
pub mod collector;
pub mod registry;
pub mod scheduler;
pub mod api;
