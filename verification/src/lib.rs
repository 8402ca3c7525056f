//! Core of a file-change notifier: path filtering, configuration parsing,
//! debounced coalescing of change signals, and snapshot diffing for the
//! polling detection mode. The surrounding process (I/O loops, threads,
//! signal handling) drives these verified pieces.

pub mod config;
pub mod debounce;
pub mod events;
pub mod filter;
pub mod snapshot;
pub mod strutil;

pub use config::parse_extensions;
pub use config::Config;
pub use filter::is_ignored;
pub use filter::is_ignored_path;
pub use filter::matches_extension;
