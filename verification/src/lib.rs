//! Review-state store and daemon registry for a local diff-review tool.

mod clock;
pub mod config;
pub mod daemon;
pub mod error;
pub mod process;
pub mod registry;
pub mod state;
pub mod text;
