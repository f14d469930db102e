//! A keyboard-driven local media viewer: its index model, navigation state
//! machine, caches, watcher and job decisions, and metadata parsers.

pub mod text;
pub mod paths;
pub mod timefmt;
pub mod jobs;
pub mod store;
pub mod nav;
pub mod scan;
pub mod watch;
pub mod display;
pub mod cache;
pub mod hash;
pub mod overlay;
pub mod png;
pub mod aimeta;
pub mod render;
