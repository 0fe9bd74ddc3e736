//! The timeline: per-track clip sequences ordered by start, a clip table,
//! commands with exact inverses, undo/redo and journal replay.
pub mod avl;
pub mod clip;
pub mod command;
pub mod engine;
pub mod gap;
pub mod hash;
pub mod laws;
pub mod model;
pub mod preserve;
pub mod state;
pub mod track;
