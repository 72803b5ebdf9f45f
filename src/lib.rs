//! Backup and restore planning: archive naming, per-run deduplication of
//! patterns and files, and the per-archive restore state machine.

pub mod naming;
pub mod restore;
pub mod run;
pub mod setup;
pub mod text_set;
