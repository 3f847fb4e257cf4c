//! Verified core of a phrase-driven desktop launcher.

pub mod text;
pub mod url;
pub mod env;
pub mod commands;
pub mod settings;
pub mod watcher;
pub mod launcher;
pub mod paths;
