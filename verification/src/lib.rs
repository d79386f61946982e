//! Verified core of a small dotfiles manager: path handling, the
//! configuration files and the decisions that the commands take.

pub mod paths;
pub mod text;
pub mod toml_table;
pub mod config;
pub mod commands;
pub mod cli;
pub mod laws;
