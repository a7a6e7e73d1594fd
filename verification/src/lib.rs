//! An in-memory index of candidate names (cheat-sheet files) with exact
//! lookup, prefix enumeration and ranked fuzzy search, together with the
//! small pure cores of the surrounding tool: configuration values, git
//! command planning, and path/name helpers.

pub mod config;
pub mod git;
pub mod ranking;
pub mod score;
pub mod text;
pub mod trie;
pub mod tries;
pub mod utils;

pub use config::Config;
