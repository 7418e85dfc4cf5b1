//! Verified core of CodeCompass: scanning decisions, dependency and call
//! graphs, cycle detection, reading paths, impact analysis, repository
//! evolution and the text analyses behind them.
use vstd::prelude::*;

pub mod call_graph;
pub mod css_analyzer;
pub mod decimal;
pub mod digraph;
pub mod entrypoint;
pub mod error;
pub mod evolution;
pub mod findings;
pub mod git;
pub mod graph;
pub mod health;
pub mod id_graph;
pub mod impact;
pub mod models;
pub mod platform;
pub mod plugin;
pub mod reading_path;
pub mod references;
pub mod runner;
pub mod scanner;
pub mod source_text;
pub mod symbols;
pub mod tasks;
pub mod text;
pub mod ts_js;
pub mod workspaces;

verus! {

/// The filename used for the SQLite database within the app data directory.
pub fn database_filename() -> (r: &'static str)
    ensures
        r@ == "codecompass.db"@,
{
    "codecompass.db"
}

} // verus!
