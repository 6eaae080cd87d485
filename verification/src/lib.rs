//! An incremental fuzzy matcher for path strings.
//!
//! Every path is analysed once into labelled locations and scored jumps,
//! which are folded into a graph. A query walks that graph one typed
//! character at a time and ranks the paths it can still reach.

pub mod text;
pub mod terminal;
pub mod location;
pub mod jump;
pub mod graph;
pub mod min_set;
pub mod query_result;
pub mod query;
pub mod index;
pub mod ui;
