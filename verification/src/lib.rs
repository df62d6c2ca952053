//! Parsing of a build tool's textual dependency reports, and a registry that
//! assembles the parsed records into a classified file table and a directed
//! "output depends on input" graph.

pub mod deps_file;
pub mod laws;
pub mod lines;
pub mod query_result;
pub mod registry;
pub mod store;
