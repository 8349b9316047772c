//! Verified core of a local skill and script registry: configuration
//! merging, header extraction, tool-name derivation, indexing and search.
pub mod text;
pub mod clock;
pub mod tool_name;
pub mod config;
pub mod order;
pub mod skill;
pub mod paths;
pub mod sync;
pub mod header;
pub mod registry;
pub mod search;
pub mod mcp;
pub mod searcher;
pub mod settings;
pub mod scanner;
pub mod portable;
pub mod picker;
pub mod laws;
