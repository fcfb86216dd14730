//! Decision logic of a command line client for MCP servers: which servers and tools
//! there are, under which names tools are exported, what a call may look like, and what
//! becomes of retries, batches and listings.

pub mod apps;
pub mod arguments;
pub mod auth;
pub mod batch;
pub mod catalog;
pub mod config;
pub mod failure;
pub mod json;
pub mod listing;
pub mod naming;
pub mod plugins;
pub mod retry;
pub mod serve;
pub mod servers;
pub mod sort;
pub mod table;
pub mod text;
