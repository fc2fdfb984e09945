//! An aggregating tool-protocol gateway: one endpoint that speaks
//! line-delimited JSON-RPC 2.0 upstream while fanning requests out to a
//! fleet of child servers, each spoken to over its own stdin/stdout pair.
//!
//! This crate holds the verified core: the JSON and JSON-RPC codecs, the
//! per-child proxy state machine (id allocation, pending-response table,
//! initialization latch), the dispatcher's routing and tool-namespace
//! logic, and the registry of tool descriptors.  The surrounding process
//! plumbing (spawning children, async I/O, the command line) lives in a
//! thin unverified shell that drives these functions.

pub mod cli;
pub mod codec;
pub mod json;
pub mod mcp;
pub mod proxy;
pub mod registry;
pub mod server;

pub use cli::parse_env_var;
