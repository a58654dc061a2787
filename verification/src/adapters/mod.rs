//! Adapters: the contract that tool surfaces share, and the rules of the
//! surfaces themselves.

pub mod api;
pub mod bytes;
pub mod fs;
pub mod http;
pub mod listing;
pub mod local;
pub mod mcp;
pub mod paths;
pub mod process;
pub mod sessions;
pub mod shell;
