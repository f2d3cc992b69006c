//! Client-side transport for the Language Server Protocol: frame parsing and
//! encoding, and the request/response correlation engine.
pub mod client;
pub mod json;
pub mod parsing;
