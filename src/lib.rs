//! An in-memory JSON document store: path addressing, the line protocol,
//! and the store engine's decisions.

pub mod client;
pub mod duration;
pub mod error;
pub mod json;
pub mod jsonpath;
pub mod options;
pub mod rpc;
pub mod service;
pub mod text;
