//! Cachet: the verified core of a local semantic cache for LLM APIs.
//!
//! The library holds every decision of the proxy: how a request is read and
//! keyed, when a stored answer is served, what is stored and for how long, how
//! headers are filtered, how a streamed answer is captured and replayed, and how
//! savings are counted. Reading sockets, clocks and the environment is left to
//! the program around it, which hands plain values in and takes plain values out.
use vstd::prelude::*;

pub mod buffer;
pub mod cache;
pub mod chat;
pub mod config;
pub mod dashboard;
pub mod embedder;
pub mod error;
pub mod headers;
pub mod json;
pub mod metrics;
pub mod pricing;
pub mod proxy;
pub mod score;
pub mod stream;
pub mod text;

verus! {

/// The product name, used in logs.
pub const PROJECT_NAME: &'static str = "Cachet";

/// The lowercase form of the name, used in error bodies.
pub const PROJECT_SLUG: &'static str = "cachet";

} // verus!
