//! A small HTTP/1.1 server's core: the request parser, the response model
//! and its wire bytes, the handler chain with its first-match rule, the
//! fallback responses, and the round-robin choice of worker.
use vstd::prelude::*;

pub mod text;
pub mod bytes;
pub mod request;
pub mod response;
pub mod middleware;
pub mod connection;
pub mod pool;

verus! {

} // verus!
