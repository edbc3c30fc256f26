//! Verified cores of a set of small futures/tokio programs: a newline
//! delimited line codec, Fibonacci generators, hand written futures and
//! streams as poll state machines, and the bookkeeping of a websocket
//! broadcast server.

pub mod buffer;
pub mod codec;
pub mod generator;
pub mod peers;
pub mod poll;
pub mod service;
