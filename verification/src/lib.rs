//! A small remote procedure call framework with a verified core: a
//! length-prefixed JSON wire codec, the client's call multiplexer, the
//! server's service registry and dispatch, and the worker pool's queue
//! discipline.  The sockets, threads and locks that drive these cores
//! live outside the library and hand it plain values.

pub mod client;
pub mod codec;
pub mod error;
pub mod json;
pub mod server;
pub mod thread_pool;
