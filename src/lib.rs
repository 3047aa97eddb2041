//! Streaming decompilation of the scripts in a scene document through one
//! multiplexed connection: payload parsing, content-addressed coalescing, byte
//! budget admission with a deferral queue, and output in document order.

pub mod assembler;
pub mod bytes;
pub mod client;
pub mod compiled;
pub mod options;
pub mod payload;
pub mod pipeline;
