//! A minimal key-value store over a framed wire protocol.
//!
//! The crate holds the pure core of the system. Verus proves the contract
//! of every function in it but seven: the six in [`buffer`] that call the
//! `bytes` crate, and the one in [`text`] that calls `core::str::from_utf8`.
//! The contracts of these seven are stated from the sources and the
//! documentation of what they call, and are believed without proof. Input
//! and output stay with the programs that use the crate: they hand bytes in
//! and take bytes out.
//!
//! - [`frame`]: the values of the protocol.
//! - [`wire`]: the grammar, as mathematics: how a frame is written and what
//!   a reader makes of the bytes it holds.
//! - [`codec`]: `check`, `parse` and `encode`, proved against the grammar.
//! - [`laws`]: round trip, incremental delivery, and the other properties
//!   of the grammar.
//! - [`connection`]: the receive and send buffers of a stream of frames.
//! - [`stream`]: what the turns of reading come to over a whole stream.
//! - [`command`], [`store`], [`handler`]: the commands, the map they act
//!   on, and what a server answers to each frame.
//! - [`buffer`], [`text`], [`decimal`], [`error`]: the parts that the others
//!   are built on.

pub mod buffer;
pub mod codec;
pub mod command;
pub mod connection;
pub mod decimal;
pub mod error;
pub mod frame;
pub mod handler;
pub mod laws;
pub mod store;
pub mod stream;
pub mod text;
pub mod wire;
