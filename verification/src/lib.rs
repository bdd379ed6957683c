//! Client-side core of a postcard-rpc style transport stack.
//!
//! The crate is organised from leaves to root:
//!
//! * [`framing`] - byte-stuffed, self-delimited frames over a byte stream;
//! * [`accumulator`] - the streaming receiver that turns arriving chunks
//!   into complete frames, with a bounded accumulation buffer;
//! * [`varint`] - the variable-length integer encoding used by message
//!   bodies;
//! * [`header`] - the wire header carrying a routing key and a sequence
//!   number;
//! * [`icd`] - the interface control document: the plain data types spoken
//!   between client, server and devices;
//! * [`value`] - a dynamic value tree mirroring the serde data model;
//! * [`dyncodec`] - the schema-directed codec between [`value`] trees and
//!   wire bytes;
//! * [`mux`] - the request/response multiplexer and topic fan-out;
//! * [`client`] - endpoint resolution and response classification for the
//!   typed RPC surface.

pub mod accumulator;
pub mod client;
pub mod dyncodec;
pub mod framing;
pub mod header;
pub mod icd;
pub mod mux;
pub mod value;
pub mod varint;
