//! Host-side building blocks for an embedded scripting runtime: a byte
//! stream that scripts consume one line or one JSON value at a time, and the
//! table of capabilities that a host exposes to scripts.

pub mod reader;
pub mod registry;
