//! Reading the calibration record out of a Looking Glass display.
//!
//! The display stores a JSON-formatted configuration document in its
//! persistent memory, reachable over a fixed-size report protocol: each
//! 64-byte page is requested by address and answered with a response that
//! echoes the address. This crate holds the verified core of that path:
//! framing page requests, validating response echoes, reassembling the
//! length-prefixed document stream, and decoding the document into a typed
//! record. The transport itself (opening a device handle, sending and
//! reading reports) is driven by an unverified shell that feeds bytes in
//! and out of the functions here.

pub mod errors;
pub mod protocol;
pub mod assemble;
pub mod trusted;
pub mod jsondoc;
pub mod numtok;
pub mod record;
