//! Chunked transfer of one file's bytes over an ordered, reliable byte
//! stream: the wire codec, the two framing protocols and the per-session
//! bookkeeping that decides what is read and written next.
pub mod codec;
pub mod config;
pub mod declared;
pub mod error;
pub mod sentinel;
