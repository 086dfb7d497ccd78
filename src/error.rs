//! Why a transfer failed.
use vstd::prelude::*;

verus! {

/// The ways a transfer can fail.
#[derive(Clone, Copy, Debug, PartialEq, Eq, Structural)]
pub enum TransferError {
    /// The connection could not be made, accepted or bound.
    Connection,
    /// The source could not be opened or read, or the destination could not
    /// be created (it already exists, or permission was denied) or written.
    FileSystem,
    /// The stream ended or failed before a header or payload was complete.
    Framing,
    /// A chunk size of zero was chosen or announced.
    ZeroChunkSize,
}

} // verus!
