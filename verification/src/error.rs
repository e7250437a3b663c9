use vstd::prelude::*;

verus! {

/// The ways a decode pass over a time-zone file can fail.
///
/// A failure aborts the current decode pass; no partial result is returned.
#[derive(Debug, PartialEq, Eq, Structural, Clone, Copy)]
pub enum TzError {
    /// A decode step requested more bytes than remained in the buffer.
    BufferUnderrun,
    /// The four-byte `TZif` signature at the start of the file was missing.
    BadMagic,
    /// The version byte was not one of the recognized markers.
    BadVersion,
}

} // verus!
