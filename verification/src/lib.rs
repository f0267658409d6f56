//! Decoder for the D88 floppy-disk container format.
//!
//! A D88 image is a global header (name, flags, a fixed table of track byte
//! offsets) followed by tracks, each track a chain of sector records whose
//! positions are discovered while decoding: every sector record carries the
//! size code from which the stride to the next record is computed.
//!
//! The decoders work on an in-memory byte source. Opening a file and reading
//! it into memory is left to the caller.

pub mod disk;
pub mod format;
pub mod laws;
pub mod order;
