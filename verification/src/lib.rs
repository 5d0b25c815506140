//! Reading and writing the binary file formats of a physics-based
//! motorcycle racing game: level files, input-replay recordings and the
//! global player/state database, together with a level-topology validator.
//!
//! Floating-point fields of the on-disk formats are carried as their
//! IEEE 754 bit patterns (`u64` for doubles, `u32` for singles), which keeps
//! every decode/encode step byte-exact; the few places that need real
//! floating-point arithmetic (count sentinels, integrity sums, timing)
//! implement the IEEE 754 operations exactly over those bit patterns.

use vstd::prelude::*;

pub mod bytes;
pub mod crypt;
pub mod fp;
pub mod lev;
pub mod rec;
pub mod state;
pub mod topology;
mod shared;
pub mod utils;

pub use shared::{BestTimes, BestTimesData, Clip, EntryData, Position, Time, TimeEntry, Version};

verus! {

/// General errors shared by all codecs.
#[derive(Debug, PartialEq)]
pub enum ElmaError {
    /// Across files are not supported.
    AcrossUnsupported,
    /// Not a level file, or a level file too short or malformed.
    InvalidLevelFile,
    /// Not a replay file, or a replay file too short or malformed.
    InvalidReplayFile,
    /// Not a state file, or a state file too short or malformed.
    InvalidStateFile,
    /// Invalid gravity value.
    InvalidGravity(i32),
    /// Invalid object value.
    InvalidObject(i32),
    /// Invalid clipping value.
    InvalidClipping(i32),
    /// End-of-data marker mismatch.
    EODMismatch,
    /// End-of-file marker mismatch.
    EOFMismatch,
    /// Invalid event value.
    InvalidEvent(u8),
    /// End-of-replay marker mismatch.
    EORMismatch,
    /// Invalid time format.
    InvalidTimeFormat,
    /// Too short padding.
    PaddingTooShort(isize),
    /// String contains non-ASCII characters.
    NonASCII,
    /// Input/output errors from std::io use.
    Io(std::io::ErrorKind),
    /// String errors from std::String.
    StringFromUtf8(usize),
}

#[verifier::external_type_specification]
#[verifier::external_body]
pub struct ExIoErrorKind(std::io::ErrorKind);

} // verus!
