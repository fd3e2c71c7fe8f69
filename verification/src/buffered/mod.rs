//! Buffering for byte sinks.

use vstd::prelude::*;

pub mod run;
pub mod writer;

pub use self::writer::BufWriter;

verus! {

/// The number of bytes that a buffer holds.
pub const DEFAULT_BUF_SIZE: usize = 1024;

} // verus!
