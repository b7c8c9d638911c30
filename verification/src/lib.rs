//! A key-value store that a program embeds in its own executable file.
//!
//! The store lives in a *section* appended after the host file's original
//! bytes: a fixed six-byte marker followed by an opaque payload.  The library
//! holds the byte-level logic — scanning for the marker, locating the
//! section, and computing the new file image for an initialization or a
//! payload rewrite — as pure functions on byte buffers, each with a proved
//! contract.  Reading the file, the scratch copy, and the atomic swap are
//! left to the caller, which hands the file's bytes in and writes the
//! returned image out.

pub mod scan;
pub mod shed;
pub mod structure;

pub use crate::shed::Shed;
pub use crate::shed::ShedError;
pub use crate::structure::Store;
