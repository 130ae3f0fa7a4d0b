//! Editing the module-name metadata of a binary module container.
//!
//! A container is a fixed-width header followed by an ordered list of framed
//! sections.  The library parses a container into its sections, reads or
//! replaces the module name held in the custom section tagged `"name"`, and
//! reserializes the whole container so that every untouched section keeps its
//! bytes.

use vstd::prelude::*;

pub mod varint;
pub mod section;
pub mod namesec;
pub mod modname;
pub mod laws;

verus! {

/// Why a container, a section or a subsection could not be decoded, or a
/// freshly computed length could not be represented in the format.
#[derive(Clone, Copy, Debug, PartialEq, Eq, Structural)]
pub enum DecodeError {
    /// A variable-length integer ran past the end of its buffer or did not
    /// fit in 32 bits.
    MalformedVarint,
    /// A section's declared payload length exceeds the bytes that remain.
    TruncatedSection,
    /// A naming subsection's declared length exceeds the bytes that remain.
    TruncatedSubsection,
    /// A custom section's tag is not valid UTF-8.
    InvalidUtf8,
    /// A recomputed length field does not fit in 32 bits.
    EncodeOverflow,
}

} // verus!
