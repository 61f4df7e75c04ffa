//! Limits that an insertion is checked against.
use vstd::prelude::*;

verus! {

/// Limits on one container, handed to every insertion.
#[derive(Debug, Clone, Copy, PartialEq, Eq, Structural)]
pub struct Limits {
    /// Maximum number of entries of one container.
    pub max_len: u32,
    /// Maximum length in bytes of one encoded entry.
    pub max_entry_byte_size: u32,
}

impl Limits {
    /// Limits with the given maximum entry count and entry size.
    pub fn new(max_len: u32, max_entry_byte_size: u32) -> (limits: Limits)
        ensures
            limits.max_len == max_len,
            limits.max_entry_byte_size == max_entry_byte_size,
    {
        Limits { max_len, max_entry_byte_size }
    }
}

} // verus!
