//! Why an insertion was refused.
use vstd::prelude::*;
use crate::name::Name;

verus! {

/// The reasons for which an insertion is refused. A refused insertion changes
/// nothing.
#[derive(Debug, PartialEq, Eq)]
pub enum MetadataError {
    /// The path has no segment.
    EmptyPath,
    /// A new key would take a container beyond `max` entries.
    LengthLimitExceeded { max: u32 },
    /// The encoded entry takes `actual` bytes, more than `max`.
    EntrySizeExceeded { max: u32, actual: usize },
    /// A segment before the last names no entry.
    MissingIntermediateKey { key: Name },
    /// A segment before the last names a value that is no container.
    NonContainerSegment { key: Name },
}

/// What a [`MetadataError`] stands for: the same reason, with a key given by
/// its text.
pub enum ErrorView {
    /// The path has no segment.
    EmptyPath,
    /// A new key would take a container beyond `max` entries.
    LengthLimitExceeded { max: u32 },
    /// The encoded entry takes `actual` bytes, more than `max`.
    EntrySizeExceeded { max: u32, actual: nat },
    /// A segment before the last, with text `key`, names no entry.
    MissingIntermediateKey { key: Seq<char> },
    /// A segment before the last, with text `key`, names a value that is no
    /// container.
    NonContainerSegment { key: Seq<char> },
}

impl View for MetadataError {
    type V = ErrorView;

    open spec fn view(&self) -> ErrorView {
        match *self {
            MetadataError::EmptyPath => ErrorView::EmptyPath,
            MetadataError::LengthLimitExceeded { max } => ErrorView::LengthLimitExceeded { max },
            MetadataError::EntrySizeExceeded { max, actual } => ErrorView::EntrySizeExceeded {
                max,
                actual: actual as nat,
            },
            MetadataError::MissingIntermediateKey { key } => ErrorView::MissingIntermediateKey {
                key: key@,
            },
            MetadataError::NonContainerSegment { key } => ErrorView::NonContainerSegment {
                key: key@,
            },
        }
    }
}

} // verus!
