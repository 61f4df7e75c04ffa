//! The names that most users of the library need.
pub use crate::limits::Limits as MetadataLimits;
pub use crate::metadata::{Metadata, UnlimitedMetadata};
