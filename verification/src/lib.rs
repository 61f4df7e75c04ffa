//! Bounded, path-addressable key-value metadata.
//!
//! A [`Metadata`] maps [`Name`]s to [`Value`]s in ascending key order. A value
//! may itself be a container, so containers nest into a tree that is addressed
//! by a path of names. Insertion is checked against [`Limits`] that the caller
//! passes with every call: a maximum number of entries per container and a
//! maximum size of one entry in its canonical byte encoding.
//!
//! Every operation is verified against a contract over the map that a
//! container stands for, its view. The module [`model`] says what the
//! operations do to that map, [`size`] and [`encoding`] say how long it is and
//! how it is written in bytes, and [`laws`] proves what holds of the
//! operations together. The encodings of numbers, truth values, texts and
//! lengths come from the SCALE codec; what [`scale`] states of them is taken
//! from the codec's source and not proved here.
pub mod encoding;
pub mod error;
pub mod laws;
pub mod limits;
pub mod listing;
pub mod metadata;
pub mod model;
pub mod name;
pub mod nested;
pub mod order;
pub mod prelude;
pub mod scale;
pub mod size;
pub mod value;

pub use encoding::{check_size_limits, encode_entry};
pub use error::{ErrorView, MetadataError};
pub use limits::Limits;
pub use metadata::{Metadata, UnlimitedMetadata};
pub use name::{KeyOrder, Name};
pub use nested::Path;
pub use value::{MetadataView, Value, ValueView};
