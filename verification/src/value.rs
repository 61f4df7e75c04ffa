//! Values: what a container stores under a name.
use vstd::prelude::*;
use crate::metadata::Metadata;

verus! {

/// A stored value: a leaf, or a container of further values.
#[derive(Debug, PartialEq, Eq, PartialOrd, Ord)]
pub enum Value {
    /// A 32-bit number.
    U32(u32),
    /// A 128-bit number.
    U128(u128),
    /// A truth value.
    Bool(bool),
    /// A text.
    String(String),
    /// A nested container.
    LimitedMetadata(Metadata),
}

/// What a [`Value`] stands for: its leaf content, or for a container the map
/// from the texts of its keys to what its values stand for.
#[verifier::ext_equal]
pub enum ValueView {
    /// A 32-bit number.
    U32(u32),
    /// A 128-bit number.
    U128(u128),
    /// A truth value.
    Bool(bool),
    /// A text, by its characters.
    String(Seq<char>),
    /// A nested container, by its map.
    Container(Map<Seq<char>, ValueView>),
}

/// What a [`Metadata`] stands for: a finite map from the texts of its keys to
/// what its values stand for.
pub type MetadataView = Map<Seq<char>, ValueView>;

impl View for Value {
    type V = ValueView;

    open spec fn view(&self) -> ValueView {
        match *self {
            Value::U32(n) => ValueView::U32(n),
            Value::U128(n) => ValueView::U128(n),
            Value::Bool(b) => ValueView::Bool(b),
            Value::String(s) => ValueView::String(s@),
            Value::LimitedMetadata(m) => ValueView::Container(m@),
        }
    }
}

impl Value {
    /// A copy of the value, with copies of all that it holds.
    pub(crate) fn duplicate(&self) -> (copy: Value)
        ensures
            copy@ == self@,
        decreases *self,
    {
        match self {
            Value::U32(n) => Value::U32(*n),
            Value::U128(n) => Value::U128(*n),
            Value::Bool(b) => Value::Bool(*b),
            Value::String(s) => Value::String(s.clone()),
            Value::LimitedMetadata(m) => Value::LimitedMetadata(m.duplicate()),
        }
    }
}

impl Clone for Value {
    fn clone(&self) -> (copy: Value)
        ensures
            copy@ == self@,
    {
        self.duplicate()
    }
}

impl From<u32> for Value {
    fn from(number: u32) -> (value: Value) {
        Value::U32(number)
    }
}

impl vstd::std_specs::convert::FromSpecImpl<u32> for Value {
    open spec fn obeys_from_spec() -> bool {
        true
    }

    open spec fn from_spec(number: u32) -> Value {
        Value::U32(number)
    }
}

impl From<u128> for Value {
    fn from(number: u128) -> (value: Value) {
        Value::U128(number)
    }
}

impl vstd::std_specs::convert::FromSpecImpl<u128> for Value {
    open spec fn obeys_from_spec() -> bool {
        true
    }

    open spec fn from_spec(number: u128) -> Value {
        Value::U128(number)
    }
}

impl From<bool> for Value {
    fn from(truth: bool) -> (value: Value) {
        Value::Bool(truth)
    }
}

impl vstd::std_specs::convert::FromSpecImpl<bool> for Value {
    open spec fn obeys_from_spec() -> bool {
        true
    }

    open spec fn from_spec(truth: bool) -> Value {
        Value::Bool(truth)
    }
}

impl From<String> for Value {
    fn from(text: String) -> (value: Value) {
        Value::String(text)
    }
}

impl vstd::std_specs::convert::FromSpecImpl<String> for Value {
    open spec fn obeys_from_spec() -> bool {
        true
    }

    open spec fn from_spec(text: String) -> Value {
        Value::String(text)
    }
}

impl From<Metadata> for Value {
    fn from(container: Metadata) -> (value: Value) {
        Value::LimitedMetadata(container)
    }
}

impl vstd::std_specs::convert::FromSpecImpl<Metadata> for Value {
    open spec fn obeys_from_spec() -> bool {
        true
    }

    open spec fn from_spec(container: Metadata) -> Value {
        Value::LimitedMetadata(container)
    }
}

} // verus!
