//! The canonical byte encoding of an entry, by which its size is measured.
//!
//! An entry is written as its key and then its value. A key is written as a
//! text. A value is written as one byte that tells its kind, then its content:
//! a number as its bytes, lowest first; a truth value as one byte; a text as
//! its length and its UTF-8 bytes; a container as the number of its entries and
//! then the entries in ascending key order.
use vstd::prelude::*;
use crate::error::{ErrorView, MetadataError};
use crate::limits::Limits;
use crate::listing::ascending;
use crate::metadata::{entry_keys, lemma_listing, lemma_view, Metadata};
use crate::name::Name;
use crate::scale::{
    bool_bytes, compact_bytes, le_bytes, scale_bool, scale_compact, scale_text, scale_u128,
    scale_u32, text_bytes, text_encodable,
};
use crate::value::{MetadataView, Value, ValueView};

verus! {

/// The byte that opens the encoding of a 32-bit number.
pub const TAG_U32: u8 = 0;

/// The byte that opens the encoding of a 128-bit number.
pub const TAG_U128: u8 = 1;

/// The byte that opens the encoding of a truth value.
pub const TAG_BOOL: u8 = 2;

/// The byte that opens the encoding of a text.
pub const TAG_STRING: u8 = 3;

/// The byte that opens the encoding of a container.
pub const TAG_METADATA: u8 = 4;

/// The encodings of the entries of `map` under `keys`, one after the other,
/// each with its key before its value.
pub open spec fn listed_bytes(map: MetadataView, keys: Seq<Seq<char>>) -> Seq<u8>
    decreases map, keys.len(),
    when map.dom().finite() && forall|i: int| 0 <= i < keys.len() ==> map.contains_key(keys[i])
{
    if keys.len() == 0 {
        Seq::empty()
    } else {
        listed_bytes(map, keys.drop_last()) + text_bytes(keys.last()) + view_bytes(
            map[keys.last()],
        )
    }
}

/// The encoding of a value: the byte of its kind, then its content.
pub open spec fn view_bytes(value: ValueView) -> Seq<u8>
    decreases value, 0nat,
{
    match value {
        ValueView::U32(n) => seq![TAG_U32] + le_bytes(n as nat, 4),
        ValueView::U128(n) => seq![TAG_U128] + le_bytes(n as nat, 16),
        ValueView::Bool(b) => seq![TAG_BOOL] + bool_bytes(b),
        ValueView::String(text) => seq![TAG_STRING] + text_bytes(text),
        ValueView::Container(map) => seq![TAG_METADATA] + compact_bytes(map.len() as u32)
            + listed_bytes(map, ascending(map.dom())),
    }
}

/// The encoding of a container: the compact number of its entries, then the
/// entries in ascending key order.
pub open spec fn map_bytes(map: MetadataView) -> Seq<u8> {
    compact_bytes(map.len() as u32) + listed_bytes(map, ascending(map.dom()))
}

/// The canonical encoding of the entry that holds `value` under `key`.
pub open spec fn entry_bytes(key: Seq<char>, value: ValueView) -> Seq<u8> {
    text_bytes(key) + view_bytes(value)
}

/// A value can be encoded: if it is a text, it is not too long for the codec.
/// (A container holds only what can be encoded.)
pub open spec fn view_encodable(value: ValueView) -> bool {
    value matches ValueView::String(text) ==> text_encodable(text)
}

/// Tells whether `text` can be encoded.
fn text_fits(text: &str) -> (fits: bool)
    ensures
        fits == text_encodable(text@),
{
    text.as_bytes().len() <= u32::MAX as usize
}

impl Name {
    /// The name can be encoded: its text is not too long for the codec.
    pub open spec fn encodable(self) -> bool {
        text_encodable(self@)
    }

    /// Tells whether the name can be encoded.
    pub fn is_encodable(&self) -> (fits: bool)
        ensures
            fits == self.encodable(),
    {
        text_fits(self.as_str())
    }
}

impl Value {
    /// The value can be encoded: if it is a text, it is not too long for the
    /// codec.
    pub open spec fn encodable(self) -> bool {
        view_encodable(self@)
    }

    /// Tells whether the value can be encoded.
    pub fn is_encodable(&self) -> (fits: bool)
        ensures
            fits == self.encodable(),
    {
        match self {
            Value::String(text) => text_fits(text.as_str()),
            _ => true,
        }
    }
}

/// Appends the encoding of `value` to `out`.
pub(crate) fn encode_value_to(value: &Value, out: &mut Vec<u8>)
    requires
        value.encodable(),
    ensures
        final(out)@ == old(out)@ + view_bytes(value@),
    decreases *value,
{
    match value {
        Value::U32(n) => {
            out.push(TAG_U32);
            let mut piece = scale_u32(*n);
            out.append(&mut piece);
        },
        Value::U128(n) => {
            out.push(TAG_U128);
            let mut piece = scale_u128(*n);
            out.append(&mut piece);
        },
        Value::Bool(b) => {
            out.push(TAG_BOOL);
            let mut piece = scale_bool(*b);
            out.append(&mut piece);
        },
        Value::String(s) => {
            out.push(TAG_STRING);
            let mut piece = scale_text(s.as_str());
            out.append(&mut piece);
        },
        Value::LimitedMetadata(m) => {
            proof {
                use_type_invariant(m);
                lemma_view(*m);
                lemma_listing(m.entries@);
            }
            out.push(TAG_METADATA);
            m.encode_to(out);
        },
    }
    assert(out@ =~= old(out)@ + view_bytes(value@));
}

impl Metadata {
    /// Appends the encoding of the container to `out`.
    pub(crate) fn encode_to(&self, out: &mut Vec<u8>)
        ensures
            final(out)@ == old(out)@ + map_bytes(self@),
        decreases *self,
    {
        proof {
            use_type_invariant(self);
            lemma_view(*self);
            lemma_listing(self.entries@);
        }
        let ghost keys = entry_keys(self.entries@);
        let count = self.entries.len();
        let mut piece = scale_compact(count as u32);
        out.append(&mut piece);
        let mut i: usize = 0;
        while i < count
            invariant
                i <= count,
                count == self.entries@.len(),
                self.well_formed(),
                keys == entry_keys(self.entries@),
                self@.dom().finite(),
                forall|j: int| 0 <= j < keys.len() ==> self@.contains_key(keys[j]),
                forall|j: int| 0 <= j < keys.len() ==> self@[keys[j]] == self.entries@[j].value@,
                out@ == old(out)@ + compact_bytes(count as u32) + listed_bytes(
                    self@,
                    keys.take(i as int),
                ),
            decreases count - i,
        {
            let entry = &self.entries[i];
            let mut piece = scale_text(entry.key.as_str());
            out.append(&mut piece);
            encode_value_to(&entry.value, out);
            proof {
                assert(keys.take(i + 1).drop_last() =~= keys.take(i as int));
                assert(keys.take(i + 1).last() == entry.key@);
            }
            i = i + 1;
        }
        proof {
            assert(keys.take(count as int) =~= keys);
        }
    }
}

/// The canonical encoding of the entry that holds `value` under `key`.
pub fn encode_entry(key: &Name, value: &Value) -> (bytes: Vec<u8>)
    requires
        key.encodable(),
        value.encodable(),
    ensures
        bytes@ == entry_bytes(key@, value@),
{
    let mut bytes = scale_text(key.as_str());
    encode_value_to(value, &mut bytes);
    bytes
}

/// Holds the size of the entry `key`, `value` against `limits`: an entry whose
/// encoding is longer than `limits.max_entry_byte_size` is refused.
pub fn check_size_limits(key: &Name, value: &Value, limits: Limits) -> (checked: Result<
    (),
    MetadataError,
>)
    requires
        key.encodable(),
        value.encodable(),
    ensures
        checked is Ok <==> entry_bytes(key@, value@).len() <= limits.max_entry_byte_size,
        checked matches Err(error) ==> error@ == (ErrorView::EntrySizeExceeded {
            max: limits.max_entry_byte_size,
            actual: entry_bytes(key@, value@).len(),
        }),
{
    let encoded = encode_entry(key, value);
    let byte_size = encoded.len();
    if byte_size > limits.max_entry_byte_size as usize {
        return Err(
            MetadataError::EntrySizeExceeded { max: limits.max_entry_byte_size, actual: byte_size },
        );
    }
    Ok(())
}

} // verus!
