//! The container and its single-level operations.
use std::collections::BTreeMap;
use vstd::prelude::*;
use crate::encoding::{check_size_limits, view_encodable};
use crate::error::MetadataError;
use crate::limits::Limits;
use crate::listing::{ascending, lemma_ascending_unique, strictly_ascending};
use crate::model::{spec_get, spec_insert_error, view_of};
use crate::name::{
    key_less, lemma_key_less_asymmetric, lemma_key_less_transitive, KeyOrder, Name,
};
use crate::scale::text_encodable;
use crate::value::{MetadataView, Value, ValueView};

verus! {

/// One stored pair of a container.
#[derive(Debug, PartialEq, Eq, PartialOrd, Ord)]
pub(crate) struct Entry {
    pub(crate) key: Name,
    pub(crate) value: Value,
}

/// A map from names to values, kept in ascending key order, with checked
/// insertion.
#[derive(Debug, PartialEq, Eq, PartialOrd, Ord)]
pub struct Metadata {
    pub(crate) entries: Vec<Entry>,
}

/// A map from names to values on which no limit is held.
pub type UnlimitedMetadata = BTreeMap<Name, Value>;

/// The keys of `entries` ascend strictly, so none occurs twice.
pub(crate) open spec fn keys_ascending(entries: Seq<Entry>) -> bool {
    forall|i: int, j: int|
        0 <= i < j < entries.len() ==> key_less(#[trigger] entries[i].key@, #[trigger] entries[j].key@)
}

/// The map that a sequence of entries stands for.
pub(crate) closed spec fn entries_view(entries: Seq<Entry>) -> MetadataView
    decreases entries,
{
    if entries.len() == 0 {
        Map::empty()
    } else {
        entries_view(entries.drop_last()).insert(
            entries.last().key@,
            value_view(entries.last().value),
        )
    }
}

/// What `value` stands for, by recursion over the values it holds.
pub(crate) closed spec fn value_view(value: Value) -> ValueView
    decreases value,
{
    match value {
        Value::U32(n) => ValueView::U32(n),
        Value::U128(n) => ValueView::U128(n),
        Value::Bool(b) => ValueView::Bool(b),
        Value::String(s) => ValueView::String(s@),
        Value::LimitedMetadata(m) => ValueView::Container(entries_view(m.entries@)),
    }
}

impl View for Metadata {
    type V = MetadataView;

    closed spec fn view(&self) -> MetadataView {
        entries_view(self.entries@)
    }
}

/// What can be stored in a container: a key and a value that can be encoded.
pub(crate) open spec fn entry_encodable(entry: Entry) -> bool {
    text_encodable(entry.key@) && view_encodable(entry.value@)
}

/// The texts of the keys of `entries`, in order.
pub(crate) open spec fn entry_keys(entries: Seq<Entry>) -> Seq<Seq<char>> {
    Seq::new(entries.len(), |i: int| entries[i].key@)
}

/// The keys of entries in ascending key order are the keys of their map in
/// ascending order, and the map holds under each the value of its entry.
pub(crate) proof fn lemma_listing(entries: Seq<Entry>)
    requires
        keys_ascending(entries),
    ensures
        entries_view(entries).dom().finite(),
        entries_view(entries).len() == entries.len(),
        ascending(entries_view(entries).dom()) == entry_keys(entries),
        forall|i: int|
            0 <= i < entries.len() ==> entries_view(entries).contains_key(
                #[trigger] entry_keys(entries)[i],
            ),
        forall|i: int|
            0 <= i < entries.len() ==> entries_view(entries)[#[trigger] entry_keys(entries)[i]]
                == entries[i].value@,
{
    let keys = entry_keys(entries);
    lemma_entries_view(entries);
    assert(strictly_ascending(keys)) by {
        assert forall|i: int, j: int| 0 <= i < j < keys.len() implies key_less(
            #[trigger] keys[i],
            #[trigger] keys[j],
        ) by {
            assert(key_less(entries[i].key@, entries[j].key@));
        }
    }
    lemma_ascending_unique(keys);
    assert(keys.to_set() =~= entries_view(entries).dom()) by {
        assert forall|key: Seq<char>| keys.to_set().contains(key) implies entries_view(
            entries,
        ).dom().contains(key) by {
            let i = choose|i: int| 0 <= i < keys.len() && keys[i] == key;
            assert(has_key_at(entries, i, key));
        }
        assert forall|key: Seq<char>| entries_view(entries).dom().contains(
            key,
        ) implies keys.to_set().contains(key) by {
            let i = choose|i: int| #[trigger] has_key_at(entries, i, key);
            assert(keys[i] == key);
        }
    }
    assert forall|i: int| 0 <= i < entries.len() implies entries_view(entries).contains_key(
        #[trigger] entry_keys(entries)[i],
    ) && entries_view(entries)[entry_keys(entries)[i]] == entries[i].value@ by {
        assert(entries_view(entries).contains_key(entries[i].key@));
    }
}

/// The view of a container is the map of its entries.
pub(crate) proof fn lemma_view(container: Metadata)
    ensures
        container@ == entries_view(container.entries@),
{
}

/// `value_view` is the view.
pub(crate) proof fn lemma_value_view(value: Value)
    ensures
        value_view(value) == value@,
{
}

/// The entry at `i` has a key with text `key`.
pub(crate) open spec fn has_key_at(entries: Seq<Entry>, i: int, key: Seq<char>) -> bool {
    0 <= i < entries.len() && entries[i].key@ == key
}

/// The map of entries in ascending key order holds each of them under its
/// key, and nothing else.
pub(crate) proof fn lemma_entries_view(entries: Seq<Entry>)
    requires
        keys_ascending(entries),
    ensures
        entries_view(entries).dom().finite(),
        entries_view(entries).len() == entries.len(),
        forall|key: Seq<char>| #[trigger]
            entries_view(entries).contains_key(key) <==> exists|i: int| #[trigger]
                has_key_at(entries, i, key),
        forall|i: int|
            0 <= i < entries.len() ==> entries_view(entries).contains_key(
                #[trigger] entries[i].key@,
            ) && entries_view(entries)[entries[i].key@] == entries[i].value@,
    decreases entries.len(),
{
    if entries.len() > 0 {
        let front = entries.drop_last();
        let last = entries.last();
        assert(keys_ascending(front));
        lemma_entries_view(front);
        lemma_value_view(last.value);
        assert(!entries_view(front).contains_key(last.key@)) by {
            if entries_view(front).contains_key(last.key@) {
                let i = choose|i: int| #[trigger] has_key_at(front, i, last.key@);
                assert(key_less(entries[i].key@, entries[entries.len() - 1].key@));
                lemma_key_less_asymmetric(entries[i].key@, last.key@);
            }
        }
        assert forall|key: Seq<char>| #[trigger]
            entries_view(entries).contains_key(key) <==> exists|i: int| #[trigger]
                has_key_at(entries, i, key) by {
            if entries_view(entries).contains_key(key) {
                if key == last.key@ {
                    assert(has_key_at(entries, entries.len() - 1, key));
                } else {
                    let i = choose|i: int| #[trigger] has_key_at(front, i, key);
                    assert(has_key_at(entries, i, key));
                }
            }
            if exists|i: int| #[trigger] has_key_at(entries, i, key) {
                let i = choose|i: int| #[trigger] has_key_at(entries, i, key);
                if i < entries.len() - 1 {
                    assert(has_key_at(front, i, key));
                }
            }
        }
        assert forall|i: int| 0 <= i < entries.len() implies entries_view(entries).contains_key(
            #[trigger] entries[i].key@,
        ) && entries_view(entries)[entries[i].key@] == entries[i].value@ by {
            if i < entries.len() - 1 {
                assert(front[i] == entries[i]);
                assert(key_less(entries[i].key@, entries[entries.len() - 1].key@));
                lemma_key_less_asymmetric(entries[i].key@, last.key@);
            }
        }
    }
}

/// Taking the entry at `i` out keeps the order and removes its key from the
/// map.
pub(crate) proof fn lemma_view_without(entries: Seq<Entry>, i: int)
    requires
        keys_ascending(entries),
        0 <= i < entries.len(),
    ensures
        keys_ascending(entries.remove(i)),
        entries_view(entries.remove(i)) == entries_view(entries).remove(entries[i].key@),
{
    let rest = entries.remove(i);
    let key = entries[i].key@;
    assert forall|a: int, b: int| 0 <= a < b < rest.len() implies key_less(
        #[trigger] rest[a].key@,
        #[trigger] rest[b].key@,
    ) by {
        let a0 = if a < i { a } else { a + 1 };
        let b0 = if b < i { b } else { b + 1 };
        assert(key_less(entries[a0].key@, entries[b0].key@));
    }
    lemma_entries_view(entries);
    lemma_entries_view(rest);
    let left = entries_view(rest);
    let right = entries_view(entries).remove(key);
    assert forall|k: Seq<char>| left.contains_key(k) <==> right.contains_key(k) by {
        if left.contains_key(k) {
            let j = choose|j: int| #[trigger] has_key_at(rest, j, k);
            let j0 = if j < i { j } else { j + 1 };
            assert(has_key_at(entries, j0, k));
            if j0 < i {
                assert(key_less(entries[j0].key@, entries[i].key@));
                lemma_key_less_asymmetric(entries[j0].key@, key);
            } else {
                assert(key_less(entries[i].key@, entries[j0].key@));
                lemma_key_less_asymmetric(key, entries[j0].key@);
            }
        }
        if right.contains_key(k) {
            let j0 = choose|j0: int| #[trigger] has_key_at(entries, j0, k);
            let j = if j0 < i { j0 } else { j0 - 1 };
            assert(has_key_at(rest, j, k));
        }
    }
    assert forall|k: Seq<char>| left.contains_key(k) implies left[k] == right[k] by {
        let j = choose|j: int| #[trigger] has_key_at(rest, j, k);
        let j0 = if j < i { j } else { j + 1 };
        assert(rest[j] == entries[j0]);
        assert(left[rest[j].key@] == rest[j].value@);
        assert(entries_view(entries)[entries[j0].key@] == entries[j0].value@);
    }
    assert(left =~= right);
}

/// Putting an entry where its key splits the others keeps the order and adds
/// the entry to the map.
pub(crate) proof fn lemma_view_with(entries: Seq<Entry>, i: int, entry: Entry)
    requires
        keys_ascending(entries),
        splits_at(entries, i, entry.key@),
    ensures
        keys_ascending(entries.insert(i, entry)),
        entries_view(entries.insert(i, entry)) == entries_view(entries).insert(
            entry.key@,
            entry.value@,
        ),
{
    let more = entries.insert(i, entry);
    assert forall|a: int, b: int| 0 <= a < b < more.len() implies key_less(
        #[trigger] more[a].key@,
        #[trigger] more[b].key@,
    ) by {
        let a0 = if a < i { a } else { a - 1 };
        let b0 = if b < i { b } else { b - 1 };
        if a == i {
            assert(key_less(entry.key@, entries[b0].key@));
        } else if b == i {
            assert(key_less(entries[a0].key@, entry.key@));
        } else {
            assert(key_less(entries[a0].key@, entries[b0].key@));
        }
    }
    lemma_entries_view(entries);
    lemma_entries_view(more);
    let left = entries_view(more);
    let right = entries_view(entries).insert(entry.key@, entry.value@);
    assert forall|k: Seq<char>| left.contains_key(k) <==> right.contains_key(k) by {
        if left.contains_key(k) {
            let j = choose|j: int| #[trigger] has_key_at(more, j, k);
            if j != i {
                let j0 = if j < i { j } else { j - 1 };
                assert(has_key_at(entries, j0, k));
            }
        }
        if right.contains_key(k) {
            if k == entry.key@ {
                assert(has_key_at(more, i, k));
            } else {
                let j0 = choose|j0: int| #[trigger] has_key_at(entries, j0, k);
                let j = if j0 < i { j0 } else { j0 + 1 };
                assert(has_key_at(more, j, k));
            }
        }
    }
    assert forall|k: Seq<char>| left.contains_key(k) implies left[k] == right[k] by {
        let j = choose|j: int| #[trigger] has_key_at(more, j, k);
        assert(left[more[j].key@] == more[j].value@);
        if j != i {
            let j0 = if j < i { j } else { j - 1 };
            assert(more[j] == entries[j0]);
            assert(entries_view(entries)[entries[j0].key@] == entries[j0].value@);
            if j0 < i {
                lemma_key_less_asymmetric(entries[j0].key@, entry.key@);
            } else {
                lemma_key_less_asymmetric(entry.key@, entries[j0].key@);
            }
        }
    }
    assert(left =~= right);
}

/// Putting another value in the place of the entry at `i` keeps the order and
/// puts that value under the entry's key in the map.
pub(crate) proof fn lemma_view_replaced(entries: Seq<Entry>, i: int, entry: Entry)
    requires
        keys_ascending(entries),
        0 <= i < entries.len(),
        entry.key@ == entries[i].key@,
    ensures
        keys_ascending(entries.update(i, entry)),
        entries_view(entries.update(i, entry)) == entries_view(entries).insert(
            entry.key@,
            entry.value@,
        ),
{
    let changed = entries.update(i, entry);
    assert forall|a: int, b: int| 0 <= a < b < changed.len() implies key_less(
        #[trigger] changed[a].key@,
        #[trigger] changed[b].key@,
    ) by {
        assert(key_less(entries[a].key@, entries[b].key@));
    }
    lemma_entries_view(entries);
    lemma_entries_view(changed);
    let left = entries_view(changed);
    let right = entries_view(entries).insert(entry.key@, entry.value@);
    assert forall|k: Seq<char>| left.contains_key(k) <==> right.contains_key(k) by {
        if left.contains_key(k) {
            let j = choose|j: int| #[trigger] has_key_at(changed, j, k);
            assert(has_key_at(entries, j, k));
        }
        if right.contains_key(k) {
            if k == entry.key@ {
                assert(has_key_at(changed, i, k));
            } else {
                let j = choose|j: int| #[trigger] has_key_at(entries, j, k);
                assert(has_key_at(changed, j, k));
            }
        }
    }
    assert forall|k: Seq<char>| left.contains_key(k) implies left[k] == right[k] by {
        let j = choose|j: int| #[trigger] has_key_at(changed, j, k);
        assert(left[changed[j].key@] == changed[j].value@);
        if j != i {
            assert(changed[j] == entries[j]);
            assert(entries_view(entries)[entries[j].key@] == entries[j].value@);
            if j < i {
                assert(key_less(entries[j].key@, entries[i].key@));
                lemma_key_less_asymmetric(entries[j].key@, entry.key@);
            } else {
                assert(key_less(entries[i].key@, entries[j].key@));
                lemma_key_less_asymmetric(entry.key@, entries[j].key@);
            }
        }
    }
    assert(left =~= right);
}

/// Entries with the same keys and values, one by one, stand for the same map.
pub(crate) proof fn lemma_same_view(entries: Seq<Entry>, others: Seq<Entry>)
    requires
        keys_ascending(entries),
        entries.len() == others.len(),
        forall|i: int|
            0 <= i < entries.len() ==> (#[trigger] others[i]).key@ == entries[i].key@
                && others[i].value@ == entries[i].value@,
    ensures
        keys_ascending(others),
        entries_view(others) == entries_view(entries),
{
    assert forall|a: int, b: int| 0 <= a < b < others.len() implies key_less(
        #[trigger] others[a].key@,
        #[trigger] others[b].key@,
    ) by {
        assert(key_less(entries[a].key@, entries[b].key@));
    }
    lemma_entries_view(entries);
    lemma_entries_view(others);
    let left = entries_view(others);
    let right = entries_view(entries);
    assert forall|k: Seq<char>| left.contains_key(k) <==> right.contains_key(k) by {
        if left.contains_key(k) {
            let j = choose|j: int| #[trigger] has_key_at(others, j, k);
            assert(has_key_at(entries, j, k));
        }
        if right.contains_key(k) {
            let j = choose|j: int| #[trigger] has_key_at(entries, j, k);
            assert(has_key_at(others, j, k));
        }
    }
    assert forall|k: Seq<char>| left.contains_key(k) implies left[k] == right[k] by {
        let j = choose|j: int| #[trigger] has_key_at(others, j, k);
        assert(left[others[j].key@] == others[j].value@);
        assert(right[entries[j].key@] == entries[j].value@);
    }
    assert(left =~= right);
}

/// Where a key is, or would be, among entries in ascending key order.
pub(crate) enum Slot {
    /// The entry at this index has the key.
    Found(usize),
    /// No entry has the key; put at this index it keeps the order.
    Vacant(usize),
}

/// Every entry before `i` has a key before `key`, and every entry from `i` on
/// a key after it.
pub(crate) open spec fn splits_at(entries: Seq<Entry>, i: int, key: Seq<char>) -> bool {
    &&& 0 <= i <= entries.len()
    &&& forall|j: int| 0 <= j < i ==> key_less(#[trigger] entries[j].key@, key)
    &&& forall|j: int| i <= j < entries.len() ==> key_less(key, #[trigger] entries[j].key@)
}

/// Among entries that a key splits, none has that key.
pub(crate) proof fn lemma_split_key_absent(entries: Seq<Entry>, i: int, key: Seq<char>)
    requires
        keys_ascending(entries),
        splits_at(entries, i, key),
    ensures
        !entries_view(entries).contains_key(key),
{
    lemma_entries_view(entries);
    if entries_view(entries).contains_key(key) {
        let j = choose|j: int| #[trigger] has_key_at(entries, j, key);
        if j < i {
            lemma_key_less_asymmetric(entries[j].key@, key);
        } else {
            lemma_key_less_asymmetric(key, entries[j].key@);
        }
    }
}

/// Finds `key` among `entries` by bisection.
pub(crate) fn search(entries: &Vec<Entry>, key: &Name) -> (slot: Slot)
    requires
        keys_ascending(entries@),
    ensures
        match slot {
            Slot::Found(i) => has_key_at(entries@, i as int, key@),
            Slot::Vacant(i) => splits_at(entries@, i as int, key@),
        },
{
    let mut low: usize = 0;
    let mut high: usize = entries.len();
    while low < high
        invariant
            low <= high <= entries@.len(),
            keys_ascending(entries@),
            forall|j: int| 0 <= j < low ==> key_less(#[trigger] entries@[j].key@, key@),
            forall|j: int| high <= j < entries@.len() ==> key_less(key@, #[trigger] entries@[j].key@),
        decreases high - low,
    {
        let middle = low + (high - low) / 2;
        match entries[middle].key.compare(key) {
            KeyOrder::Before => {
                proof {
                    assert forall|j: int| 0 <= j < middle + 1 implies key_less(
                        #[trigger] entries@[j].key@,
                        key@,
                    ) by {
                        if j < middle {
                            assert(key_less(entries@[j].key@, entries@[middle as int].key@));
                            lemma_key_less_transitive(
                                entries@[j].key@,
                                entries@[middle as int].key@,
                                key@,
                            );
                        }
                    }
                }
                low = middle + 1;
            },
            KeyOrder::Same => {
                return Slot::Found(middle);
            },
            KeyOrder::After => {
                proof {
                    assert forall|j: int| middle <= j < entries@.len() implies key_less(
                        key@,
                        #[trigger] entries@[j].key@,
                    ) by {
                        if middle < j {
                            assert(key_less(entries@[middle as int].key@, entries@[j].key@));
                            lemma_key_less_transitive(
                                key@,
                                entries@[middle as int].key@,
                                entries@[j].key@,
                            );
                        }
                    }
                }
                high = middle;
            },
        }
    }
    Slot::Vacant(low)
}

impl Clone for Metadata {
    fn clone(&self) -> (copy: Metadata)
        ensures
            copy@ == self@,
    {
        self.duplicate()
    }
}

impl Default for Metadata {
    fn default() -> (made: Metadata)
        ensures
            made@ == MetadataView::empty(),
    {
        Metadata::new()
    }
}

impl Metadata {
    #[verifier::type_invariant]
    pub(crate) open spec fn well_formed(self) -> bool {
        &&& keys_ascending(self.entries@)
        &&& self.entries@.len() <= u32::MAX
        &&& forall|i: int| 0 <= i < self.entries@.len() ==> entry_encodable(#[trigger] self.entries@[i])
    }

    /// An empty container.
    pub fn new() -> (made: Metadata)
        ensures
            made@ == MetadataView::empty(),
    {
        Metadata { entries: Vec::new() }
    }

    /// A container with copies of all entries.
    pub(crate) fn duplicate(&self) -> (copy: Metadata)
        ensures
            copy@ == self@,
        decreases *self,
    {
        proof {
            use_type_invariant(self);
        }
        let mut entries: Vec<Entry> = Vec::new();
        let mut i: usize = 0;
        while i < self.entries.len()
            invariant
                i <= self.entries@.len(),
                entries@.len() == i,
                forall|j: int|
                    0 <= j < i ==> (#[trigger] entries@[j]).key@ == self.entries@[j].key@
                        && entries@[j].value@ == self.entries@[j].value@,
            decreases self.entries@.len() - i,
        {
            let entry = &self.entries[i];
            entries.push(Entry { key: entry.key.clone(), value: entry.value.duplicate() });
            i = i + 1;
        }
        proof {
            lemma_same_view(self.entries@, entries@);
        }
        Metadata { entries }
    }

    /// The number of entries.
    pub fn len(&self) -> (len: usize)
        ensures
            len == self@.len(),
            self@.dom().finite(),
    {
        proof {
            use_type_invariant(self);
            lemma_entries_view(self.entries@);
        }
        self.entries.len()
    }

    /// The keys, in ascending order.
    pub fn keys(&self) -> (keys: Vec<&Name>)
        ensures
            keys@.len() == self@.len(),
            forall|i: int| 0 <= i < keys@.len() ==> keys@[i]@ == ascending(self@.dom())[i],
            forall|i: int| 0 <= i < keys@.len() ==> (#[trigger] keys@[i]).encodable(),
    {
        proof {
            use_type_invariant(self);
            lemma_listing(self.entries@);
        }
        let mut keys: Vec<&Name> = Vec::new();
        let mut i: usize = 0;
        while i < self.entries.len()
            invariant
                i <= self.entries@.len(),
                keys@.len() == i,
                self.well_formed(),
                forall|j: int| 0 <= j < i ==> keys@[j]@ == entry_keys(self.entries@)[j],
                forall|j: int| 0 <= j < i ==> (#[trigger] keys@[j]).encodable(),
            decreases self.entries@.len() - i,
        {
            keys.push(&self.entries[i].key);
            i = i + 1;
        }
        keys
    }

    /// The value under `key`, if there is one.
    pub fn get(&self, key: &Name) -> (found: Option<&Value>)
        ensures
            view_of(found) == spec_get(self@, key@),
            found matches Some(value) ==> value.encodable(),
    {
        proof {
            use_type_invariant(self);
            lemma_entries_view(self.entries@);
        }
        match search(&self.entries, key) {
            Slot::Found(i) => Some(&self.entries[i].value),
            Slot::Vacant(i) => {
                proof {
                    lemma_split_key_absent(self.entries@, i as int, key@);
                }
                None
            },
        }
    }

    /// Takes the value under `key` out, if there is one, and returns it.
    /// Without one the container stays as it is.
    pub fn remove(&mut self, key: &Name) -> (removed: Option<Value>)
        ensures
            view_of(removed) == spec_get(old(self)@, key@),
            removed matches Some(value) ==> value.encodable(),
            final(self)@ == old(self)@.remove(key@),
    {
        proof {
            use_type_invariant(&*self);
            lemma_entries_view(self.entries@);
        }
        match search(&self.entries, key) {
            Slot::Found(i) => {
                let mut entries: Vec<Entry> = Vec::new();
                std::mem::swap(&mut entries, &mut self.entries);
                proof {
                    lemma_view_without(entries@, i as int);
                }
                let entry = entries.remove(i);
                self.entries = entries;
                Some(entry.value)
            },
            Slot::Vacant(i) => {
                proof {
                    lemma_split_key_absent(self.entries@, i as int, key@);
                    assert(self@.remove(key@) =~= self@);
                }
                None
            },
        }
    }

    /// Puts `value` under `key` and returns the value that was there, if
    /// there was one.
    ///
    /// An insertion under a new key is refused where the container already
    /// holds `limits.max_len` entries. After that test, any insertion is
    /// refused where the encoded entry is longer than
    /// `limits.max_entry_byte_size`. A refused insertion changes nothing.
    pub fn insert_with_limits(&mut self, key: Name, value: Value, limits: Limits) -> (inserted:
        Result<Option<Value>, MetadataError>)
        requires
            key.encodable(),
            value.encodable(),
        ensures
            match inserted {
                Ok(previous) => {
                    &&& spec_insert_error(old(self)@, key@, value@, limits) is None
                    &&& view_of(previous) == spec_get(old(self)@, key@)
                    &&& previous matches Some(replaced) ==> replaced.encodable()
                    &&& final(self)@ == old(self)@.insert(key@, value@)
                },
                Err(error) => {
                    &&& spec_insert_error(old(self)@, key@, value@, limits) == Some(error@)
                    &&& final(self)@ == old(self)@
                },
            },
    {
        proof {
            use_type_invariant(&*self);
            lemma_entries_view(self.entries@);
        }
        let slot = search(&self.entries, &key);
        match slot {
            Slot::Found(_) => {},
            Slot::Vacant(i) => {
                proof {
                    lemma_split_key_absent(self.entries@, i as int, key@);
                }
                if self.entries.len() >= limits.max_len as usize {
                    return Err(MetadataError::LengthLimitExceeded { max: limits.max_len });
                }
            },
        }
        match check_size_limits(&key, &value, limits) {
            Ok(()) => {},
            Err(error) => {
                return Err(error);
            },
        }
        let mut entries: Vec<Entry> = Vec::new();
        std::mem::swap(&mut entries, &mut self.entries);
        match slot {
            Slot::Found(i) => {
                let mut value = value;
                proof {
                    lemma_view_replaced(
                        entries@,
                        i as int,
                        Entry { key: entries@[i as int].key, value },
                    );
                }
                std::mem::swap(&mut entries[i].value, &mut value);
                self.entries = entries;
                Ok(Some(value))
            },
            Slot::Vacant(i) => {
                proof {
                    lemma_view_with(entries@, i as int, Entry { key, value });
                }
                entries.insert(i, Entry { key, value });
                self.entries = entries;
                Ok(None)
            },
        }
    }
}

} // verus!
