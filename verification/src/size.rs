//! The cumulative length of a container: how many values it holds, counted
//! through all nested containers.
use vstd::prelude::*;
use crate::listing::{ascending, lemma_ascending_lists, lemma_ascending_without};
use crate::metadata::{entry_keys, lemma_listing, lemma_view, Metadata};
use crate::value::{MetadataView, Value, ValueView};

verus! {

/// The sum, over the entries of `map` under `keys`, of one for the entry and
/// the length of its value.
pub open spec fn listed_len(map: MetadataView, keys: Seq<Seq<char>>) -> nat
    decreases map, keys.len(),
    when map.dom().finite() && forall|i: int| 0 <= i < keys.len() ==> map.contains_key(keys[i])
{
    if keys.len() == 0 {
        0
    } else {
        listed_len(map, keys.drop_last()) + 1 + view_len(map[keys.last()])
    }
}

/// The length of a value: one for a leaf, and for a container one more than
/// its cumulative length.
pub open spec fn view_len(value: ValueView) -> nat
    decreases value, 0nat,
{
    match value {
        ValueView::Container(map) => listed_len(map, ascending(map.dom())) + 1,
        _ => 1,
    }
}

/// The cumulative length of a container: over its entries, the sum of one for
/// the entry and the length of its value.
pub open spec fn map_len(map: MetadataView) -> nat {
    listed_len(map, ascending(map.dom()))
}

/// The sum over the first `n` of `keys` is no more than the sum over all.
proof fn lemma_listed_len_prefix(map: MetadataView, keys: Seq<Seq<char>>, n: int)
    requires
        map.dom().finite(),
        forall|i: int| 0 <= i < keys.len() ==> map.contains_key(keys[i]),
        0 <= n <= keys.len(),
    ensures
        listed_len(map, keys.take(n)) <= listed_len(map, keys),
    decreases keys.len(),
{
    if n == keys.len() {
        assert(keys.take(n) =~= keys);
    } else {
        lemma_listed_len_prefix(map, keys.drop_last(), n);
        assert(keys.drop_last().take(n) =~= keys.take(n));
    }
}

/// Without the key at `at`, the sum is less by what the entry under that key
/// counts.
proof fn lemma_listed_len_without(map: MetadataView, keys: Seq<Seq<char>>, at: int)
    requires
        map.dom().finite(),
        forall|i: int| 0 <= i < keys.len() ==> map.contains_key(keys[i]),
        0 <= at < keys.len(),
    ensures
        listed_len(map, keys) == listed_len(map, keys.remove(at)) + 1 + view_len(map[keys[at]]),
    decreases keys.len(),
{
    if at == keys.len() - 1 {
        assert(keys.remove(at) =~= keys.drop_last());
    } else {
        lemma_listed_len_without(map, keys.drop_last(), at);
        assert(keys.remove(at).drop_last() =~= keys.drop_last().remove(at));
        assert(keys.remove(at).last() == keys.last());
    }
}

/// The sum depends on the values under the listed keys alone.
proof fn lemma_listed_len_same(map: MetadataView, other: MetadataView, keys: Seq<Seq<char>>)
    requires
        map.dom().finite(),
        other.dom().finite(),
        forall|i: int|
            0 <= i < keys.len() ==> map.contains_key(keys[i]) && other.contains_key(keys[i])
                && map[keys[i]] == other[keys[i]],
    ensures
        listed_len(map, keys) == listed_len(other, keys),
    decreases keys.len(),
{
    if keys.len() > 0 {
        lemma_listed_len_same(map, other, keys.drop_last());
    }
}

/// An empty container has the cumulative length zero.
pub(crate) proof fn lemma_map_len_empty()
    ensures
        map_len(MetadataView::empty()) == 0,
{
    assert(MetadataView::empty().dom() =~= Set::<Seq<char>>::empty());
}

/// Without the entry under `key`, a container's cumulative length is less by
/// what that entry counts: one and the length of its value.
pub(crate) proof fn lemma_map_len_remove(map: MetadataView, key: Seq<char>)
    requires
        map.dom().finite(),
        map.contains_key(key),
    ensures
        map_len(map) == map_len(map.remove(key)) + 1 + view_len(map[key]),
{
    let listed = ascending(map.dom());
    lemma_ascending_lists(map.dom());
    let at = lemma_ascending_without(map.dom(), key);
    assert forall|i: int| 0 <= i < listed.len() implies map.contains_key(listed[i]) by {
        assert(listed.to_set().contains(listed[i]));
    }
    lemma_listed_len_without(map, listed, at);
    let fewer = listed.remove(at);
    lemma_ascending_lists(map.dom().remove(key));
    assert(map.remove(key).dom() =~= map.dom().remove(key));
    assert forall|i: int| 0 <= i < fewer.len() implies map.contains_key(fewer[i])
        && map.remove(key).contains_key(fewer[i]) && map[fewer[i]] == map.remove(key)[fewer[i]] by {
        assert(fewer.to_set().contains(fewer[i]));
    }
    lemma_listed_len_same(map, map.remove(key), fewer);
}

/// With `value` under `key`, a container's cumulative length is more by what
/// the new entry counts and less by what the entry counted that was under
/// `key` before, if there was one.
pub(crate) proof fn lemma_map_len_insert(map: MetadataView, key: Seq<char>, value: ValueView)
    requires
        map.dom().finite(),
    ensures
        map_len(map.insert(key, value)) + (if map.contains_key(key) {
            1 + view_len(map[key])
        } else {
            0
        }) == map_len(map) + 1 + view_len(value),
{
    let more = map.insert(key, value);
    lemma_map_len_remove(more, key);
    assert(more.remove(key) =~= map.remove(key));
    if map.contains_key(key) {
        lemma_map_len_remove(map, key);
    } else {
        assert(map.remove(key) =~= map);
    }
}

/// A container as a value is one longer than its cumulative length.
pub(crate) proof fn lemma_container_len(map: MetadataView)
    requires
        map.dom().finite(),
    ensures
        view_len(ValueView::Container(map)) == map_len(map) + 1,
{
    let listed = ascending(map.dom());
    lemma_ascending_lists(map.dom());
    assert forall|i: int| 0 <= i < listed.len() implies map.contains_key(listed[i]) by {
        assert(listed.to_set().contains(listed[i]));
    }
}

impl Value {
    /// The length of the value, if a `usize` can hold it.
    pub fn checked_len(&self) -> (len: Option<usize>)
        ensures
            match len {
                Some(n) => n == view_len(self@),
                None => view_len(self@) > usize::MAX,
            },
        decreases *self,
    {
        match self {
            Value::LimitedMetadata(data) => {
                proof {
                    use_type_invariant(data);
                    lemma_view(*data);
                    lemma_listing(data.entries@);
                }
                match data.checked_nested_len() {
                    Some(n) => n.checked_add(1),
                    None => None,
                }
            },
            _ => Some(1),
        }
    }

    /// The length of the value: one for a leaf, and for a container one more
    /// than its cumulative length.
    pub fn len(&self) -> (len: usize)
        requires
            view_len(self@) <= usize::MAX,
        ensures
            len == view_len(self@),
        decreases *self,
    {
        match self {
            Value::LimitedMetadata(data) => {
                proof {
                    use_type_invariant(data);
                    lemma_view(*data);
                    lemma_listing(data.entries@);
                }
                data.nested_len() + 1
            },
            _ => 1,
        }
    }
}

impl Metadata {
    /// The cumulative length of all values housed in this container, if a
    /// `usize` can hold it.
    pub fn checked_nested_len(&self) -> (len: Option<usize>)
        ensures
            match len {
                Some(n) => n == map_len(self@),
                None => map_len(self@) > usize::MAX,
            },
        decreases *self,
    {
        proof {
            use_type_invariant(self);
            lemma_view(*self);
            lemma_listing(self.entries@);
        }
        let ghost keys = entry_keys(self.entries@);
        let mut total: usize = 0;
        let mut i: usize = 0;
        while i < self.entries.len()
            invariant
                i <= self.entries@.len(),
                keys == entry_keys(self.entries@),
                self@.dom().finite(),
                forall|j: int| 0 <= j < keys.len() ==> self@.contains_key(keys[j]),
                forall|j: int| 0 <= j < keys.len() ==> self@[keys[j]] == self.entries@[j].value@,
                total == listed_len(self@, keys.take(i as int)),
                keys == ascending(self@.dom()),
            decreases self.entries@.len() - i,
        {
            proof {
                lemma_listed_len_prefix(self@, keys, i + 1);
                assert(keys.take(i + 1).drop_last() =~= keys.take(i as int));
            }
            let value_len = match self.entries[i].value.checked_len() {
                Some(n) => n,
                None => {
                    return None;
                },
            };
            let entry_len = match value_len.checked_add(1) {
                Some(n) => n,
                None => {
                    return None;
                },
            };
            total = match total.checked_add(entry_len) {
                Some(n) => n,
                None => {
                    return None;
                },
            };
            i = i + 1;
        }
        proof {
            assert(keys.take(i as int) =~= keys);
        }
        Some(total)
    }

    /// The cumulative length of all values housed in this container. The walk
    /// visits every entry of every nested container.
    pub fn nested_len(&self) -> (len: usize)
        requires
            map_len(self@) <= usize::MAX,
        ensures
            len == map_len(self@),
        decreases *self,
    {
        proof {
            use_type_invariant(self);
            lemma_view(*self);
            lemma_listing(self.entries@);
        }
        let ghost keys = entry_keys(self.entries@);
        let mut total: usize = 0;
        let mut i: usize = 0;
        while i < self.entries.len()
            invariant
                i <= self.entries@.len(),
                keys == entry_keys(self.entries@),
                self@.dom().finite(),
                forall|j: int| 0 <= j < keys.len() ==> self@.contains_key(keys[j]),
                forall|j: int| 0 <= j < keys.len() ==> self@[keys[j]] == self.entries@[j].value@,
                total == listed_len(self@, keys.take(i as int)),
                listed_len(self@, keys) <= usize::MAX,
            decreases self.entries@.len() - i,
        {
            proof {
                lemma_listed_len_prefix(self@, keys, i + 1);
                assert(keys.take(i + 1).drop_last() =~= keys.take(i as int));
            }
            total = total + 1 + self.entries[i].value.len();
            i = i + 1;
        }
        proof {
            assert(keys.take(i as int) =~= keys);
        }
        total
    }
}

} // verus!
