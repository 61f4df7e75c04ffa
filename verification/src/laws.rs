//! What holds of the operations together, proved over the maps that
//! containers stand for.
use vstd::prelude::*;
use vstd::utf8::encode_utf8;
use crate::encoding::entry_bytes;
use crate::error::ErrorView;
use crate::limits::Limits;
use crate::model::{
    length_error, size_error, size_limit_exceeded, spec_get, spec_insert_error, spec_nested_get,
    spec_nested_insert, spec_nested_insert_error, spec_nested_remove, spec_walk_error,
};
use crate::scale::{compact_size, lemma_le_bytes_len, lemma_text_bytes_len};
use crate::size::{
    lemma_container_len, lemma_map_len_empty, lemma_map_len_insert, lemma_map_len_remove, map_len,
    view_len,
};
use crate::value::{MetadataView, ValueView};

verus! {

/// The walk along `path` from `map` stops before the last segment: the path
/// is empty, or a segment before the last names nothing or a leaf.
pub open spec fn walk_blocked(map: MetadataView, path: Seq<Seq<char>>) -> bool
    decreases path.len(),
{
    if path.len() == 0 {
        true
    } else if path.len() == 1 {
        false
    } else {
        match spec_get(map, path[0]) {
            Some(ValueView::Container(inner)) => walk_blocked(inner, path.drop_first()),
            _ => true,
        }
    }
}

/// How many bytes the encoding of a text takes: those of its UTF-8 form and
/// those of their compact number.
pub open spec fn text_size(text: Seq<char>) -> nat {
    compact_size(encode_utf8(text).len() as u32) + encode_utf8(text).len()
}

/// An error of the walk itself: the path is empty, or a segment before the
/// last names nothing or a leaf.
pub open spec fn is_walk_error(error: ErrorView) -> bool {
    error is EmptyPath || error is MissingIntermediateKey || error is NonContainerSegment
}

/// After an insertion under `key`, the value under `key` is the inserted one.
pub proof fn law_insert_then_get(map: MetadataView, key: Seq<char>, value: ValueView)
    ensures
        spec_get(map.insert(key, value), key) == Some(value),
{
}

/// After an insertion at the end of `path` that is not refused, the value at
/// the end of `path` is the inserted one.
pub proof fn law_nested_insert_then_get(
    map: MetadataView,
    path: Seq<Seq<char>>,
    value: ValueView,
    limits: Limits,
)
    requires
        spec_nested_insert_error(map, path, value, limits) is None,
    ensures
        spec_nested_get(spec_nested_insert(map, path, value), path) == Some(value),
{
    lemma_walk_then_get(map, path, value, limits);
}

/// After a walk and insertion that do not fail, the value at the end of the
/// path is the inserted one.
proof fn lemma_walk_then_get(
    map: MetadataView,
    path: Seq<Seq<char>>,
    value: ValueView,
    limits: Limits,
)
    requires
        spec_walk_error(map, path, value, limits) is None,
    ensures
        spec_nested_get(spec_nested_insert(map, path, value), path) == Some(value),
    decreases path.len(),
{
    if path.len() >= 2 {
        match spec_get(map, path[0]) {
            Some(ValueView::Container(inner)) => {
                lemma_walk_then_get(inner, path.drop_first(), value, limits);
            },
            _ => {},
        }
    }
}

/// An insertion under a key that is present is never refused for the number
/// of entries, however many there are: it is refused if and only if the entry
/// is too long.
pub proof fn law_replacement_exempt(
    map: MetadataView,
    key: Seq<char>,
    value: ValueView,
    limits: Limits,
)
    requires
        map.contains_key(key),
    ensures
        spec_insert_error(map, key, value, limits) != Some(length_error(limits)),
        spec_insert_error(map, key, value, limits) is None <==> !size_limit_exceeded(
            key,
            value,
            limits,
        ),
{
}

/// An insertion at the end of a path that leads to a value is never refused
/// for the number of entries, if only the root is not full or the path has one
/// segment: the root's count is held against the limit wherever a longer path
/// leads.
pub proof fn law_nested_replacement_exempt(
    map: MetadataView,
    path: Seq<Seq<char>>,
    value: ValueView,
    limits: Limits,
)
    requires
        spec_nested_get(map, path) is Some,
        path.len() == 1 || map.len() < limits.max_len,
    ensures
        spec_nested_insert_error(map, path, value, limits) != Some(length_error(limits)),
        spec_nested_insert_error(map, path, value, limits) is None <==> !size_limit_exceeded(
            path.last(),
            value,
            limits,
        ),
{
    lemma_walk_to_present(map, path, value, limits);
}

/// A walk to a value that is there fails only for the size of the entry.
proof fn lemma_walk_to_present(
    map: MetadataView,
    path: Seq<Seq<char>>,
    value: ValueView,
    limits: Limits,
)
    requires
        spec_nested_get(map, path) is Some,
    ensures
        spec_walk_error(map, path, value, limits) == if size_limit_exceeded(
            path.last(),
            value,
            limits,
        ) {
            Some(size_error(path.last(), value, limits))
        } else {
            None
        },
    decreases path.len(),
{
    if path.len() >= 2 {
        match spec_get(map, path[0]) {
            Some(ValueView::Container(inner)) => {
                lemma_walk_to_present(inner, path.drop_first(), value, limits);
                assert(path.drop_first().last() == path.last());
            },
            _ => {},
        }
    }
}

/// An insertion that is not refused stores an entry that is no longer than
/// the limit allows. Under a new key it leaves the container with no more
/// entries than the limit allows, and under a present key with as many as
/// before.
pub proof fn law_insert_within_limits(
    map: MetadataView,
    key: Seq<char>,
    value: ValueView,
    limits: Limits,
)
    requires
        map.dom().finite(),
        spec_insert_error(map, key, value, limits) is None,
    ensures
        !map.contains_key(key) ==> map.insert(key, value).len() <= limits.max_len,
        map.contains_key(key) ==> map.insert(key, value).len() == map.len(),
        !size_limit_exceeded(key, value, limits),
{
}

/// On a path on which the walk stops before the last segment, the lookup finds
/// nothing and the removal changes nothing, while the insertion is refused:
/// for an empty path as such, else for the root's entry count if the root is
/// full, else with the segment on which the walk stops.
pub proof fn law_blocked_walk(
    map: MetadataView,
    path: Seq<Seq<char>>,
    value: ValueView,
    limits: Limits,
)
    requires
        walk_blocked(map, path),
    ensures
        spec_nested_get(map, path) is None,
        spec_nested_remove(map, path) == map,
        spec_nested_insert_error(map, path, value, limits) is Some,
        path.len() == 0 ==> spec_nested_insert_error(map, path, value, limits) == Some(
            ErrorView::EmptyPath,
        ),
        path.len() > 0 && map.len() >= limits.max_len ==> spec_nested_insert_error(
            map,
            path,
            value,
            limits,
        ) == Some(length_error(limits)),
        path.len() > 0 && map.len() < limits.max_len ==> is_walk_error(
            spec_nested_insert_error(map, path, value, limits).unwrap(),
        ),
{
    lemma_blocked_walk(map, path, value, limits);
}

/// On a path on which the walk stops before the last segment, the lookup finds
/// nothing, the removal changes nothing and the walk fails with the segment on
/// which it stops.
proof fn lemma_blocked_walk(
    map: MetadataView,
    path: Seq<Seq<char>>,
    value: ValueView,
    limits: Limits,
)
    requires
        walk_blocked(map, path),
    ensures
        spec_nested_get(map, path) is None,
        spec_nested_remove(map, path) == map,
        spec_walk_error(map, path, value, limits) is Some,
        is_walk_error(spec_walk_error(map, path, value, limits).unwrap()),
    decreases path.len(),
{
    if path.len() >= 2 {
        match spec_get(map, path[0]) {
            Some(ValueView::Container(inner)) => {
                lemma_blocked_walk(inner, path.drop_first(), value, limits);
                assert(map.insert(path[0], ValueView::Container(inner)) =~= map);
            },
            _ => {},
        }
    }
}

/// On a path on which the walk stops before the last segment, the container
/// that an insertion would give is the container as it is: no container is
/// made on the way.
pub proof fn law_blocked_insert_changes_nothing(
    map: MetadataView,
    path: Seq<Seq<char>>,
    value: ValueView,
)
    requires
        walk_blocked(map, path),
    ensures
        spec_nested_insert(map, path, value) == map,
    decreases path.len(),
{
    if path.len() >= 2 {
        match spec_get(map, path[0]) {
            Some(ValueView::Container(inner)) => {
                law_blocked_insert_changes_nothing(inner, path.drop_first(), value);
                assert(map.insert(path[0], ValueView::Container(inner)) =~= map);
            },
            _ => {},
        }
    }
}

/// The encoded entry of a leaf takes the bytes of its key, one byte for the
/// kind of the value, and the bytes of the value: four or sixteen for a
/// number, one for a truth value, and for a text those of the text.
pub proof fn law_leaf_entry_size(key: Seq<char>, value: ValueView)
    requires
        !(value is Container),
    ensures
        entry_bytes(key, value).len() == text_size(key) + 1 + match value {
            ValueView::U32(_) => 4,
            ValueView::U128(_) => 16,
            ValueView::Bool(_) => 1,
            ValueView::String(text) => text_size(text),
            ValueView::Container(_) => 0,
        },
{
    lemma_text_bytes_len(key);
    match value {
        ValueView::U32(n) => lemma_le_bytes_len(n as nat, 4),
        ValueView::U128(n) => lemma_le_bytes_len(n as nat, 16),
        ValueView::String(text) => lemma_text_bytes_len(text),
        _ => {},
    }
}

/// What the entry counts in the cumulative length that holds `found`, if any:
/// one and the length of the value.
pub open spec fn counted(found: Option<ValueView>) -> nat {
    match found {
        Some(value) => 1 + view_len(value),
        None => 0,
    }
}

/// The containers on the walk along `path` from `map` are finite.
pub open spec fn walk_finite(map: MetadataView, path: Seq<Seq<char>>) -> bool
    decreases path.len(),
{
    &&& map.dom().finite()
    &&& path.len() >= 2 ==> match spec_get(map, path[0]) {
        Some(ValueView::Container(inner)) => walk_finite(inner, path.drop_first()),
        _ => true,
    }
}

/// An empty container has the cumulative length zero.
pub proof fn law_len_of_empty()
    ensures
        map_len(MetadataView::empty()) == 0,
{
    lemma_map_len_empty();
}

/// A container as a value is one longer than its cumulative length.
pub proof fn law_len_of_container(map: MetadataView)
    requires
        map.dom().finite(),
    ensures
        view_len(ValueView::Container(map)) == map_len(map) + 1,
{
    lemma_container_len(map);
}

/// An insertion adds to the cumulative length what the new entry counts, and
/// takes from it what the replaced entry counted.
pub proof fn law_len_after_insert(map: MetadataView, key: Seq<char>, value: ValueView)
    requires
        map.dom().finite(),
    ensures
        map_len(map.insert(key, value)) + counted(spec_get(map, key)) == map_len(map) + counted(
            Some(value),
        ),
{
    lemma_map_len_insert(map, key, value);
}

/// A removal takes from the cumulative length what the removed entry counted.
pub proof fn law_len_after_remove(map: MetadataView, key: Seq<char>)
    requires
        map.dom().finite(),
    ensures
        map_len(map.remove(key)) + counted(spec_get(map, key)) == map_len(map),
{
    if map.contains_key(key) {
        lemma_map_len_remove(map, key);
    } else {
        assert(map.remove(key) =~= map);
    }
}

/// An insertion at the end of a path changes the cumulative length of the
/// root as it changes that of the container at the end of the path.
pub proof fn law_len_after_nested_insert(
    map: MetadataView,
    path: Seq<Seq<char>>,
    value: ValueView,
)
    requires
        walk_finite(map, path),
        !walk_blocked(map, path),
    ensures
        spec_nested_insert(map, path, value).dom().finite(),
        map_len(spec_nested_insert(map, path, value)) + counted(spec_nested_get(map, path))
            == map_len(map) + counted(Some(value)),
    decreases path.len(),
{
    if path.len() == 1 {
        lemma_map_len_insert(map, path[0], value);
    } else {
        match spec_get(map, path[0]) {
            Some(ValueView::Container(inner)) => {
                let rest = path.drop_first();
                assert(inner.dom().finite()) by {
                    reveal_with_fuel(walk_finite, 2);
                }
                law_len_after_nested_insert(inner, rest, value);
                let changed = spec_nested_insert(inner, rest, value);
                lemma_container_len(inner);
                lemma_container_len(changed);
                lemma_map_len_insert(map, path[0], ValueView::Container(changed));
            },
            _ => {},
        }
    }
}

/// A removal at the end of a path takes from the cumulative length of the
/// root what the removed entry counted.
pub proof fn law_len_after_nested_remove(map: MetadataView, path: Seq<Seq<char>>)
    requires
        walk_finite(map, path),
    ensures
        spec_nested_remove(map, path).dom().finite(),
        map_len(spec_nested_remove(map, path)) + counted(spec_nested_get(map, path)) == map_len(
            map,
        ),
    decreases path.len(),
{
    if path.len() == 1 {
        law_len_after_remove(map, path[0]);
    } else if path.len() >= 2 {
        match spec_get(map, path[0]) {
            Some(ValueView::Container(inner)) => {
                let rest = path.drop_first();
                assert(inner.dom().finite()) by {
                    reveal_with_fuel(walk_finite, 2);
                }
                law_len_after_nested_remove(inner, rest);
                let changed = spec_nested_remove(inner, rest);
                lemma_container_len(inner);
                lemma_container_len(changed);
                lemma_map_len_insert(map, path[0], ValueView::Container(changed));
            },
            _ => {},
        }
    }
}

/// The removal of a key that is absent changes nothing.
pub proof fn law_remove_absent(map: MetadataView, key: Seq<char>)
    requires
        !map.contains_key(key),
    ensures
        map.remove(key) == map,
{
    assert(map.remove(key) =~= map);
}

/// The removal at the end of a path that leads to nothing changes nothing.
pub proof fn law_nested_remove_absent(map: MetadataView, path: Seq<Seq<char>>)
    requires
        spec_nested_get(map, path) is None,
    ensures
        spec_nested_remove(map, path) == map,
    decreases path.len(),
{
    if path.len() == 1 {
        assert(map.remove(path[0]) =~= map);
    } else if path.len() >= 2 {
        match spec_get(map, path[0]) {
            Some(ValueView::Container(inner)) => {
                law_nested_remove_absent(inner, path.drop_first());
                assert(map.insert(path[0], ValueView::Container(inner)) =~= map);
            },
            _ => {},
        }
    }
}

/// After a removal at the end of `path`, that path leads to nothing, so that a
/// second removal changes nothing.
pub proof fn law_nested_remove_twice(map: MetadataView, path: Seq<Seq<char>>)
    ensures
        spec_nested_get(spec_nested_remove(map, path), path) is None,
        spec_nested_remove(spec_nested_remove(map, path), path) == spec_nested_remove(map, path),
{
    lemma_remove_then_get(map, path);
    law_nested_remove_absent(spec_nested_remove(map, path), path);
}

/// After a removal at the end of `path`, that path leads to nothing.
proof fn lemma_remove_then_get(map: MetadataView, path: Seq<Seq<char>>)
    ensures
        spec_nested_get(spec_nested_remove(map, path), path) is None,
    decreases path.len(),
{
    if path.len() >= 2 {
        match spec_get(map, path[0]) {
            Some(ValueView::Container(inner)) => {
                lemma_remove_then_get(inner, path.drop_first());
            },
            _ => {},
        }
    }
}

} // verus!
