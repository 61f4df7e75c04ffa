//! What the operations of a container do, stated over the maps that
//! containers stand for.
use vstd::prelude::*;
use crate::encoding::entry_bytes;
use crate::error::ErrorView;
use crate::limits::Limits;
use crate::name::Name;
use crate::value::{MetadataView, ValueView};

verus! {

/// What an optional value stands for.
pub open spec fn view_of<T: View>(found: Option<T>) -> Option<T::V> {
    match found {
        Some(value) => Some(value@),
        None => None,
    }
}

/// The texts of the names of a path, in order.
pub open spec fn path_view(path: Seq<Name>) -> Seq<Seq<char>> {
    Seq::new(path.len(), |i: int| path[i]@)
}

/// The value under `key`, if there is one.
pub open spec fn spec_get(map: MetadataView, key: Seq<char>) -> Option<ValueView> {
    if map.contains_key(key) {
        Some(map[key])
    } else {
        None
    }
}

/// The container is full for `key`: it holds `limits.max_len` entries or more,
/// and none of them under `key`.
pub open spec fn length_limit_reached(map: MetadataView, key: Seq<char>, limits: Limits) -> bool {
    map.len() >= limits.max_len && !map.contains_key(key)
}

/// The entry that holds `value` under `key` is too long: its encoding takes
/// more than `limits.max_entry_byte_size` bytes.
pub open spec fn size_limit_exceeded(key: Seq<char>, value: ValueView, limits: Limits) -> bool {
    entry_bytes(key, value).len() > limits.max_entry_byte_size
}

/// The error that tells that the container is full.
pub open spec fn length_error(limits: Limits) -> ErrorView {
    ErrorView::LengthLimitExceeded { max: limits.max_len }
}

/// The error that tells that the entry that holds `value` under `key` is too
/// long.
pub open spec fn size_error(key: Seq<char>, value: ValueView, limits: Limits) -> ErrorView {
    ErrorView::EntrySizeExceeded {
        max: limits.max_entry_byte_size,
        actual: entry_bytes(key, value).len(),
    }
}

/// Why `value` cannot be put under `key`, if it cannot. The entry count is
/// held against the limit before the size of the entry is.
pub open spec fn spec_insert_error(
    map: MetadataView,
    key: Seq<char>,
    value: ValueView,
    limits: Limits,
) -> Option<ErrorView> {
    if length_limit_reached(map, key, limits) {
        Some(length_error(limits))
    } else if size_limit_exceeded(key, value, limits) {
        Some(size_error(key, value, limits))
    } else {
        None
    }
}

/// The value at the end of `path`: each segment before the last must name a
/// container, in which the walk goes on. An empty path, a missing segment and
/// a segment that names a leaf all give nothing.
pub open spec fn spec_nested_get(map: MetadataView, path: Seq<Seq<char>>) -> Option<ValueView>
    decreases path.len(),
{
    if path.len() == 0 {
        None
    } else if path.len() == 1 {
        spec_get(map, path[0])
    } else {
        match spec_get(map, path[0]) {
            Some(ValueView::Container(inner)) => spec_nested_get(inner, path.drop_first()),
            _ => None,
        }
    }
}

/// The container without the value at the end of `path`. Where the walk along
/// `path` fails the container is as before.
pub open spec fn spec_nested_remove(map: MetadataView, path: Seq<Seq<char>>) -> MetadataView
    decreases path.len(),
{
    if path.len() == 0 {
        map
    } else if path.len() == 1 {
        map.remove(path[0])
    } else {
        match spec_get(map, path[0]) {
            Some(ValueView::Container(inner)) => map.insert(
                path[0],
                ValueView::Container(spec_nested_remove(inner, path.drop_first())),
            ),
            _ => map,
        }
    }
}

/// The container with `value` at the end of `path`. Where the walk along
/// `path` fails the container is as before.
pub open spec fn spec_nested_insert(
    map: MetadataView,
    path: Seq<Seq<char>>,
    value: ValueView,
) -> MetadataView
    decreases path.len(),
{
    if path.len() == 0 {
        map
    } else if path.len() == 1 {
        map.insert(path[0], value)
    } else {
        match spec_get(map, path[0]) {
            Some(ValueView::Container(inner)) => map.insert(
                path[0],
                ValueView::Container(spec_nested_insert(inner, path.drop_first(), value)),
            ),
            _ => map,
        }
    }
}

/// Why the walk along `path` from `map`, and the insertion of `value` at its
/// end, fail, if they do. A segment before the last must name a container. At
/// the last container the size of the entry is held against the limit first,
/// the entry count of that container second.
pub open spec fn spec_walk_error(
    map: MetadataView,
    path: Seq<Seq<char>>,
    value: ValueView,
    limits: Limits,
) -> Option<ErrorView>
    decreases path.len(),
{
    if path.len() == 0 {
        Some(ErrorView::EmptyPath)
    } else if path.len() == 1 {
        if size_limit_exceeded(path[0], value, limits) {
            Some(size_error(path[0], value, limits))
        } else if length_limit_reached(map, path[0], limits) {
            Some(length_error(limits))
        } else {
            None
        }
    } else {
        match spec_get(map, path[0]) {
            None => Some(ErrorView::MissingIntermediateKey { key: path[0] }),
            Some(ValueView::Container(inner)) => spec_walk_error(
                inner,
                path.drop_first(),
                value,
                limits,
            ),
            Some(_) => Some(ErrorView::NonContainerSegment { key: path[0] }),
        }
    }
}

/// The root is full for `path`: it holds `limits.max_len` entries or more, and
/// `path` does not lead to one of them. Only a path of one segment leads to an
/// entry of the root.
pub open spec fn root_limit_reached(map: MetadataView, path: Seq<Seq<char>>, limits: Limits) -> bool {
    map.len() >= limits.max_len && !(path.len() == 1 && map.contains_key(path[0]))
}

/// Why `value` cannot be put at the end of `path`, if it cannot. An empty
/// path is refused first. Then the entry count of the root is held against the
/// limit, wherever the path leads. Then comes the walk.
pub open spec fn spec_nested_insert_error(
    map: MetadataView,
    path: Seq<Seq<char>>,
    value: ValueView,
    limits: Limits,
) -> Option<ErrorView> {
    if path.len() == 0 {
        Some(ErrorView::EmptyPath)
    } else if root_limit_reached(map, path, limits) {
        Some(length_error(limits))
    } else {
        spec_walk_error(map, path, value, limits)
    }
}

} // verus!
