//! Operations along a path through nested containers.
use vstd::prelude::*;
use crate::encoding::check_size_limits;
use crate::error::MetadataError;
use crate::limits::Limits;
use crate::metadata::{
    entries_view, lemma_entries_view, lemma_split_key_absent, lemma_view, lemma_view_replaced,
    search, Entry, Metadata, Slot,
};
use crate::model::{
    path_view, spec_nested_get, spec_nested_insert, spec_nested_insert_error, spec_nested_remove,
    spec_walk_error, view_of,
};
use crate::name::Name;
use crate::value::Value;

verus! {

/// A path: the names that lead from a container through nested containers to
/// a value.
pub type Path = [Name];

/// The rest of a path after its first segment is the path one segment later.
proof fn lemma_path_step(path: Seq<Name>, start: int)
    requires
        0 <= start < path.len(),
    ensures
        path_view(path).skip(start).len() == path.len() - start,
        path_view(path).skip(start)[0] == path[start]@,
        path_view(path).skip(start).drop_first() == path_view(path).skip(start + 1),
        path_view(path).skip(0) == path_view(path),
{
    assert(path_view(path).skip(start).drop_first() =~= path_view(path).skip(start + 1));
    assert(path_view(path).skip(0) =~= path_view(path));
}

impl Metadata {
    /// The value at the end of `path`, if the path leads to one. A path that
    /// is empty, or on which a segment before the last names nothing or a
    /// leaf, leads to nothing.
    pub fn nested_get(&self, path: &Path) -> (found: Option<&Value>)
        ensures
            view_of(found) == spec_nested_get(self@, path_view(path@)),
            found matches Some(value) ==> value.encodable(),
    {
        if path.len() == 0 {
            return None;
        }
        let mut layer: &Metadata = self;
        let mut i: usize = 0;
        proof {
            lemma_path_step(path@, 0);
        }
        while i + 1 < path.len()
            invariant
                i < path.len(),
                spec_nested_get(self@, path_view(path@)) == spec_nested_get(
                    layer@,
                    path_view(path@).skip(i as int),
                ),
            decreases path.len() - i,
        {
            proof {
                lemma_path_step(path@, i as int);
            }
            match layer.get(&path[i]) {
                Some(Value::LimitedMetadata(inner)) => {
                    layer = inner;
                },
                _ => {
                    return None;
                },
            }
            i = i + 1;
        }
        proof {
            lemma_path_step(path@, i as int);
        }
        layer.get(&path[i])
    }

    /// Takes the value at the end of `path` out, if the path leads to one, and
    /// returns it. Otherwise nothing changes.
    pub fn nested_remove(&mut self, path: &Path) -> (removed: Option<Value>)
        ensures
            view_of(removed) == spec_nested_get(old(self)@, path_view(path@)),
            removed matches Some(value) ==> value.encodable(),
            final(self)@ == spec_nested_remove(old(self)@, path_view(path@)),
    {
        if path.len() == 0 {
            return None;
        }
        proof {
            lemma_path_step(path@, 0);
        }
        self.remove_below(path, 0)
    }

    /// `nested_remove` for the part of `path` from `start` on.
    fn remove_below(&mut self, path: &Path, start: usize) -> (removed: Option<Value>)
        requires
            start < path.len(),
        ensures
            view_of(removed) == spec_nested_get(old(self)@, path_view(path@).skip(start as int)),
            removed matches Some(value) ==> value.encodable(),
            final(self)@ == spec_nested_remove(old(self)@, path_view(path@).skip(start as int)),
        decreases path.len() - start,
    {
        proof {
            lemma_path_step(path@, start as int);
        }
        if start + 1 == path.len() {
            return self.remove(&path[start]);
        }
        proof {
            use_type_invariant(&*self);
            lemma_view(*self);
            lemma_entries_view(self.entries@);
        }
        match search(&self.entries, &path[start]) {
            Slot::Vacant(i) => {
                proof {
                    lemma_split_key_absent(self.entries@, i as int, path@[start as int]@);
                }
                None
            },
            Slot::Found(i) => {
                let mut entries: Vec<Entry> = Vec::new();
                std::mem::swap(&mut entries, &mut self.entries);
                let ghost before = entries@;
                let removed = match &mut entries[i].value {
                    Value::LimitedMetadata(inner) => inner.remove_below(path, start + 1),
                    _ => None,
                };
                proof {
                    lemma_view_replaced(before, i as int, entries@[i as int]);
                    assert(entries@ =~= before.update(i as int, entries@[i as int]));
                    assert(entries_view(entries@) =~= spec_nested_remove(
                        old(self)@,
                        path_view(path@).skip(start as int),
                    ));
                }
                self.entries = entries;
                proof {
                    lemma_view(*self);
                }
                removed
            },
        }
    }

    /// Puts `value` at the end of `path` and returns the value that was
    /// there, if there was one. The containers along the path must be there:
    /// none is made.
    ///
    /// An empty path is refused. Then the insertion is refused where the root
    /// already holds `limits.max_len` entries, unless the path leads to one of
    /// them. A segment before the last that names nothing, or a leaf, is
    /// refused. At the last container the insertion is refused where the
    /// encoded entry is longer than `limits.max_entry_byte_size`, and then
    /// where the key is new and that container already holds
    /// `limits.max_len` entries. A refused insertion changes nothing.
    pub fn nested_insert_with_limits(&mut self, path: &Path, value: Value, limits: Limits) -> (inserted:
        Result<Option<Value>, MetadataError>)
        requires
            path@.len() > 0 ==> path@.last().encodable(),
            value.encodable(),
        ensures
            match inserted {
                Ok(previous) => {
                    &&& spec_nested_insert_error(old(self)@, path_view(path@), value@, limits)
                        is None
                    &&& view_of(previous) == spec_nested_get(old(self)@, path_view(path@))
                    &&& previous matches Some(replaced) ==> replaced.encodable()
                    &&& final(self)@ == spec_nested_insert(old(self)@, path_view(path@), value@)
                },
                Err(error) => {
                    &&& spec_nested_insert_error(old(self)@, path_view(path@), value@, limits)
                        == Some(error@)
                    &&& final(self)@ == old(self)@
                },
            },
    {
        if path.len() == 0 {
            return Err(MetadataError::EmptyPath);
        }
        proof {
            use_type_invariant(&*self);
            lemma_view(*self);
            lemma_entries_view(self.entries@);
            lemma_path_step(path@, 0);
        }
        if self.entries.len() >= limits.max_len as usize {
            let replaces = path.len() == 1 && self.get(&path[0]).is_some();
            if !replaces {
                return Err(MetadataError::LengthLimitExceeded { max: limits.max_len });
            }
        }
        self.insert_below(path, 0, value, limits)
    }

    /// The walk and the insertion of `nested_insert_with_limits` for the part
    /// of `path` from `start` on.
    fn insert_below(&mut self, path: &Path, start: usize, value: Value, limits: Limits) -> (inserted:
        Result<Option<Value>, MetadataError>)
        requires
            start < path.len(),
            path@.last().encodable(),
            value.encodable(),
        ensures
            match inserted {
                Ok(previous) => {
                    &&& spec_walk_error(
                        old(self)@,
                        path_view(path@).skip(start as int),
                        value@,
                        limits,
                    ) is None
                    &&& view_of(previous) == spec_nested_get(
                        old(self)@,
                        path_view(path@).skip(start as int),
                    )
                    &&& previous matches Some(replaced) ==> replaced.encodable()
                    &&& final(self)@ == spec_nested_insert(
                        old(self)@,
                        path_view(path@).skip(start as int),
                        value@,
                    )
                },
                Err(error) => {
                    &&& spec_walk_error(
                        old(self)@,
                        path_view(path@).skip(start as int),
                        value@,
                        limits,
                    ) == Some(error@)
                    &&& final(self)@ == old(self)@
                },
            },
        decreases path.len() - start,
    {
        proof {
            lemma_path_step(path@, start as int);
        }
        if start + 1 == path.len() {
            let key = &path[start];
            match check_size_limits(key, &value, limits) {
                Ok(()) => {},
                Err(error) => {
                    return Err(error);
                },
            }
            return self.insert_with_limits(key.clone(), value, limits);
        }
        proof {
            use_type_invariant(&*self);
            lemma_view(*self);
            lemma_entries_view(self.entries@);
        }
        match search(&self.entries, &path[start]) {
            Slot::Vacant(i) => {
                proof {
                    lemma_split_key_absent(self.entries@, i as int, path@[start as int]@);
                }
                Err(MetadataError::MissingIntermediateKey { key: path[start].clone() })
            },
            Slot::Found(i) => {
                let mut entries: Vec<Entry> = Vec::new();
                std::mem::swap(&mut entries, &mut self.entries);
                let ghost before = entries@;
                let inserted = match &mut entries[i].value {
                    Value::LimitedMetadata(inner) => inner.insert_below(
                        path,
                        start + 1,
                        value,
                        limits,
                    ),
                    _ => Err(MetadataError::NonContainerSegment { key: path[start].clone() }),
                };
                proof {
                    lemma_view_replaced(before, i as int, entries@[i as int]);
                    assert(entries@ =~= before.update(i as int, entries@[i as int]));
                    if inserted is Ok {
                        assert(entries_view(entries@) =~= spec_nested_insert(
                            old(self)@,
                            path_view(path@).skip(start as int),
                            value@,
                        ));
                    } else {
                        assert(entries_view(entries@) =~= old(self)@);
                    }
                }
                self.entries = entries;
                proof {
                    lemma_view(*self);
                }
                inserted
            },
        }
    }
}

} // verus!
