//! The keys of a container in ascending order.
use vstd::prelude::*;
use crate::name::{
    key_less, lemma_key_less_asymmetric, lemma_key_less_total, lemma_key_less_transitive,
};

verus! {

/// `key` is in `keys` and comes before every other key in it.
pub open spec fn is_least(keys: Set<Seq<char>>, key: Seq<char>) -> bool {
    &&& keys.contains(key)
    &&& forall|other: Seq<char>| #[trigger] keys.contains(other) && other != key ==> key_less(key, other)
}

/// The key of `keys` that comes before all others.
pub open spec fn least(keys: Set<Seq<char>>) -> Seq<char> {
    choose|key: Seq<char>| is_least(keys, key)
}

/// The keys of a finite set, each once and in ascending order.
pub open spec fn ascending(keys: Set<Seq<char>>) -> Seq<Seq<char>>
    decreases keys.len(),
    when keys.finite()
    via ascending_decreases
{
    if keys.len() == 0 {
        Seq::empty()
    } else {
        seq![least(keys)] + ascending(keys.remove(least(keys)))
    }
}

#[via_fn]
proof fn ascending_decreases(keys: Set<Seq<char>>) {
    if keys.len() != 0 {
        lemma_least_exists(keys);
    }
}

/// A finite set of keys that is not empty has a least key.
pub proof fn lemma_least_exists(keys: Set<Seq<char>>)
    requires
        keys.finite(),
        keys.len() > 0,
    ensures
        is_least(keys, least(keys)),
    decreases keys.len(),
{
    let one = keys.choose();
    let rest = keys.remove(one);
    if rest.len() == 0 {
        assert forall|other: Seq<char>| #[trigger] keys.contains(other) implies other == one by {
            if other != one {
                assert(rest.contains(other));
            }
        }
        assert(is_least(keys, one));
    } else {
        lemma_least_exists(rest);
        let low = least(rest);
        lemma_key_less_total(one, low);
        if key_less(one, low) {
            assert forall|other: Seq<char>| #[trigger]
                keys.contains(other) && other != one implies key_less(one, other) by {
                assert(rest.contains(other));
                if other != low {
                    lemma_key_less_transitive(one, low, other);
                }
            }
            assert(is_least(keys, one));
        } else {
            assert forall|other: Seq<char>| #[trigger]
                keys.contains(other) && other != low implies key_less(low, other) by {
                if other != one {
                    assert(rest.contains(other));
                }
            }
            assert(is_least(keys, low));
        }
    }
}

/// A set of keys has one least key at most.
pub proof fn lemma_least_unique(keys: Set<Seq<char>>, a: Seq<char>, b: Seq<char>)
    requires
        is_least(keys, a),
        is_least(keys, b),
    ensures
        a == b,
{
    if a != b {
        lemma_key_less_asymmetric(a, b);
    }
}

/// Each key of `keys` comes before all that follow it.
pub open spec fn strictly_ascending(keys: Seq<Seq<char>>) -> bool {
    forall|i: int, j: int| 0 <= i < j < keys.len() ==> key_less(#[trigger] keys[i], #[trigger] keys[j])
}

/// The keys of a set in ascending order are the only ascending sequence that
/// holds just these keys.
pub proof fn lemma_ascending_unique(keys: Seq<Seq<char>>)
    requires
        strictly_ascending(keys),
    ensures
        keys.to_set().finite(),
        keys.to_set().len() == keys.len(),
        ascending(keys.to_set()) == keys,
    decreases keys.len(),
{
    let set = keys.to_set();
    vstd::seq_lib::seq_to_set_is_finite(keys);
    if keys.len() == 0 {
        assert(set =~= Set::empty());
    } else {
        let first = keys[0];
        let rest = keys.drop_first();
        assert(strictly_ascending(rest)) by {
            assert forall|i: int, j: int| 0 <= i < j < rest.len() implies key_less(
                #[trigger] rest[i],
                #[trigger] rest[j],
            ) by {
                assert(key_less(keys[i + 1], keys[j + 1]));
            }
        }
        lemma_ascending_unique(rest);
        assert(set.contains(first)) by {
            assert(keys[0] == first);
        }
        assert forall|other: Seq<char>| #[trigger] set.contains(other) && other != first implies key_less(
            first,
            other,
        ) by {
            let j = choose|j: int| 0 <= j < keys.len() && keys[j] == other;
            assert(key_less(keys[0], keys[j]));
        }
        assert(is_least(set, first));
        lemma_least_unique(set, first, least(set));
        assert(set.remove(first) =~= rest.to_set()) by {
            assert forall|other: Seq<char>| set.remove(first).contains(other) implies rest.to_set().contains(
                other,
            ) by {
                let j = choose|j: int| 0 <= j < keys.len() && keys[j] == other;
                assert(rest[j - 1] == other);
            }
            assert forall|other: Seq<char>| rest.to_set().contains(other) implies set.remove(
                first,
            ).contains(other) by {
                let j = choose|j: int| 0 <= j < rest.len() && rest[j] == other;
                assert(keys[j + 1] == other);
                assert(key_less(keys[0], keys[j + 1]));
                lemma_key_less_asymmetric(first, other);
            }
        }
        assert(set.len() == keys.len());
        assert(ascending(set) =~= keys);
    }
}

/// The ascending listing of a finite set holds each of its keys once, in
/// ascending order, and no other key.
pub proof fn lemma_ascending_lists(keys: Set<Seq<char>>)
    requires
        keys.finite(),
    ensures
        strictly_ascending(ascending(keys)),
        ascending(keys).to_set() == keys,
        ascending(keys).len() == keys.len(),
    decreases keys.len(),
{
    let listed = ascending(keys);
    if keys.len() == 0 {
        assert(listed.to_set() =~= keys);
    } else {
        lemma_least_exists(keys);
        let low = least(keys);
        let rest = keys.remove(low);
        lemma_ascending_lists(rest);
        let tail = ascending(rest);
        assert(listed =~= seq![low] + tail);
        assert forall|i: int, j: int| 0 <= i < j < listed.len() implies key_less(
            #[trigger] listed[i],
            #[trigger] listed[j],
        ) by {
            if i == 0 {
                assert(tail.to_set().contains(tail[j - 1]));
                assert(keys.contains(tail[j - 1]));
            } else {
                assert(key_less(tail[i - 1], tail[j - 1]));
            }
        }
        assert(listed.to_set() =~= keys) by {
            assert forall|key: Seq<char>| listed.to_set().contains(key) implies keys.contains(
                key,
            ) by {
                let i = choose|i: int| 0 <= i < listed.len() && listed[i] == key;
                if i > 0 {
                    assert(tail.to_set().contains(tail[i - 1]));
                }
            }
            assert forall|key: Seq<char>| keys.contains(key) implies listed.to_set().contains(
                key,
            ) by {
                if key == low {
                    assert(listed[0] == key);
                } else {
                    assert(rest.contains(key));
                    assert(tail.to_set().contains(key));
                    let i = choose|i: int| 0 <= i < tail.len() && tail[i] == key;
                    assert(listed[i + 1] == key);
                }
            }
        }
    }
}

/// Without one of its keys, a finite set is listed as before, with that key
/// left out.
pub proof fn lemma_ascending_without(keys: Set<Seq<char>>, key: Seq<char>) -> (at: int)
    requires
        keys.finite(),
        keys.contains(key),
    ensures
        0 <= at < ascending(keys).len(),
        ascending(keys)[at] == key,
        ascending(keys.remove(key)) == ascending(keys).remove(at),
{
    let listed = ascending(keys);
    lemma_ascending_lists(keys);
    assert(listed.to_set().contains(key));
    let at = choose|at: int| 0 <= at < listed.len() && listed[at] == key;
    let fewer = listed.remove(at);
    assert forall|i: int, j: int| 0 <= i < j < fewer.len() implies key_less(
        #[trigger] fewer[i],
        #[trigger] fewer[j],
    ) by {
        let i0 = if i < at { i } else { i + 1 };
        let j0 = if j < at { j } else { j + 1 };
        assert(key_less(listed[i0], listed[j0]));
    }
    lemma_ascending_unique(fewer);
    assert(fewer.to_set() =~= keys.remove(key)) by {
        assert forall|other: Seq<char>| fewer.to_set().contains(other) implies keys.remove(
            key,
        ).contains(other) by {
            let i = choose|i: int| 0 <= i < fewer.len() && fewer[i] == other;
            let i0 = if i < at { i } else { i + 1 };
            assert(listed[i0] == other);
            assert(listed.to_set().contains(other));
            if i0 < at {
                assert(key_less(listed[i0], listed[at]));
                lemma_key_less_asymmetric(other, key);
            } else {
                assert(key_less(listed[at], listed[i0]));
                lemma_key_less_asymmetric(key, other);
            }
        }
        assert forall|other: Seq<char>| keys.remove(key).contains(
            other,
        ) implies fewer.to_set().contains(other) by {
            assert(listed.to_set().contains(other));
            let i0 = choose|i0: int| 0 <= i0 < listed.len() && listed[i0] == other;
            let i = if i0 < at { i0 } else { i0 - 1 };
            assert(fewer[i] == other);
        }
    }
    at
}

} // verus!
