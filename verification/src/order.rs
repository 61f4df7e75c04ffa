//! Lexicographic order on byte strings: the order in which a container keeps
//! its keys.
use vstd::prelude::*;

verus! {

/// The first `n` bytes of `a` and of `b` exist and are the same.
pub open spec fn agree_upto(a: Seq<u8>, b: Seq<u8>, n: int) -> bool {
    &&& 0 <= n <= a.len()
    &&& n <= b.len()
    &&& forall|j: int| 0 <= j < n ==> a[j] == b[j]
}

/// `a` and `b` agree on their first `n` bytes, and there `a` either ends while
/// `b` goes on, or holds the smaller byte.
pub open spec fn less_at(a: Seq<u8>, b: Seq<u8>, n: int) -> bool {
    &&& agree_upto(a, b, n)
    &&& n < b.len()
    &&& n < a.len() ==> a[n] < b[n]
}

/// `a` comes strictly before `b` in lexicographic order.
pub open spec fn lex_less(a: Seq<u8>, b: Seq<u8>) -> bool {
    exists|n: int| #[trigger] less_at(a, b, n)
}

/// No byte string comes before itself, and no two come before each other.
pub proof fn lemma_lex_less_asymmetric(a: Seq<u8>, b: Seq<u8>)
    requires
        lex_less(a, b),
    ensures
        !lex_less(b, a),
        a != b,
{
    let n = choose|n: int| #[trigger] less_at(a, b, n);
    if lex_less(b, a) {
        let m = choose|m: int| #[trigger] less_at(b, a, m);
        if n < m {
            assert(a[n] == b[n]);
        } else if m < n {
            assert(a[m] == b[m]);
        }
    }
}

/// The order is transitive.
pub proof fn lemma_lex_less_transitive(a: Seq<u8>, b: Seq<u8>, c: Seq<u8>)
    requires
        lex_less(a, b),
        lex_less(b, c),
    ensures
        lex_less(a, c),
{
    let n = choose|n: int| #[trigger] less_at(a, b, n);
    let m = choose|m: int| #[trigger] less_at(b, c, m);
    let k = if n <= m { n } else { m };
    assert(less_at(a, c, k));
}

/// Any two byte strings are equal or ordered one way.
pub proof fn lemma_lex_less_total(a: Seq<u8>, b: Seq<u8>)
    ensures
        lex_less(a, b) || a == b || lex_less(b, a),
{
    lemma_first_difference(a, b, 0);
}

/// From a common prefix of length `n` on, two byte strings are equal or
/// ordered one way.
proof fn lemma_first_difference(a: Seq<u8>, b: Seq<u8>, n: int)
    requires
        agree_upto(a, b, n),
    ensures
        lex_less(a, b) || a == b || lex_less(b, a),
    decreases a.len() - n,
{
    if n == a.len() {
        if n == b.len() {
            assert(a =~= b);
        } else {
            assert(less_at(a, b, n));
        }
    } else if n == b.len() {
        assert(agree_upto(b, a, n));
        assert(less_at(b, a, n));
    } else if a[n] < b[n] {
        assert(less_at(a, b, n));
    } else if b[n] < a[n] {
        assert(agree_upto(b, a, n));
        assert(less_at(b, a, n));
    } else {
        assert(agree_upto(a, b, n + 1));
        lemma_first_difference(a, b, n + 1);
    }
}

} // verus!
