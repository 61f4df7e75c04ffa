//! Names: the keys of a container.
use vstd::prelude::*;
use vstd::utf8::{encode_utf8, encode_utf8_decode_utf8};
use crate::order::{
    agree_upto, lemma_lex_less_asymmetric, lemma_lex_less_total, lemma_lex_less_transitive,
    less_at, lex_less,
};

verus! {

/// An identifier. Names are compared by the bytes of their UTF-8 text, in
/// lexicographic order.
#[derive(Debug, PartialEq, Eq, PartialOrd, Ord, Hash)]
pub struct Name(String);

/// How one name stands to another in key order.
#[derive(Debug, Clone, Copy, PartialEq, Eq, Structural)]
pub enum KeyOrder {
    /// The first name comes strictly before the second.
    Before,
    /// The two names are the same.
    Same,
    /// The first name comes strictly after the second.
    After,
}

impl View for Name {
    type V = Seq<char>;

    closed spec fn view(&self) -> Seq<char> {
        self.0@
    }
}

impl Clone for Name {
    fn clone(&self) -> (copy: Name)
        ensures
            copy@ == self@,
    {
        Name(self.0.clone())
    }
}

/// The bytes by which a name with text `text` is ordered and encoded.
pub open spec fn key_bytes(text: Seq<char>) -> Seq<u8> {
    encode_utf8(text)
}

/// The name with text `a` comes strictly before the one with text `b`.
pub open spec fn key_less(a: Seq<char>, b: Seq<char>) -> bool {
    lex_less(key_bytes(a), key_bytes(b))
}

/// Names with the same bytes have the same text.
pub proof fn lemma_key_bytes_injective(a: Seq<char>, b: Seq<char>)
    requires
        key_bytes(a) == key_bytes(b),
    ensures
        a == b,
{
    encode_utf8_decode_utf8(a);
    encode_utf8_decode_utf8(b);
}

/// Key order is a strict total order on texts.
pub proof fn lemma_key_less_asymmetric(a: Seq<char>, b: Seq<char>)
    requires
        key_less(a, b),
    ensures
        !key_less(b, a),
        a != b,
{
    lemma_lex_less_asymmetric(key_bytes(a), key_bytes(b));
}

/// Key order is transitive.
pub proof fn lemma_key_less_transitive(a: Seq<char>, b: Seq<char>, c: Seq<char>)
    requires
        key_less(a, b),
        key_less(b, c),
    ensures
        key_less(a, c),
{
    lemma_lex_less_transitive(key_bytes(a), key_bytes(b), key_bytes(c));
}

/// Two different texts are ordered one way or the other.
pub proof fn lemma_key_less_total(a: Seq<char>, b: Seq<char>)
    ensures
        key_less(a, b) || a == b || key_less(b, a),
{
    lemma_lex_less_total(key_bytes(a), key_bytes(b));
    if key_bytes(a) == key_bytes(b) {
        lemma_key_bytes_injective(a, b);
    }
}

impl Name {
    /// Makes a name of the given text, which is taken as it is.
    pub fn test(name: &str) -> (made: Name)
        ensures
            made@ == name@,
    {
        Name(name.to_owned())
    }

    /// The text of the name.
    pub fn as_str(&self) -> (text: &str)
        ensures
            text@ == self@,
    {
        self.0.as_str()
    }

    /// Where `self` stands to `other` in key order.
    pub fn compare(&self, other: &Name) -> (order: KeyOrder)
        ensures
            order == KeyOrder::Before <==> key_less(self@, other@),
            order == KeyOrder::Same <==> self@ == other@,
            order == KeyOrder::After <==> key_less(other@, self@),
    {
        let a = self.0.as_str().as_bytes();
        let b = other.0.as_str().as_bytes();
        let mut i: usize = 0;
        while i < a.len() && i < b.len()
            invariant
                agree_upto(a@, b@, i as int),
                a@ == key_bytes(self@),
                b@ == key_bytes(other@),
            decreases a.len() - i,
        {
            if a[i] < b[i] {
                proof {
                    assert(less_at(a@, b@, i as int));
                    lemma_key_less_asymmetric(self@, other@);
                }
                return KeyOrder::Before;
            }
            if b[i] < a[i] {
                proof {
                    assert(agree_upto(b@, a@, i as int));
                    assert(less_at(b@, a@, i as int));
                    lemma_key_less_asymmetric(other@, self@);
                }
                return KeyOrder::After;
            }
            i = i + 1;
        }
        if a.len() < b.len() {
            proof {
                assert(less_at(a@, b@, i as int));
                lemma_key_less_asymmetric(self@, other@);
            }
            KeyOrder::Before
        } else if b.len() < a.len() {
            proof {
                assert(agree_upto(b@, a@, i as int));
                assert(less_at(b@, a@, i as int));
                lemma_key_less_asymmetric(other@, self@);
            }
            KeyOrder::After
        } else {
            proof {
                assert(a@ =~= b@);
                lemma_key_bytes_injective(self@, other@);
                if key_less(self@, other@) {
                    lemma_key_less_asymmetric(self@, other@);
                }
                if key_less(other@, self@) {
                    lemma_key_less_asymmetric(other@, self@);
                }
            }
            KeyOrder::Same
        }
    }
}

} // verus!
