//! Lexicographic ordering of values, character by character.
//!
//! The interner keeps its backing store sorted under this order, so every
//! contract about sortedness and binary search is ultimately stated over
//! [`lex_lt`].

use vstd::prelude::*;

verus! {

/// Strict lexicographic order on character sequences: `a` comes before `b`
/// when `a` is a proper prefix of `b`, or when the first differing character
/// of `a` is smaller than that of `b`.
pub open spec fn lex_lt(a: Seq<char>, b: Seq<char>) -> bool
    decreases a.len(),
{
    if b.len() == 0 {
        false
    } else if a.len() == 0 {
        true
    } else if a[0] != b[0] {
        (a[0] as int) < (b[0] as int)
    } else {
        lex_lt(a.drop_first(), b.drop_first())
    }
}

/// No sequence comes before itself.
pub proof fn lemma_lex_irreflexive(a: Seq<char>)
    ensures
        !lex_lt(a, a),
    decreases a.len(),
{
    if a.len() > 0 {
        lemma_lex_irreflexive(a.drop_first());
    }
}

/// The order is transitive.
pub proof fn lemma_lex_transitive(a: Seq<char>, b: Seq<char>, c: Seq<char>)
    requires
        lex_lt(a, b),
        lex_lt(b, c),
    ensures
        lex_lt(a, c),
    decreases a.len(),
{
    if b.len() == 0 {
        assert(false);
    } else if c.len() == 0 {
        assert(false);
    } else if a.len() == 0 {
    } else {
        if a[0] == b[0] && b[0] == c[0] {
            lemma_lex_transitive(a.drop_first(), b.drop_first(), c.drop_first());
        }
    }
}

/// Two sequences that are unordered either way are equal.
pub proof fn lemma_lex_connected(a: Seq<char>, b: Seq<char>)
    requires
        !lex_lt(a, b),
        !lex_lt(b, a),
    ensures
        a == b,
    decreases a.len(),
{
    if b.len() == 0 {
        if a.len() == 0 {
            assert(a =~= b);
        } else {
            assert(lex_lt(b, a));
        }
    } else if a.len() == 0 {
        assert(lex_lt(a, b));
    } else {
        if a[0] != b[0] {
            assert((a[0] as int) == (b[0] as int));
            assert(false);
        } else {
            lemma_lex_connected(a.drop_first(), b.drop_first());
            assert forall|i: int| 0 <= i < a.len() implies a[i] == b[i] by {
                if i > 0 {
                    assert(a[i] == a.drop_first()[i - 1]);
                    assert(b[i] == b.drop_first()[i - 1]);
                }
            }
            assert(a =~= b);
        }
    }
}

/// One ordered pair rules out the other.
pub proof fn lemma_lex_asymmetric(a: Seq<char>, b: Seq<char>)
    requires
        lex_lt(a, b),
    ensures
        !lex_lt(b, a),
{
    if lex_lt(b, a) {
        lemma_lex_transitive(a, b, a);
        lemma_lex_irreflexive(a);
    }
}

/// Once two sequences agree on a common prefix, the order is settled by what
/// stands right after it.
pub proof fn lemma_lex_from_prefix(a: Seq<char>, b: Seq<char>, i: int)
    requires
        0 <= i <= a.len(),
        i <= b.len(),
        forall|j: int| 0 <= j < i ==> a[j] == b[j],
    ensures
        (i < a.len() && i < b.len() && (a[i] as int) < (b[i] as int)) ==> lex_lt(a, b),
        (i == a.len() && i < b.len()) ==> lex_lt(a, b),
        (i == a.len() && i == b.len()) ==> a == b,
    decreases i,
{
    if i == 0 {
        if a.len() == 0 && b.len() == 0 {
            assert(a =~= b);
        }
    } else {
        lemma_lex_from_prefix(a.drop_first(), b.drop_first(), i - 1);
        assert forall|j: int| 0 <= j < i - 1 implies a.drop_first()[j] == b.drop_first()[j] by {
            assert(a[j + 1] == b[j + 1]);
        }
        if i < a.len() && i < b.len() && (a[i] as int) < (b[i] as int) {
            assert(a.drop_first()[i - 1] == a[i]);
            assert(b.drop_first()[i - 1] == b[i]);
        }
        if i == a.len() && i == b.len() {
            assert(a.drop_first() == b.drop_first());
            assert forall|k: int| 0 <= k < a.len() implies a[k] == b[k] by {
                if k > 0 {
                    assert(a[k] == a.drop_first()[k - 1]);
                    assert(b[k] == b.drop_first()[k - 1]);
                }
            }
            assert(a =~= b);
        }
    }
}

/// The result of a three-way comparison of two values.
#[derive(Clone, Copy, Debug, PartialEq, Eq, Structural)]
pub enum StrOrd {
    Less,
    Equal,
    Greater,
}

/// Three-way comparison of two strings under [`lex_lt`].
pub fn str_compare(a: &str, b: &str) -> (r: StrOrd)
    ensures
        r == StrOrd::Less <==> lex_lt(a@, b@),
        r == StrOrd::Greater <==> lex_lt(b@, a@),
        r == StrOrd::Equal <==> a@ == b@,
{
    let alen = a.unicode_len();
    let blen = b.unicode_len();
    let mut i: usize = 0;
    while i < alen && i < blen
        invariant
            alen == a@.len(),
            blen == b@.len(),
            0 <= i <= alen,
            i <= blen,
            forall|j: int| 0 <= j < i ==> a@[j] == b@[j],
        decreases alen - i,
    {
        let ca = a.get_char(i);
        let cb = b.get_char(i);
        if (ca as u32) < (cb as u32) {
            proof {
                lemma_lex_from_prefix(a@, b@, i as int);
                lemma_lex_asymmetric(a@, b@);
                lemma_lex_irreflexive(a@);
            }
            return StrOrd::Less;
        }
        if (cb as u32) < (ca as u32) {
            proof {
                lemma_lex_from_prefix(b@, a@, i as int);
                lemma_lex_asymmetric(b@, a@);
                lemma_lex_irreflexive(a@);
            }
            return StrOrd::Greater;
        }
        assert(ca == cb);
        i = i + 1;
    }
    if i < blen {
        proof {
            lemma_lex_from_prefix(a@, b@, i as int);
            lemma_lex_asymmetric(a@, b@);
            lemma_lex_irreflexive(a@);
        }
        return StrOrd::Less;
    }
    if i < alen {
        proof {
            lemma_lex_from_prefix(b@, a@, i as int);
            lemma_lex_asymmetric(b@, a@);
            lemma_lex_irreflexive(a@);
        }
        return StrOrd::Greater;
    }
    proof {
        lemma_lex_from_prefix(a@, b@, i as int);
        lemma_lex_irreflexive(a@);
    }
    StrOrd::Equal
}

} // verus!
