//! Record keys and their total order.
//!
//! A record key is an optional byte sequence (a content hash). Present keys
//! are ordered byte-lexicographically; an absent key sorts before every
//! present one. Only present keys ever match each other: reconciliation
//! never matches records that carry no hash.

use vstd::prelude::*;

verus! {

/// Byte-lexicographic strict order: a proper prefix sorts before its
/// extensions, otherwise the first differing byte decides.
pub open spec fn bytes_lt(a: Seq<u8>, b: Seq<u8>) -> bool
    decreases a.len(),
{
    if b.len() == 0 {
        false
    } else if a.len() == 0 {
        true
    } else if a[0] < b[0] {
        true
    } else if a[0] > b[0] {
        false
    } else {
        bytes_lt(a.drop_first(), b.drop_first())
    }
}

/// The spec-level value of a key: the byte sequence, if one is present.
pub open spec fn key_view(k: Option<Vec<u8>>) -> Option<Seq<u8>> {
    match k {
        Option::Some(v) => Option::Some(v@),
        Option::None => Option::None,
    }
}

/// Strict order over keys: an absent key sorts before every present key,
/// present keys compare byte-lexicographically.
pub open spec fn key_lt(a: Option<Seq<u8>>, b: Option<Seq<u8>>) -> bool {
    match (a, b) {
        (Option::None, Option::Some(_)) => true,
        (Option::Some(x), Option::Some(y)) => bytes_lt(x, y),
        _ => false,
    }
}

/// Non-strict order over keys.
pub open spec fn key_le(a: Option<Seq<u8>>, b: Option<Seq<u8>>) -> bool {
    key_lt(a, b) || a == b
}

/// Exactly one of `bytes_lt(a, b)`, `a == b`, `bytes_lt(b, a)` holds.
pub proof fn lemma_bytes_lt_trichotomy(a: Seq<u8>, b: Seq<u8>)
    ensures
        bytes_lt(a, b) || bytes_lt(b, a) || a == b,
        bytes_lt(a, b) ==> !bytes_lt(b, a) && a != b,
        bytes_lt(b, a) ==> !bytes_lt(a, b) && b != a,
    decreases a.len(),
{
    if b.len() == 0 || a.len() == 0 {
        if a.len() == 0 && b.len() == 0 {
            assert(a =~= b);
        }
    } else if a[0] < b[0] || a[0] > b[0] {
    } else {
        lemma_bytes_lt_trichotomy(a.drop_first(), b.drop_first());
        if a.drop_first() =~= b.drop_first() && a[0] == b[0] {
            assert forall|k: int| 0 <= k < a.len() implies a[k] == b[k] by {
                if k > 0 {
                    assert(a.drop_first()[k - 1] == a[k]);
                    assert(b.drop_first()[k - 1] == b[k]);
                }
            }
            assert(a =~= b);
        }
        if a == b {
            assert(a.drop_first() =~= b.drop_first());
        }
    }
}

/// Byte-lexicographic order is transitive.
pub proof fn lemma_bytes_lt_trans(a: Seq<u8>, b: Seq<u8>, c: Seq<u8>)
    requires
        bytes_lt(a, b),
        bytes_lt(b, c),
    ensures
        bytes_lt(a, c),
    decreases a.len(),
{
    if c.len() == 0 {
        assert(false);
    } else if b.len() == 0 {
        assert(false);
    } else if a.len() == 0 {
    } else {
        if a[0] < b[0] {
            if b[0] < c[0] {
            } else {
                assert(b[0] == c[0]);
            }
        } else {
            assert(a[0] == b[0]);
            if b[0] < c[0] {
            } else {
                assert(b[0] == c[0]);
                lemma_bytes_lt_trans(a.drop_first(), b.drop_first(), c.drop_first());
            }
        }
    }
}

/// Exactly one of `key_lt(a, b)`, `a == b`, `key_lt(b, a)` holds.
pub proof fn lemma_key_lt_trichotomy(a: Option<Seq<u8>>, b: Option<Seq<u8>>)
    ensures
        key_lt(a, b) || key_lt(b, a) || a == b,
        key_lt(a, b) ==> !key_lt(b, a) && a != b,
        key_lt(b, a) ==> !key_lt(a, b) && b != a,
{
    match (a, b) {
        (Option::Some(x), Option::Some(y)) => {
            lemma_bytes_lt_trichotomy(x, y);
        },
        _ => {},
    }
}

/// The key order is transitive.
pub proof fn lemma_key_lt_trans(a: Option<Seq<u8>>, b: Option<Seq<u8>>, c: Option<Seq<u8>>)
    requires
        key_lt(a, b),
        key_lt(b, c),
    ensures
        key_lt(a, c),
{
    match (a, b, c) {
        (Option::Some(x), Option::Some(y), Option::Some(z)) => {
            lemma_bytes_lt_trans(x, y, z);
        },
        _ => {},
    }
}

/// The non-strict key order is transitive.
pub proof fn lemma_key_le_trans(a: Option<Seq<u8>>, b: Option<Seq<u8>>, c: Option<Seq<u8>>)
    requires
        key_le(a, b),
        key_le(b, c),
    ensures
        key_le(a, c),
{
    if key_lt(a, b) && key_lt(b, c) {
        lemma_key_lt_trans(a, b, c);
    }
}

/// How two keys compare under the total key order.
#[derive(Clone, Copy, PartialEq, Eq, Structural, Debug)]
pub enum KeyOrder {
    Less,
    Equal,
    Greater,
}

/// Compares two byte vectors in the byte-lexicographic order.
fn bytes_compare(a: &Vec<u8>, b: &Vec<u8>) -> (r: KeyOrder)
    ensures
        (r == KeyOrder::Less) == bytes_lt(a@, b@),
        (r == KeyOrder::Greater) == bytes_lt(b@, a@),
        (r == KeyOrder::Equal) == (a@ == b@),
{
    proof {
        lemma_bytes_lt_trichotomy(a@, b@);
        assert(a@.skip(0) =~= a@);
        assert(b@.skip(0) =~= b@);
    }
    let mut i: usize = 0;
    while i < a.len() && i < b.len()
        invariant
            i <= a@.len(),
            i <= b@.len(),
            a@.take(i as int) == b@.take(i as int),
            bytes_lt(a@, b@) == bytes_lt(a@.skip(i as int), b@.skip(i as int)),
            bytes_lt(b@, a@) == bytes_lt(b@.skip(i as int), a@.skip(i as int)),
            bytes_lt(a@, b@) ==> !bytes_lt(b@, a@) && a@ != b@,
            bytes_lt(b@, a@) ==> !bytes_lt(a@, b@) && b@ != a@,
        decreases a@.len() - i,
    {
        let x = a[i];
        let y = b[i];
        proof {
            assert(a@.skip(i as int)[0] == a@[i as int]);
            assert(b@.skip(i as int)[0] == b@[i as int]);
            if x == y {
                assert(a@.skip(i as int).drop_first() =~= a@.skip(i + 1));
                assert(b@.skip(i as int).drop_first() =~= b@.skip(i + 1));
                assert(a@.take(i + 1) =~= a@.take(i as int).push(x));
                assert(b@.take(i + 1) =~= b@.take(i as int).push(y));
            }
        }
        if x < y {
            return KeyOrder::Less;
        }
        if x > y {
            return KeyOrder::Greater;
        }
        i = i + 1;
    }
    if a.len() == b.len() {
        proof {
            assert(a@ =~= b@);
        }
        KeyOrder::Equal
    } else if a.len() < b.len() {
        proof {
            assert(b@.skip(i as int).len() > 0);
            assert(a@.skip(i as int).len() == 0);
        }
        KeyOrder::Less
    } else {
        proof {
            assert(a@.skip(i as int).len() > 0);
            assert(b@.skip(i as int).len() == 0);
        }
        KeyOrder::Greater
    }
}

/// Compares two optional keys under the total key order; an absent key
/// sorts first and two absent keys compare equal.
pub fn key_compare(a: &Option<Vec<u8>>, b: &Option<Vec<u8>>) -> (r: KeyOrder)
    ensures
        (r == KeyOrder::Less) == key_lt(key_view(*a), key_view(*b)),
        (r == KeyOrder::Greater) == key_lt(key_view(*b), key_view(*a)),
        (r == KeyOrder::Equal) == (key_view(*a) == key_view(*b)),
{
    match (a, b) {
        (Option::None, Option::None) => KeyOrder::Equal,
        (Option::None, Option::Some(_)) => KeyOrder::Less,
        (Option::Some(_), Option::None) => KeyOrder::Greater,
        (Option::Some(x), Option::Some(y)) => bytes_compare(x, y),
    }
}

} // verus!
