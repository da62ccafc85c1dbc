//! Byte keys: their order, prefixes, and the empty key.
use crate::error::{DatabaseError, DatabaseResult};
use vstd::prelude::*;

verus! {

/// `a` sorts strictly before `b` in lexicographic byte order.
pub open spec fn key_lt(a: Seq<u8>, b: Seq<u8>) -> bool
    decreases a.len(),
{
    if b.len() == 0 {
        false
    } else if a.len() == 0 {
        true
    } else if a[0] != b[0] {
        a[0] < b[0]
    } else {
        key_lt(a.drop_first(), b.drop_first())
    }
}

/// `k` starts with the bytes of `p`.
pub open spec fn has_prefix(k: Seq<u8>, p: Seq<u8>) -> bool {
    p.len() <= k.len() && k.subrange(0, p.len() as int) == p
}

/// No key sorts before itself.
pub proof fn lemma_key_lt_irreflexive(a: Seq<u8>)
    ensures
        !key_lt(a, a),
    decreases a.len(),
{
    if a.len() > 0 {
        lemma_key_lt_irreflexive(a.drop_first());
    }
}

/// Two keys are never each before the other.
pub proof fn lemma_key_lt_asymmetric(a: Seq<u8>, b: Seq<u8>)
    ensures
        !(key_lt(a, b) && key_lt(b, a)),
    decreases a.len(),
{
    if a.len() > 0 && b.len() > 0 && a[0] == b[0] {
        lemma_key_lt_asymmetric(a.drop_first(), b.drop_first());
    }
}

/// The order is transitive.
pub proof fn lemma_key_lt_transitive(a: Seq<u8>, b: Seq<u8>, c: Seq<u8>)
    requires
        key_lt(a, b),
        key_lt(b, c),
    ensures
        key_lt(a, c),
    decreases a.len(),
{
    if a.len() > 0 && a[0] == b[0] && b[0] == c[0] {
        lemma_key_lt_transitive(a.drop_first(), b.drop_first(), c.drop_first());
    }
}

/// Any two keys are equal or ordered one way.
pub proof fn lemma_key_lt_total(a: Seq<u8>, b: Seq<u8>)
    ensures
        a == b || key_lt(a, b) || key_lt(b, a),
    decreases a.len(),
{
    if a.len() > 0 && b.len() > 0 && a[0] == b[0] {
        lemma_key_lt_total(a.drop_first(), b.drop_first());
        if a.drop_first() == b.drop_first() {
            assert(a =~= seq![a[0]] + a.drop_first());
            assert(b =~= seq![b[0]] + b.drop_first());
        }
    } else if a.len() == 0 && b.len() == 0 {
        assert(a =~= b);
    }
}

/// A key never sorts before one of its prefixes.
pub proof fn lemma_prefix_not_above(k: Seq<u8>, p: Seq<u8>)
    requires
        has_prefix(k, p),
    ensures
        !key_lt(k, p),
    decreases p.len(),
{
    if p.len() > 0 {
        assert(k[0] == k.subrange(0, p.len() as int)[0]);
        assert(k.drop_first().subrange(0, p.len() - 1) =~= p.drop_first());
        lemma_prefix_not_above(k.drop_first(), p.drop_first());
    }
}

/// The keys that start with `p` lie together: going up from `p`, once a key
/// lacks the prefix every later key lacks it too.
pub proof fn lemma_prefix_block(p: Seq<u8>, a: Seq<u8>, b: Seq<u8>)
    requires
        !key_lt(a, p),
        !has_prefix(a, p),
        key_lt(a, b),
    ensures
        !has_prefix(b, p),
    decreases p.len(),
{
    if p.len() == 0 {
        assert(a.subrange(0, 0) =~= p);
    } else if a.len() == 0 {
    } else if has_prefix(b, p) {
        assert(b[0] == b.subrange(0, p.len() as int)[0]);
        assert(b.drop_first().subrange(0, p.len() - 1) =~= p.drop_first());
        if a[0] == p[0] {
            assert(a[0] == b[0]);
            if has_prefix(a.drop_first(), p.drop_first()) {
                assert(a.subrange(0, p.len() as int) =~= seq![a[0]] + a.drop_first().subrange(
                    0,
                    p.len() - 1,
                ));
                assert(p =~= seq![p[0]] + p.drop_first());
            }
            lemma_prefix_block(p.drop_first(), a.drop_first(), b.drop_first());
        }
    }
}

/// How one key stands to another.
#[derive(Debug, Clone, Copy, PartialEq, Eq)]
pub enum KeyOrder {
    Less,
    Equal,
    Greater,
}

/// Compares two keys in lexicographic byte order.
pub fn compare_keys(a: &[u8], b: &[u8]) -> (r: KeyOrder)
    ensures
        r == KeyOrder::Less <==> key_lt(a@, b@),
        r == KeyOrder::Equal <==> a@ == b@,
        r == KeyOrder::Greater <==> key_lt(b@, a@),
{
    proof {
        lemma_key_lt_asymmetric(a@, b@);
        lemma_key_lt_irreflexive(a@);
        lemma_key_lt_irreflexive(b@);
        assert(a@.skip(0) =~= a@);
        assert(b@.skip(0) =~= b@);
    }
    let mut i: usize = 0;
    while i < a.len() && i < b.len()
        invariant
            i <= a.len(),
            i <= b.len(),
            a@.subrange(0, i as int) == b@.subrange(0, i as int),
            key_lt(a@, b@) == key_lt(a@.skip(i as int), b@.skip(i as int)),
            key_lt(b@, a@) == key_lt(b@.skip(i as int), a@.skip(i as int)),
        decreases a.len() - i,
    {
        proof {
            assert(a@.skip(i as int).drop_first() =~= a@.skip(i + 1));
            assert(b@.skip(i as int).drop_first() =~= b@.skip(i + 1));
        }
        if a[i] < b[i] {
            return KeyOrder::Less;
        } else if a[i] > b[i] {
            return KeyOrder::Greater;
        }
        proof {
            assert(a@.subrange(0, i + 1) =~= a@.subrange(0, i as int).push(a@[i as int]));
            assert(b@.subrange(0, i + 1) =~= b@.subrange(0, i as int).push(b@[i as int]));
        }
        i += 1;
    }
    if a.len() < b.len() {
        KeyOrder::Less
    } else if a.len() > b.len() {
        KeyOrder::Greater
    } else {
        proof {
            assert(a@ =~= a@.subrange(0, i as int));
            assert(b@ =~= b@.subrange(0, i as int));
        }
        KeyOrder::Equal
    }
}

/// Tells whether `key` starts with `prefix`.
pub fn partial_key_match(prefix: &[u8], key: &[u8]) -> (r: bool)
    ensures
        r == has_prefix(key@, prefix@),
{
    if prefix.len() > key.len() {
        return false;
    }
    let mut i: usize = 0;
    while i < prefix.len()
        invariant
            i <= prefix.len(),
            prefix.len() <= key.len(),
            key@.subrange(0, i as int) == prefix@.subrange(0, i as int),
        decreases prefix.len() - i,
    {
        if key[i] != prefix[i] {
            proof {
                if has_prefix(key@, prefix@) {
                    assert(key@.subrange(0, prefix.len() as int)[i as int] == prefix@[i as int]);
                }
            }
            return false;
        }
        proof {
            assert(key@.subrange(0, i + 1) =~= key@.subrange(0, i as int).push(key@[i as int]));
            assert(prefix@.subrange(0, i + 1) =~= prefix@.subrange(0, i as int).push(
                prefix@[i as int],
            ));
        }
        i += 1;
    }
    proof {
        assert(prefix@ =~= prefix@.subrange(0, i as int));
    }
    true
}

/// Rejects the empty key, which no keyed operation accepts.
pub fn check_empty_key(k: &[u8]) -> (r: DatabaseResult<()>)
    ensures
        k@.len() == 0 ==> r == Err::<(), DatabaseError>(DatabaseError::InvalidKey),
        k@.len() > 0 ==> r is Ok,
{
    if k.len() == 0 {
        Err(DatabaseError::InvalidKey)
    } else {
        Ok(())
    }
}

} // verus!
