//! Byte-string keys and their total order.
use vstd::prelude::*;

verus! {

/// `a` and `b` agree on their first `n` bytes.
pub open spec fn agree_upto(a: Seq<u8>, b: Seq<u8>, n: int) -> bool {
    &&& 0 <= n <= a.len()
    &&& n <= b.len()
    &&& forall|k: int| 0 <= k < n ==> #[trigger] a[k] == b[k]
}

/// `n` witnesses that `a` sorts strictly before `b`: either `a` is a proper
/// prefix of `b`, or `n` is the first position where they differ and `a`
/// holds the smaller byte there.
pub open spec fn lt_at(a: Seq<u8>, b: Seq<u8>, n: int) -> bool {
    &&& agree_upto(a, b, n)
    &&& n < b.len()
    &&& (n == a.len() || a[n] < b[n])
}

/// Byte-wise lexicographic order on keys.
pub open spec fn key_lt(a: Seq<u8>, b: Seq<u8>) -> bool {
    exists|n: int| lt_at(a, b, n)
}

pub proof fn lemma_key_lt_irreflexive(a: Seq<u8>)
    ensures
        !key_lt(a, a),
{
}

pub proof fn lemma_key_lt_asymmetric(a: Seq<u8>, b: Seq<u8>)
    requires
        key_lt(a, b),
    ensures
        !key_lt(b, a),
{
    let n = choose|n: int| lt_at(a, b, n);
    if key_lt(b, a) {
        let m = choose|m: int| lt_at(b, a, m);
        if n < m {
            assert(b[n] == a[n]);
        } else if m < n {
            assert(a[m] == b[m]);
        }
    }
}

pub proof fn lemma_key_lt_transitive(a: Seq<u8>, b: Seq<u8>, c: Seq<u8>)
    requires
        key_lt(a, b),
        key_lt(b, c),
    ensures
        key_lt(a, c),
{
    let n = choose|n: int| lt_at(a, b, n);
    let m = choose|m: int| lt_at(b, c, m);
    if n < m {
        assert(c[n] == b[n]);
        assert(lt_at(a, c, n));
    } else if m < n {
        assert(a[m] == b[m]);
        assert(lt_at(a, c, m));
    } else {
        assert(lt_at(a, c, n));
    }
}

/// Compares two keys byte by byte.
pub fn compare_keys(a: &[u8], b: &[u8]) -> (r: core::cmp::Ordering)
    ensures
        (r == core::cmp::Ordering::Less) == key_lt(a@, b@),
        (r == core::cmp::Ordering::Equal) == (a@ == b@),
        (r == core::cmp::Ordering::Greater) == key_lt(b@, a@),
{
    let mut i: usize = 0;
    while i < a.len() && i < b.len()
        invariant
            agree_upto(a@, b@, i as int),
        decreases a.len() - i,
    {
        if a[i] < b[i] {
            assert(lt_at(a@, b@, i as int));
            proof { lemma_key_lt_asymmetric(a@, b@); }
            return core::cmp::Ordering::Less;
        } else if a[i] > b[i] {
            assert(lt_at(b@, a@, i as int));
            proof { lemma_key_lt_asymmetric(b@, a@); }
            return core::cmp::Ordering::Greater;
        }
        i = i + 1;
    }
    if i < b.len() {
        assert(lt_at(a@, b@, i as int));
        proof { lemma_key_lt_asymmetric(a@, b@); }
        core::cmp::Ordering::Less
    } else if i < a.len() {
        assert(lt_at(b@, a@, i as int));
        proof { lemma_key_lt_asymmetric(b@, a@); }
        core::cmp::Ordering::Greater
    } else {
        assert(a@ =~= b@);
        proof { lemma_key_lt_irreflexive(a@); }
        core::cmp::Ordering::Equal
    }
}

/// A fresh copy of a byte string.
pub fn copy_bytes(v: &[u8]) -> (r: Vec<u8>)
    ensures
        r@ == v@,
{
    let mut r: Vec<u8> = Vec::with_capacity(v.len());
    let mut i: usize = 0;
    while i < v.len()
        invariant
            i <= v.len(),
            r@ == v@.subrange(0, i as int),
        decreases v.len() - i,
    {
        r.push(v[i]);
        i = i + 1;
    }
    assert(r@ =~= v@);
    r
}

} // verus!
