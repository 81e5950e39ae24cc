//! Laws that relate merging a patch to what is read afterwards.
use vstd::prelude::*;
use crate::keys::{key_lt, lemma_key_lt_asymmetric, lemma_key_lt_irreflexive};
use crate::storage::{apply_patch, ordered_listing};

verus! {

/// After merging a patch that puts `v` under `k`, reading `k` gives `v`.
pub proof fn lemma_put_then_get(m: Map<Seq<u8>, Seq<u8>>, k: Seq<u8>, v: Seq<u8>)
    ensures
        apply_patch(m, Map::empty().insert(k, Some(v))).get(k) == Some(v),
{
}

/// After merging a patch that deletes a stored key `k`, reading `k` gives
/// nothing.
pub proof fn lemma_delete_then_get(m: Map<Seq<u8>, Seq<u8>>, k: Seq<u8>)
    requires
        m.contains_key(k),
    ensures
        apply_patch(m, Map::empty().insert(k, None)).get(k) == None::<Seq<u8>>,
{
}

/// Deleting a key that is not stored changes nothing: every other key keeps
/// its value.
pub proof fn lemma_delete_absent(m: Map<Seq<u8>, Seq<u8>>, k: Seq<u8>)
    requires
        !m.contains_key(k),
    ensures
        apply_patch(m, Map::empty().insert(k, None)) == m,
{
    assert(apply_patch(m, Map::empty().insert(k, None)) =~= m);
}

/// A cursor from the empty key lists every stored entry, in ascending key
/// order, since no key sorts below the empty one.
pub proof fn lemma_listing_from_empty(s: Seq<(Seq<u8>, Seq<u8>)>, m: Map<Seq<u8>, Seq<u8>>)
    requires
        ordered_listing(s, m, Seq::empty()),
    ensures
        forall|k: Seq<u8>| #[trigger] m.contains_key(k) ==> exists|i: int| 0 <= i < s.len() && s[i].0 == k,
        forall|i: int, j: int| 0 <= i < j < s.len() ==> key_lt(#[trigger] s[i].0, #[trigger] s[j].0),
{
    assert forall|k: Seq<u8>| #[trigger] m.contains_key(k) implies exists|i: int|
        0 <= i < s.len() && s[i].0 == k by {
        assert(!key_lt(k, Seq::empty()));
    }
}

/// A snapshot taken before a merge keeps showing, for every key of the
/// patch, what the database held then, while the database shows the patch's
/// change.
pub proof fn lemma_snapshot_isolation(
    snapshot: Map<Seq<u8>, Seq<u8>>,
    before: Map<Seq<u8>, Seq<u8>>,
    p: Map<Seq<u8>, Option<Seq<u8>>>,
    k: Seq<u8>,
)
    requires
        snapshot == before,
        p.contains_key(k),
    ensures
        snapshot.get(k) == before.get(k),
        apply_patch(before, p).get(k) == p[k],
{
}

/// There is one ordered listing of the entries from a given key on: a
/// cursor's contents are fixed by the database and its starting key.
pub proof fn lemma_listing_unique(
    s1: Seq<(Seq<u8>, Seq<u8>)>,
    s2: Seq<(Seq<u8>, Seq<u8>)>,
    m: Map<Seq<u8>, Seq<u8>>,
    from: Seq<u8>,
)
    requires
        ordered_listing(s1, m, from),
        ordered_listing(s2, m, from),
    ensures
        s1 == s2,
    decreases s1.len(),
{
    if s1.len() == 0 || s2.len() == 0 {
        if s2.len() > 0 {
            assert(m.contains_key(s2[0].0));
        }
        if s1.len() > 0 {
            assert(m.contains_key(s1[0].0));
        }
        assert(s1 =~= s2);
    } else {
        let x = s1[0].0;
        assert(m.contains_key(x));
        let j = choose|j: int| 0 <= j < s2.len() && s2[j].0 == x;
        assert(m.contains_key(s2[0].0));
        let i = choose|i: int| 0 <= i < s1.len() && s1[i].0 == s2[0].0;
        lemma_key_lt_irreflexive(x);
        if j > 0 {
            assert(key_lt(s2[0].0, s2[j].0));
            if i > 0 {
                assert(key_lt(s1[0].0, s1[i].0));
                lemma_key_lt_asymmetric(s1[0].0, s1[i].0);
            }
        }
        assert(s1[0] == s2[0]);
        let m2 = m.remove(x);
        lemma_listing_tail(s1, m, from);
        lemma_listing_tail(s2, m, from);
        lemma_listing_unique(s1.drop_first(), s2.drop_first(), m2, from);
        assert(s1 =~= seq![s1[0]] + s1.drop_first());
        assert(s2 =~= seq![s2[0]] + s2.drop_first());
    }
}

/// Without its first entry, a listing lists the rest of the entries.
proof fn lemma_listing_tail(s: Seq<(Seq<u8>, Seq<u8>)>, m: Map<Seq<u8>, Seq<u8>>, from: Seq<u8>)
    requires
        ordered_listing(s, m, from),
        s.len() > 0,
    ensures
        ordered_listing(s.drop_first(), m.remove(s[0].0), from),
{
    let x = s[0].0;
    let t = s.drop_first();
    let m2 = m.remove(x);
    lemma_key_lt_irreflexive(x);
    assert forall|a: int, b: int| 0 <= a < b < t.len() implies key_lt(
        #[trigger] t[a].0,
        #[trigger] t[b].0,
    ) by {
        assert(key_lt(s[a + 1].0, s[b + 1].0));
    }
    assert forall|a: int| 0 <= a < t.len() implies !key_lt(#[trigger] t[a].0, from) && m2.contains_key(t[a].0)
        && m2[t[a].0] == t[a].1 by {
        assert(key_lt(s[0].0, s[a + 1].0));
        assert(!key_lt(s[a + 1].0, from));
    }
    assert forall|k: Seq<u8>| #[trigger] m2.contains_key(k) && !key_lt(k, from) implies exists|a: int|
        0 <= a < t.len() && t[a].0 == k by {
        assert(m.contains_key(k));
        let i = choose|i: int| 0 <= i < s.len() && s[i].0 == k;
        assert(t[i - 1].0 == k);
    }
}

} // verus!
