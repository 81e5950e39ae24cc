//! The in-memory reference engine.
use vstd::prelude::*;
use crate::keys::{
    compare_keys, copy_bytes, key_lt, lemma_key_lt_asymmetric, lemma_key_lt_irreflexive,
    lemma_key_lt_transitive,
};
use crate::storage::{
    apply_patch, bytes_of, entry_of, entry_view, first_of, ordered_listing, Change, Cursor, Database,
    Error, Patch, Snapshot,
};

verus! {

/// The changes that the entries `es` of a patch make from position `n` on:
/// those already applied while the first `n` wait.
pub open spec fn applied_changes(
    changes: Map<Seq<u8>, Option<Seq<u8>>>,
    es: Seq<(Vec<u8>, Change)>,
    n: int,
) -> Map<Seq<u8>, Option<Seq<u8>>> {
    changes.restrict(changes.dom().filter(|k: Seq<u8>| forall|j: int| 0 <= j < n ==> es[j].0@ != k))
}

/// A database that holds all its data in memory, as entries sorted by key.
pub struct MemoryDB {
    map: Vec<(Vec<u8>, Vec<u8>)>,
    contents: Ghost<Map<Seq<u8>, Seq<u8>>>,
}

impl View for MemoryDB {
    type V = Map<Seq<u8>, Seq<u8>>;

    /// Each key stored with its value.
    closed spec fn view(&self) -> Map<Seq<u8>, Seq<u8>> {
        self.contents@
    }
}

impl MemoryDB {
    /// Creates a new, empty database.
    pub fn new() -> (r: MemoryDB)
        ensures
            r.wf(),
            r@ == Map::<Seq<u8>, Seq<u8>>::empty(),
    {
        MemoryDB { map: Vec::new(), contents: Ghost(Map::empty()) }
    }

    /// The first position whose key is not below `key`, and whether the key
    /// stands there.
    fn find(&self, key: &[u8]) -> (r: (bool, usize))
        requires
            self.wf(),
        ensures
            r.1 <= self.map.len(),
            forall|j: int| 0 <= j < r.1 ==> key_lt(#[trigger] self.map[j].0@, key@),
            r.0 ==> r.1 < self.map.len() && self.map[r.1 as int].0@ == key@,
            !r.0 ==> r.1 == self.map.len() || key_lt(key@, self.map[r.1 as int].0@),
    {
        let mut i: usize = 0;
        while i < self.map.len()
            invariant
                i <= self.map.len(),
                forall|j: int| 0 <= j < i ==> key_lt(#[trigger] self.map[j].0@, key@),
            decreases self.map.len() - i,
        {
            match compare_keys(self.map[i].0.as_slice(), key) {
                core::cmp::Ordering::Less => {},
                core::cmp::Ordering::Equal => {
                    return (true, i);
                },
                core::cmp::Ordering::Greater => {
                    return (false, i);
                },
            }
            i = i + 1;
        }
        (false, i)
    }

    /// A key not found by `find` is absent.
    proof fn lemma_not_found(&self, key: Seq<u8>, idx: int)
        requires
            self.wf(),
            0 <= idx <= self.map.len(),
            forall|j: int| 0 <= j < idx ==> key_lt(#[trigger] self.map[j].0@, key),
            idx == self.map.len() || key_lt(key, self.map[idx].0@),
        ensures
            !self@.contains_key(key),
            forall|j: int| 0 <= j < self.map.len() ==> #[trigger] self.map[j].0@ != key,
    {
        lemma_key_lt_irreflexive(key);
        assert forall|j: int| 0 <= j < self.map.len() implies #[trigger] self.map[j].0@ != key by {
            if j > idx {
                assert(key_lt(self.map[idx].0@, self.map[j].0@));
                if self.map[j].0@ == key {
                    lemma_key_lt_transitive(key, self.map[idx].0@, key);
                }
            }
        }
    }

    /// Stores `value` under `key`, replacing what was there.
    fn put(&mut self, key: Vec<u8>, value: Vec<u8>)
        requires
            old(self).wf(),
        ensures
            final(self).wf(),
            final(self)@ == old(self)@.insert(key@, value@),
    {
        let ghost k = key@;
        let ghost v = value@;
        let ghost old_map = self.map@;
        let ghost old_contents = self.contents@;
        let (found, i) = self.find(key.as_slice());
        if found {
            self.map.set(i, (key, value));
            self.contents = Ghost(old_contents.insert(k, v));
            assert(self.map[i as int].0@ == old_map[i as int].0@);
            assert forall|j: int| 0 <= j < self.map.len() implies #[trigger] self.map[j].0@
                == old_map[j].0@ by {}
            assert forall|x: Seq<u8>| #[trigger] self.contents@.contains_key(x) implies exists|j: int|
                0 <= j < self.map.len() && self.map[j].0@ == x by {
                if x != k {
                    let j = choose|j: int| 0 <= j < old_map.len() && old_map[j].0@ == x;
                    assert(self.map[j].0@ == x);
                }
            }
        } else {
            proof { self.lemma_not_found(k, i as int); }
            self.map.insert(i, (key, value));
            self.contents = Ghost(old_contents.insert(k, v));
            assert forall|a: int, b: int| 0 <= a < b < self.map.len() implies key_lt(
                #[trigger] self.map[a].0@,
                #[trigger] self.map[b].0@,
            ) by {
                if b < i {
                } else if b == i {
                } else if a < i {
                    assert(key_lt(old_map[a].0@, k));
                    assert(key_lt(k, old_map[i as int].0@));
                    if b - 1 > i {
                        assert(key_lt(old_map[i as int].0@, old_map[b - 1].0@));
                        lemma_key_lt_transitive(k, old_map[i as int].0@, old_map[b - 1].0@);
                    }
                    lemma_key_lt_transitive(old_map[a].0@, k, old_map[b - 1].0@);
                } else if a == i {
                    if b - 1 > i {
                        assert(key_lt(old_map[i as int].0@, old_map[b - 1].0@));
                        lemma_key_lt_transitive(k, old_map[i as int].0@, old_map[b - 1].0@);
                    }
                } else {
                    assert(key_lt(old_map[a - 1].0@, old_map[b - 1].0@));
                }
            }
            assert forall|j: int| 0 <= j < self.map.len() implies self.contents@.contains_key(
                #[trigger] self.map[j].0@,
            ) && self.contents@[self.map[j].0@] == self.map[j].1@ by {
                if j < i {
                    assert(old_map[j].0@ != k);
                } else if j > i {
                    assert(old_map[j - 1].0@ != k);
                    assert(self.map[j] == old_map[j - 1]);
                }
            }
            assert forall|x: Seq<u8>| #[trigger] self.contents@.contains_key(x) implies exists|j: int|
                0 <= j < self.map.len() && self.map[j].0@ == x by {
                if x == k {
                    assert(self.map[i as int].0@ == x);
                } else {
                    let j = choose|j: int| 0 <= j < old_map.len() && old_map[j].0@ == x;
                    if j < i {
                        assert(self.map[j].0@ == x);
                    } else {
                        assert(self.map[j + 1].0@ == x);
                    }
                }
            }
        }
    }

    /// Removes what is stored under `key`, if anything.
    fn remove(&mut self, key: &[u8])
        requires
            old(self).wf(),
        ensures
            final(self).wf(),
            final(self)@ == old(self)@.remove(key@),
    {
        let ghost k = key@;
        let ghost old_map = self.map@;
        let ghost old_contents = self.contents@;
        let (found, i) = self.find(key);
        if found {
            self.map.remove(i);
            self.contents = Ghost(old_contents.remove(k));
            assert forall|a: int, b: int| 0 <= a < b < self.map.len() implies key_lt(
                #[trigger] self.map[a].0@,
                #[trigger] self.map[b].0@,
            ) by {
                if a < i && b >= i {
                    assert(key_lt(old_map[a].0@, old_map[b + 1].0@));
                } else if a >= i {
                    assert(key_lt(old_map[a + 1].0@, old_map[b + 1].0@));
                }
            }
            assert forall|j: int| 0 <= j < self.map.len() implies self.contents@.contains_key(
                #[trigger] self.map[j].0@,
            ) && self.contents@[self.map[j].0@] == self.map[j].1@ by {
                if j < i {
                    assert(key_lt(old_map[j].0@, k));
                    lemma_key_lt_irreflexive(k);
                } else {
                    assert(key_lt(old_map[i as int].0@, old_map[j + 1].0@));
                    lemma_key_lt_irreflexive(k);
                    assert(self.map[j] == old_map[j + 1]);
                }
            }
            assert forall|x: Seq<u8>| #[trigger] self.contents@.contains_key(x) implies exists|j: int|
                0 <= j < self.map.len() && self.map[j].0@ == x by {
                let j = choose|j: int| 0 <= j < old_map.len() && old_map[j].0@ == x;
                if j < i {
                    assert(self.map[j].0@ == x);
                } else {
                    assert(j != i);
                    assert(self.map[j - 1].0@ == x);
                }
            }
        } else {
            proof { self.lemma_not_found(k, i as int); }
            assert(self.contents@ =~= old_contents.remove(k));
        }
    }
}

impl Snapshot for MemoryDB {
    type Iter = MemoryDBIter;

    closed spec fn contents(&self) -> Map<Seq<u8>, Seq<u8>> {
        self@
    }

    /// The entries are sorted strictly by key and are exactly the contents.
    closed spec fn wf(&self) -> bool {
        &&& forall|i: int, j: int|
            0 <= i < j < self.map.len() ==> key_lt(#[trigger] self.map[i].0@, #[trigger] self.map[j].0@)
        &&& forall|i: int|
            0 <= i < self.map.len() ==> self.contents@.contains_key(#[trigger] self.map[i].0@)
                && self.contents@[self.map[i].0@] == self.map[i].1@
        &&& forall|k: Seq<u8>|
            #[trigger] self.contents@.contains_key(k) ==> exists|i: int|
                0 <= i < self.map.len() && self.map[i].0@ == k
    }

    /// The value stored under `key`, if any.
    fn get(&self, key: &[u8]) -> (r: Option<Vec<u8>>)
        ensures
            bytes_of(r) == self@.get(key@),
    {
        let (found, i) = self.find(key);
        if found {
            Some(copy_bytes(self.map[i].1.as_slice()))
        } else {
            proof { self.lemma_not_found(key@, i as int); }
            None
        }
    }

    /// Whether a value is stored under `key`.
    fn contains(&self, key: &[u8]) -> (r: bool)
        ensures
            r == self@.contains_key(key@),
    {
        let (found, i) = self.find(key);
        proof {
            if !found {
                self.lemma_not_found(key@, i as int);
            }
        }
        found
    }

    /// A cursor over the entries whose key is at least `from`, in ascending
    /// key order; `from` need not be stored.
    fn iter(&self, from: &[u8]) -> (r: MemoryDBIter)
        ensures
            ordered_listing(r.remaining(), self@, from@),
    {
        let (found, start) = self.find(from);
        let mut items: Vec<(Vec<u8>, Vec<u8>)> = Vec::new();
        let mut i: usize = start;
        while i < self.map.len()
            invariant
                start <= i <= self.map.len(),
                items.len() == i - start,
                forall|j: int|
                    0 <= j < items.len() ==> entry_view(#[trigger] items[j]) == entry_view(
                        self.map[start + j],
                    ),
            decreases self.map.len() - i,
        {
            items.push(
                (copy_bytes(self.map[i].0.as_slice()), copy_bytes(self.map[i].1.as_slice())),
            );
            i = i + 1;
        }
        let r = MemoryDBIter { items, pos: 0 };
        proof {
            let s = r.remaining();
            assert forall|j: int| 0 <= j < s.len() implies s[j] == entry_view(
                self.map[start + j],
            ) by {
                assert(entry_view(r.items[j]) == entry_view(self.map[start + j]));
            }
            lemma_key_lt_irreflexive(from@);
            assert forall|j: int| 0 <= j < s.len() implies !key_lt(#[trigger] s[j].0, from@) by {
                let m = start + j;
                if key_lt(self.map[m].0@, from@) {
                    if j == 0 {
                        if !found {
                            lemma_key_lt_asymmetric(from@, self.map[m].0@);
                        }
                    } else {
                        assert(key_lt(self.map[start as int].0@, self.map[m].0@));
                        lemma_key_lt_transitive(self.map[start as int].0@, self.map[m].0@, from@);
                        if found {
                        } else {
                            lemma_key_lt_asymmetric(from@, self.map[start as int].0@);
                        }
                    }
                }
            }
            assert forall|a: int, b: int| 0 <= a < b < s.len() implies key_lt(
                #[trigger] s[a].0,
                #[trigger] s[b].0,
            ) by {
                assert(key_lt(self.map[start + a].0@, self.map[start + b].0@));
            }
            assert forall|k: Seq<u8>| #[trigger] self@.contains_key(k) && !key_lt(k, from@) implies exists|
                j: int,
            | 0 <= j < s.len() && s[j].0 == k by {
                let m = choose|m: int| 0 <= m < self.map.len() && self.map[m].0@ == k;
                if m < start {
                    assert(key_lt(self.map[m].0@, from@));
                }
                assert(s[m - start].0 == k);
            }
        }
        r
    }
}

impl Database for MemoryDB {
    type Snap = MemoryDB;

    /// An independent copy of the database.
    fn clone(&self) -> (r: MemoryDB)
        ensures
            r.wf(),
            r@ == self@,
    {
        let mut map: Vec<(Vec<u8>, Vec<u8>)> = Vec::with_capacity(self.map.len());
        let mut i: usize = 0;
        while i < self.map.len()
            invariant
                i <= self.map.len(),
                map.len() == i,
                forall|j: int| 0 <= j < i ==> entry_view(#[trigger] map[j]) == entry_view(self.map[j]),
            decreases self.map.len() - i,
        {
            map.push(
                (copy_bytes(self.map[i].0.as_slice()), copy_bytes(self.map[i].1.as_slice())),
            );
            i = i + 1;
        }
        let r = MemoryDB { map, contents: Ghost(self.contents@) };
        assert forall|j: int| 0 <= j < r.map.len() implies #[trigger] r.map[j].0@ == self.map[j].0@
            && r.map[j].1@ == self.map[j].1@ by {
            assert(entry_view(r.map[j]) == entry_view(self.map[j]));
        }
        assert forall|k: Seq<u8>| #[trigger] r.contents@.contains_key(k) implies exists|j: int|
            0 <= j < r.map.len() && r.map[j].0@ == k by {
            let j = choose|j: int| 0 <= j < self.map.len() && self.map[j].0@ == k;
            assert(r.map[j].0@ == k);
        }
        r
    }

    /// A read-only view of the current contents, unaffected by later merges.
    fn snapshot(&self) -> (r: MemoryDB)
        ensures
            r.wf(),
            r@ == self@,
    {
        self.clone()
    }

    /// Applies every change of `patch`: a put stores its value, a delete
    /// removes its key if present. The in-memory engine cannot fail.
    fn merge(&mut self, patch: Patch) -> (r: Result<(), Error>)
        ensures
            final(self).wf(),
            r is Ok,
            final(self)@ == apply_patch(old(self)@, patch@),
    {
        proof { patch.lemma_view(); }
        let ghost start = self@;
        let ghost changes = patch@;
        let ghost es = patch.entry_seq();
        let mut entries = patch.into_entries();
        assert(apply_patch(start, applied_changes(changes, es, es.len() as int)) =~= start);
        while entries.len() > 0
            invariant
                self.wf(),
                entries.len() <= es.len(),
                entries@ == es.subrange(0, entries.len() as int),
                self@ == apply_patch(start, applied_changes(changes, es, entries.len() as int)),
                forall|i: int|
                    0 <= i < es.len() ==> #[trigger] changes.contains_key(es[i].0@) && changes[es[i].0@]
                        == es[i].1.outcome(),
                forall|k: Seq<u8>|
                    #[trigger] changes.contains_key(k) ==> exists|i: int| 0 <= i < es.len() && es[i].0@ == k,
                forall|i: int, j: int| 0 <= i < j < es.len() ==> #[trigger] es[i].0@ != #[trigger] es[j].0@,
            decreases entries.len(),
        {
            let ghost n = entries.len() as int;
            let ghost before = self@;
            let (key, change) = entries.pop().unwrap();
            assert(es[n - 1] == (key, change));
            let ghost k = key@;
            let ghost done = applied_changes(changes, es, n);
            match change {
                Change::Put(value) => {
                    self.put(key, value);
                },
                Change::Delete => {
                    self.remove(key.as_slice());
                },
            }
            proof {
                let next = applied_changes(changes, es, n - 1);
                assert forall|x: Seq<u8>| #[trigger] next.contains_key(x) == done.insert(
                    k,
                    changes[k],
                ).contains_key(x) by {
                    if changes.contains_key(x) && x != k {
                        if exists|j: int| 0 <= j < n && es[j].0@ == x {
                            let j = choose|j: int| 0 <= j < n && es[j].0@ == x;
                            assert(j != n - 1);
                        }
                    }
                }
                assert(next =~= done.insert(k, changes[k]));
                assert(self@ =~= apply_patch(start, next));
            }
        }
        assert(applied_changes(changes, es, 0) =~= changes);
        Ok(())
    }
}

/// A cursor over a private copy of a database's entries.
pub struct MemoryDBIter {
    items: Vec<(Vec<u8>, Vec<u8>)>,
    pos: usize,
}

impl Cursor for MemoryDBIter {
    closed spec fn remaining(&self) -> Seq<(Seq<u8>, Seq<u8>)> {
        if self.pos <= self.items.len() {
            self.items@.subrange(self.pos as int, self.items.len() as int).map_values(
                |e: (Vec<u8>, Vec<u8>)| entry_view(e),
            )
        } else {
            Seq::empty()
        }
    }

    /// Returns the current entry and moves past it.
    fn next(&mut self) -> (r: Option<(Vec<u8>, Vec<u8>)>)
        ensures
            entry_of(r) == first_of(old(self).remaining()),
            old(self).remaining().len() > 0 ==> final(self).remaining() == old(
                self,
            ).remaining().drop_first(),
            old(self).remaining().len() == 0 ==> final(self).remaining().len() == 0,
    {
        if self.pos < self.items.len() {
            let r = (
                copy_bytes(self.items[self.pos].0.as_slice()),
                copy_bytes(self.items[self.pos].1.as_slice()),
            );
            assert(entry_view(r) == old(self).remaining()[0]);
            self.pos = self.pos + 1;
            assert(self.remaining() =~= old(self).remaining().drop_first());
            Some(r)
        } else {
            None
        }
    }

    /// Returns the current entry without moving.
    fn peek(&mut self) -> (r: Option<(Vec<u8>, Vec<u8>)>)
        ensures
            *final(self) == *old(self),
            entry_of(r) == first_of(old(self).remaining()),
    {
        if self.pos < self.items.len() {
            let r = (
                copy_bytes(self.items[self.pos].0.as_slice()),
                copy_bytes(self.items[self.pos].1.as_slice()),
            );
            assert(entry_view(r) == self.remaining()[0]);
            Some(r)
        } else {
            None
        }
    }
}

} // verus!
