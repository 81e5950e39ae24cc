//! The storage protocol: changes and patches, the traits of a database, its
//! snapshots and cursors, and the write error.
use vstd::prelude::*;
use crate::keys::{compare_keys, key_lt};

verus! {

/// The value a byte string stands for.
pub open spec fn bytes_of(o: Option<Vec<u8>>) -> Option<Seq<u8>> {
    match o {
        Some(v) => Some(v@),
        None => None,
    }
}

/// A key and its value, as byte strings.
pub open spec fn entry_view(e: (Vec<u8>, Vec<u8>)) -> (Seq<u8>, Seq<u8>) {
    (e.0@, e.1@)
}

/// The entry an optional pair of byte strings stands for.
pub open spec fn entry_of(o: Option<(Vec<u8>, Vec<u8>)>) -> Option<(Seq<u8>, Seq<u8>)> {
    match o {
        Some(e) => Some(entry_view(e)),
        None => None,
    }
}

/// `s` lists the entries of `m` whose key is at least `from`, each once, in
/// ascending key order.
pub open spec fn ordered_listing(
    s: Seq<(Seq<u8>, Seq<u8>)>,
    m: Map<Seq<u8>, Seq<u8>>,
    from: Seq<u8>,
) -> bool {
    &&& forall|i: int, j: int| 0 <= i < j < s.len() ==> key_lt(#[trigger] s[i].0, #[trigger] s[j].0)
    &&& forall|i: int|
        0 <= i < s.len() ==> !key_lt(#[trigger] s[i].0, from) && m.contains_key(s[i].0) && m[s[i].0]
            == s[i].1
    &&& forall|k: Seq<u8>|
        #[trigger] m.contains_key(k) && !key_lt(k, from) ==> exists|i: int|
            0 <= i < s.len() && s[i].0 == k
}

/// The first of the entries `s`, if there is one.
pub open spec fn first_of(s: Seq<(Seq<u8>, Seq<u8>)>) -> Option<(Seq<u8>, Seq<u8>)> {
    if s.len() > 0 {
        Some(s[0])
    } else {
        None
    }
}

/// An update of one key: set it to a value, or remove it.
pub enum Change {
    Put(Vec<u8>),
    Delete,
}

impl Change {
    /// The state the change leaves its key in: `Some(v)` for a value, `None`
    /// for a removal.
    pub open spec fn outcome(&self) -> Option<Seq<u8>> {
        match self {
            Change::Put(v) => Some(v@),
            Change::Delete => None,
        }
    }
}

/// What applying a patch with the changes `p` does to the contents `m`: a
/// key the patch names ends as its change says, every other key is kept.
pub open spec fn apply_patch(
    m: Map<Seq<u8>, Seq<u8>>,
    p: Map<Seq<u8>, Option<Seq<u8>>>,
) -> Map<Seq<u8>, Seq<u8>> {
    Map::new(
        |k: Seq<u8>|
            if p.contains_key(k) {
                p[k] is Some
            } else {
                m.contains_key(k)
            },
        |k: Seq<u8>|
            if p.contains_key(k) {
                p[k]->Some_0
            } else {
                m[k]
            },
    )
}

/// A batch of changes, at most one per key, applied to a database at once.
pub struct Patch {
    entries: Vec<(Vec<u8>, Change)>,
}

impl View for Patch {
    type V = Map<Seq<u8>, Option<Seq<u8>>>;

    /// Each key of the patch with the state its change leaves it in.
    closed spec fn view(&self) -> Map<Seq<u8>, Option<Seq<u8>>> {
        Map::new(
            |k: Seq<u8>| exists|i: int| 0 <= i < self.entries.len() && self.entries[i].0@ == k,
            |k: Seq<u8>|
                self.entries[choose|i: int|
                    0 <= i < self.entries.len() && self.entries[i].0@ == k].1.outcome(),
        )
    }
}

impl Patch {
    /// The changes in the order they were first inserted.
    pub closed spec fn entry_seq(&self) -> Seq<(Vec<u8>, Change)> {
        self.entries@
    }

    /// No key occurs twice.
    pub open spec fn wf(&self) -> bool {
        forall|i: int, j: int|
            0 <= i < j < self.entry_seq().len() ==> #[trigger] self.entry_seq()[i].0@
                != #[trigger] self.entry_seq()[j].0@
    }

    pub proof fn lemma_view(&self)
        requires
            self.wf(),
        ensures
            forall|i: int|
                0 <= i < self.entry_seq().len() ==> #[trigger] self@.contains_key(
                    self.entry_seq()[i].0@,
                ) && self@[self.entry_seq()[i].0@] == self.entry_seq()[i].1.outcome(),
            forall|k: Seq<u8>|
                #[trigger] self@.contains_key(k) ==> exists|i: int|
                    0 <= i < self.entry_seq().len() && self.entry_seq()[i].0@ == k,
    {
        assert forall|i: int| 0 <= i < self.entry_seq().len() implies #[trigger] self@.contains_key(
            self.entry_seq()[i].0@,
        ) && self@[self.entry_seq()[i].0@] == self.entry_seq()[i].1.outcome() by {
            let k = self.entries[i].0@;
            let j = choose|j: int| 0 <= j < self.entries.len() && self.entries[j].0@ == k;
            if j != i {
                if i < j {
                    assert(self.entry_seq()[i].0@ != self.entry_seq()[j].0@);
                } else {
                    assert(self.entry_seq()[j].0@ != self.entry_seq()[i].0@);
                }
            }
        }
    }

    /// An empty patch.
    pub fn new() -> (r: Patch)
        ensures
            r.wf(),
            r@ == Map::<Seq<u8>, Option<Seq<u8>>>::empty(),
    {
        let r = Patch { entries: Vec::new() };
        assert(r@ =~= Map::<Seq<u8>, Option<Seq<u8>>>::empty());
        r
    }

    /// Where `key` stands among the entries, if the patch holds it.
    fn position(&self, key: &Vec<u8>) -> (r: Option<usize>)
        ensures
            r matches Some(i) ==> i < self.entries.len() && self.entries[i as int].0@ == key@,
            r is None ==> forall|j: int| 0 <= j < self.entries.len() ==> self.entries[j].0@ != key@,
    {
        let mut i: usize = 0;
        while i < self.entries.len()
            invariant
                i <= self.entries.len(),
                forall|j: int| 0 <= j < i ==> self.entries[j].0@ != key@,
            decreases self.entries.len() - i,
        {
            let order = compare_keys(self.entries[i].0.as_slice(), key.as_slice());
            if matches!(order, core::cmp::Ordering::Equal) {
                return Some(i);
            }
            i = i + 1;
        }
        None
    }

    /// Records `change` for `key`; a change already held for that key is
    /// replaced.
    pub fn insert(&mut self, key: Vec<u8>, change: Change)
        requires
            old(self).wf(),
        ensures
            final(self).wf(),
            final(self)@ == old(self)@.insert(key@, change.outcome()),
    {
        proof { self.lemma_view(); }
        let ghost k = key@;
        let ghost out = change.outcome();
        let ghost before = self@;
        let ghost old_entries = self.entries@;
        let ghost mut at: int = 0;
        match self.position(&key) {
            Some(i) => {
                self.entries.set(i, (key, change));
                proof { at = i as int; }
                assert forall|j: int| 0 <= j < self.entries.len() implies #[trigger] self.entries[j].0@
                    == old_entries[j].0@ by {}
            },
            None => {
                self.entries.push((key, change));
                proof { at = old_entries.len() as int; }
            },
        }
        proof {
            assert(self.wf()) by {
                assert forall|a: int, b: int|
                    0 <= a < b < self.entry_seq().len() implies #[trigger] self.entry_seq()[a].0@
                        != #[trigger] self.entry_seq()[b].0@ by {
                    if b < old_entries.len() {
                        assert(old_entries[a].0@ != old_entries[b].0@);
                    }
                }
            }
            self.lemma_view();
            assert(self@.contains_key(self.entry_seq()[at].0@));
            assert forall|x: Seq<u8>|
                #[trigger] self@.contains_key(x) == before.insert(k, out).contains_key(x) by {
                if before.contains_key(x) && x != k {
                    let j = choose|j: int| 0 <= j < old_entries.len() && old_entries[j].0@ == x;
                    assert(self.entries[j].0@ == x);
                }
                if self@.contains_key(x) && x != k {
                    let j = choose|j: int| 0 <= j < self.entries.len() && self.entries[j].0@ == x;
                    assert(old_entries[j].0@ == x);
                }
            }
            assert forall|x: Seq<u8>| #[trigger] self@.contains_key(x) implies self@[x] == before.insert(
                k,
                out,
            )[x] by {
                let j = choose|j: int| 0 <= j < self.entries.len() && self.entries[j].0@ == x;
                if x != k {
                    assert(old_entries[j] == self.entries[j]);
                }
            }
            assert(self@ =~= before.insert(k, out));
        }
    }

    /// Hands out the changes, in the order they were first inserted.
    pub fn into_entries(self) -> (r: Vec<(Vec<u8>, Change)>)
        ensures
            r@ == self.entry_seq(),
    {
        self.entries
    }
}

/// A forward cursor over entries in ascending key order.
pub trait Cursor {
    /// The entries that `next` has still to hand out, in order.
    spec fn remaining(&self) -> Seq<(Seq<u8>, Seq<u8>)>;

    /// Returns the current entry and moves past it; `None` once exhausted,
    /// and from then on.
    fn next(&mut self) -> (r: Option<(Vec<u8>, Vec<u8>)>)
        ensures
            entry_of(r) == first_of(old(self).remaining()),
            old(self).remaining().len() > 0 ==> final(self).remaining() == old(
                self,
            ).remaining().drop_first(),
            old(self).remaining().len() == 0 ==> final(self).remaining().len() == 0,
    ;

    /// Returns the current entry without moving.
    fn peek(&mut self) -> (r: Option<(Vec<u8>, Vec<u8>)>)
        ensures
            final(self).remaining() == old(self).remaining(),
            entry_of(r) == first_of(old(self).remaining()),
    ;
}

/// An immutable read view of stored entries.
pub trait Snapshot {
    type Iter: Cursor;

    /// Each stored key with its value.
    spec fn contents(&self) -> Map<Seq<u8>, Seq<u8>>;

    /// The view's internal invariant.
    spec fn wf(&self) -> bool;

    /// The value stored under `key`, if any.
    fn get(&self, key: &[u8]) -> (r: Option<Vec<u8>>)
        requires
            self.wf(),
        ensures
            bytes_of(r) == self.contents().get(key@),
    ;

    /// Whether a value is stored under `key`.
    fn contains(&self, key: &[u8]) -> (r: bool)
        requires
            self.wf(),
        ensures
            r == self.contents().contains_key(key@),
    ;

    /// A cursor over the entries whose key is at least `from`, in ascending
    /// key order; `from` need not be stored.
    fn iter(&self, from: &[u8]) -> (r: Self::Iter)
        requires
            self.wf(),
        ensures
            ordered_listing(r.remaining(), self.contents(), from@),
    ;
}

/// The mutable store: it hands out snapshots and applies patches.
pub trait Database: Snapshot + Sized {
    type Snap: Snapshot;

    /// An independent database with the same contents.
    fn clone(&self) -> (r: Self)
        requires
            self.wf(),
        ensures
            r.wf(),
            r.contents() == self.contents(),
    ;

    /// A read view of the current contents, unaffected by later merges.
    fn snapshot(&self) -> (r: Self::Snap)
        requires
            self.wf(),
        ensures
            r.wf(),
            r.contents() == self.contents(),
    ;

    /// Applies every change of `patch` at once: a put stores its value, a
    /// delete removes its key if present. On failure nothing changes.
    fn merge(&mut self, patch: Patch) -> (r: Result<(), Error>)
        requires
            old(self).wf(),
            patch.wf(),
        ensures
            final(self).wf(),
            r is Ok ==> final(self).contents() == apply_patch(old(self).contents(), patch@),
            r is Err ==> final(self).contents() == old(self).contents(),
    ;
}


/// A failure of the storage backend (I/O, corruption, exhausted capacity).
pub struct Error {
    message: String,
}

impl Error {
    /// The message the error was made with.
    pub closed spec fn message(&self) -> Seq<char> {
        self.message@
    }

    /// An error that reports `message`.
    pub fn new(message: String) -> (r: Error)
        ensures
            r.message() == message@,
    {
        Error { message }
    }

    /// The text of the error.
    pub fn description(&self) -> (r: &str)
        ensures
            r@ == self.message(),
    {
        self.message.as_str()
    }
}

} // verus!
