//! The low-level key/value store abstraction: an abstract map of byte keys to
//! byte values, an in-memory implementation, and a write-buffering wrapper
//! whose pending writes can be applied or discarded as one unit.

use vstd::prelude::*;

verus! {

broadcast use crate::lemma_bytes_deep_view;

/// Read access to a store. `contents` is the store's abstract view: the map
/// of all present keys to their values.
pub trait Read {
    spec fn contents(&self) -> Map<Seq<u8>, Seq<u8>>;

    /// Looks a key up. Every store in this crate is an in-memory structure,
    /// so lookups always succeed; the `Result` is part of the store interface
    /// shape so that errors of a fallible backend can propagate unchanged.
    fn get(&self, key: &[u8]) -> (r: crate::Result<Option<Vec<u8>>>)
        ensures
            r is Ok,
            r matches Ok(v) ==> match v {
                Some(val) => self.contents().contains_key(key@) && self.contents()[key@] == val@,
                None => !self.contents().contains_key(key@),
            },
    ;
}

/// Write access to a store. Requires `Read` so the effect of a write can be
/// stated over the same abstract contents that reads observe.
pub trait Write: Read {
    fn put(&mut self, key: Vec<u8>, value: Vec<u8>) -> (r: crate::Result<()>)
        ensures
            r is Ok,
            final(self).contents() == old(self).contents().insert(key@, value@),
    ;

    fn delete(&mut self, key: &[u8]) -> (r: crate::Result<()>)
        ensures
            r is Ok,
            final(self).contents() == old(self).contents().remove(key@),
    ;
}

/// A store is anything readable and writable.
pub trait Store: Read + Write {

}

impl<S: Read + Write> Store for S {

}

/// A batch of buffered changes that can be written into a destination store.
pub trait Flush {
    /// The changes this value holds, as a map from key to `Some(value)` for a
    /// pending write or `None` for a pending deletion.
    spec fn changes(&self) -> Map<Seq<u8>, Option<Seq<u8>>>;

    /// Applies every buffered change to `dest`, consuming the batch.
    fn flush<S: Store>(self, dest: &mut S) -> (r: crate::Result<()>)
        ensures
            r is Ok,
            final(dest).contents() == apply_changes(old(dest).contents(), self.changes()),
    ;
}

/// A base map overlaid with a batch of changes: a pending write shadows the
/// base, a pending deletion removes the key, untouched keys keep their value.
pub open spec fn apply_changes(
    base: Map<Seq<u8>, Seq<u8>>,
    changes: Map<Seq<u8>, Option<Seq<u8>>>,
) -> Map<Seq<u8>, Seq<u8>> {
    Map::new(
        |k: Seq<u8>|
            if changes.contains_key(k) {
                changes[k] is Some
            } else {
                base.contains_key(k)
            },
        |k: Seq<u8>|
            if changes.contains_key(k) {
                changes[k]->0
            } else {
                base[k]
            },
    )
}

/// The map an association list denotes; a later entry shadows an earlier one
/// with the same key.
pub open spec fn assoc_map<V: DeepView>(s: Seq<(Vec<u8>, V)>) -> Map<Seq<u8>, V::V>
    decreases s.len(),
{
    if s.len() == 0 {
        Map::empty()
    } else {
        assoc_map(s.drop_last()).insert(s.last().0@, s.last().1.deep_view())
    }
}

/// No entry of `s` carries the key `k`.
pub open spec fn assoc_absent<V>(s: Seq<(Vec<u8>, V)>, k: Seq<u8>) -> bool {
    forall|i: int| 0 <= i < s.len() ==> s[i].0@ != k
}

pub proof fn lemma_assoc_absent<V: DeepView>(s: Seq<(Vec<u8>, V)>, k: Seq<u8>)
    requires
        assoc_absent(s, k),
    ensures
        !assoc_map(s).contains_key(k),
    decreases s.len(),
{
    if s.len() > 0 {
        assert(s.last().0@ != k);
        lemma_assoc_absent(s.drop_last(), k);
    }
}

/// The value of the denoted map at a key is the value of the last entry that
/// carries it.
pub proof fn lemma_assoc_last_match<V: DeepView>(s: Seq<(Vec<u8>, V)>, i: int)
    requires
        0 <= i < s.len(),
        forall|j: int| i < j < s.len() ==> s[j].0@ != s[i].0@,
    ensures
        assoc_map(s).contains_key(s[i].0@),
        assoc_map(s)[s[i].0@] == s[i].1.deep_view(),
    decreases s.len(),
{
    if i + 1 == s.len() {
    } else {
        assert(s.drop_last()[i] == s[i]);
        lemma_assoc_last_match(s.drop_last(), i);
        assert(s.last() == s[s.len() - 1]);
        assert(s.last().0@ != s[i].0@);
    }
}

/// Copies a byte string into an owned vector.
pub fn clone_bytes(v: &[u8]) -> (r: Vec<u8>)
    ensures
        r@ == v@,
{
    let mut out: Vec<u8> = Vec::new();
    let mut i: usize = 0;
    while i < v.len()
        invariant
            i <= v@.len(),
            out@ == v@.subrange(0, i as int),
        decreases v@.len() - i,
    {
        out.push(v[i]);
        i += 1;
        assert(out@ =~= v@.subrange(0, i as int));
    }
    assert(out@ =~= v@);
    out
}

/// Compares two byte strings, byte for byte.
pub fn bytes_eq(a: &[u8], b: &[u8]) -> (r: bool)
    ensures
        r == (a@ == b@),
{
    if a.len() != b.len() {
        assert(a@.len() != b@.len());
        return false;
    }
    let mut i: usize = 0;
    while i < a.len()
        invariant
            i <= a@.len(),
            a@.len() == b@.len(),
            forall|j: int| 0 <= j < i ==> a@[j] == b@[j],
        decreases a@.len() - i,
    {
        if a[i] != b[i] {
            return false;
        }
        i += 1;
    }
    proof {
        assert(a@ =~= b@);
    }
    true
}

/// An in-memory store: an association list of entries in which a later entry
/// for a key shadows an earlier one, viewed as the map it denotes.
pub struct MapStore {
    entries: Vec<(Vec<u8>, Vec<u8>)>,
}

impl MapStore {
    /// Creates an empty store.
    pub fn new() -> (r: MapStore)
        ensures
            r.contents() == Map::<Seq<u8>, Seq<u8>>::empty(),
    {
        let s = MapStore { entries: Vec::new() };
        proof {
            assert(s.contents() =~= Map::<Seq<u8>, Seq<u8>>::empty());
        }
        s
    }

}

/// The position of the last entry of an association list carrying `key`.
pub fn find_last<V>(entries: &Vec<(Vec<u8>, V)>, key: &[u8]) -> (r: Option<usize>)
    ensures
        match r {
            Some(i) => {
                &&& i < entries@.len()
                &&& entries@[i as int].0@ == key@
                &&& forall|j: int| i < j < entries@.len() ==> entries@[j].0@ != key@
            },
            None => assoc_absent(entries@, key@),
        },
{
    let mut i: usize = entries.len();
    while i > 0
        invariant
            i <= entries@.len(),
            forall|j: int| i <= j < entries@.len() ==> entries@[j].0@ != key@,
        decreases i,
    {
        i -= 1;
        if bytes_eq(entries[i].0.as_slice(), key) {
            return Some(i);
        }
    }
    None
}

impl Read for MapStore {
    closed spec fn contents(&self) -> Map<Seq<u8>, Seq<u8>> {
        assoc_map(self.entries@)
    }

    fn get(&self, key: &[u8]) -> (r: crate::Result<Option<Vec<u8>>>) {
        match find_last(&self.entries, key) {
            Some(i) => {
                proof {
                    lemma_assoc_last_match(self.entries@, i as int);
                }
                Ok(Some(clone_bytes(self.entries[i].1.as_slice())))
            },
            None => {
                proof {
                    lemma_assoc_absent(self.entries@, key@);
                }
                Ok(None)
            },
        }
    }
}

impl Write for MapStore {
    fn put(&mut self, key: Vec<u8>, value: Vec<u8>) -> (r: crate::Result<()>) {
        let ghost s0 = self.entries@;
        let ghost k = key@;
        let ghost v = value@;
        self.entries.push((key, value));
        proof {
            assert(self.entries@.drop_last() =~= s0);
            assert(self.contents() =~= assoc_map(s0).insert(k, v));
        }
        Ok(())
    }

    fn delete(&mut self, key: &[u8]) -> (r: crate::Result<()>) {
        let ghost s0 = self.entries@;
        let mut kept: Vec<(Vec<u8>, Vec<u8>)> = Vec::new();
        let mut i: usize = 0;
        while i < self.entries.len()
            invariant
                i <= self.entries@.len(),
                self.entries@ == s0,
                assoc_map(kept@) == assoc_map(s0.subrange(0, i as int)).remove(key@),
                assoc_absent(kept@, key@),
            decreases self.entries@.len() - i,
        {
            let ghost kept0 = kept@;
            let entry_key = clone_bytes(self.entries[i].0.as_slice());
            let entry_val = clone_bytes(self.entries[i].1.as_slice());
            let is_match = bytes_eq(entry_key.as_slice(), key);
            if !is_match {
                kept.push((entry_key, entry_val));
            }
            i += 1;
            proof {
                let pre = s0.subrange(0, i - 1);
                let post = s0.subrange(0, i as int);
                assert(post =~= pre.push(s0[i - 1]));
                assert(post.drop_last() =~= pre);
                if is_match {
                    assert(assoc_map(post).remove(key@) =~= assoc_map(pre).remove(key@));
                } else {
                    assert(kept@.drop_last() =~= kept0);
                    assert(assoc_map(kept@) =~= assoc_map(post).remove(key@));
                }
            }
        }
        proof {
            assert(s0.subrange(0, s0.len() as int) =~= s0);
        }
        self.entries = kept;
        Ok(())
    }
}

/// A recorded batch of writes and deletions, ready to be flushed into a
/// destination store as one unit.
pub struct ChangeSet {
    log: Vec<(Vec<u8>, Option<Vec<u8>>)>,
}

impl ChangeSet {
    /// Creates an empty batch.
    pub fn new() -> (r: ChangeSet)
        ensures
            r.changes() == Map::<Seq<u8>, Option<Seq<u8>>>::empty(),
    {
        let c = ChangeSet { log: Vec::new() };
        proof {
            assert(c.changes() =~= Map::<Seq<u8>, Option<Seq<u8>>>::empty());
        }
        c
    }

    /// Records a pending write.
    pub fn record_put(&mut self, key: Vec<u8>, value: Vec<u8>)
        ensures
            final(self).changes() == old(self).changes().insert(key@, Some(value@)),
    {
        let ghost s0 = self.log@;
        let ghost k = key@;
        let ghost v = value@;
        self.log.push((key, Some(value)));
        proof {
            assert(self.log@.drop_last() =~= s0);
            assert(self.changes() =~= assoc_map(s0).insert(k, Some(v)));
        }
    }

    /// Records a pending deletion.
    pub fn record_delete(&mut self, key: Vec<u8>)
        ensures
            final(self).changes() == old(self).changes().insert(key@, None),
    {
        let ghost s0 = self.log@;
        let ghost k = key@;
        self.log.push((key, None));
        proof {
            assert(self.log@.drop_last() =~= s0);
            assert(self.changes() =~= assoc_map(s0).insert(k, None));
        }
    }

    /// The most recently recorded change for `key`, if any.
    pub fn lookup(&self, key: &[u8]) -> (r: Option<Option<Vec<u8>>>)
        ensures
            match r {
                Some(c) => self.changes().contains_key(key@) && self.changes()[key@]
                    == c.deep_view(),
                None => !self.changes().contains_key(key@),
            },
    {
        match find_last(&self.log, key) {
            Some(i) => {
                proof {
                    lemma_assoc_last_match(self.log@, i as int);
                }
                match &self.log[i].1 {
                    Some(v) => Some(Some(clone_bytes(v.as_slice()))),
                    None => Some(None),
                }
            },
            None => {
                proof {
                    lemma_assoc_absent(self.log@, key@);
                }
                None
            },
        }
    }
}

impl Flush for ChangeSet {
    closed spec fn changes(&self) -> Map<Seq<u8>, Option<Seq<u8>>> {
        assoc_map(self.log@)
    }

    fn flush<S: Store>(self, dest: &mut S) -> (r: crate::Result<()>) {
        let ghost base0 = old(dest).contents();
        let ghost log0 = self.log@;
        let mut log = self.log;
        let mut i: usize = 0;
        while i < log.len()
            invariant
                i <= log@.len(),
                log@ == log0,
                dest.contents() == apply_changes(base0, assoc_map(log0.subrange(0, i as int))),
            decreases log@.len() - i,
        {
            let ghost pre = log0.subrange(0, i as int);
            let key = clone_bytes(log[i].0.as_slice());
            match &log[i].1 {
                Some(v) => {
                    let value = clone_bytes(v.as_slice());
                    let _ = dest.put(key, value);
                },
                None => {
                    let _ = dest.delete(key.as_slice());
                },
            }
            i += 1;
            proof {
                let post = log0.subrange(0, i as int);
                assert(post =~= pre.push(log0[i - 1]));
                assert(post.drop_last() =~= pre);
                assert(dest.contents() =~= apply_changes(base0, assoc_map(post)));
            }
        }
        proof {
            assert(log0.subrange(0, log0.len() as int) =~= log0);
        }
        Ok(())
    }
}

/// A write-buffering store: reads see the buffered changes overlaid on the
/// wrapped store, while the wrapped store itself stays untouched until the
/// buffer is either committed or discarded as one unit.
pub struct BufStore<S> {
    inner: S,
    buf: ChangeSet,
}

impl<S: Store> BufStore<S> {
    /// The contents of the wrapped store, untouched by buffered changes.
    pub closed spec fn base(&self) -> Map<Seq<u8>, Seq<u8>> {
        self.inner.contents()
    }

    /// The buffered, not yet applied changes.
    pub closed spec fn buffered(&self) -> Map<Seq<u8>, Option<Seq<u8>>> {
        self.buf.changes()
    }

    /// Wraps a store with an empty buffer.
    pub fn wrap(inner: S) -> (r: BufStore<S>)
        ensures
            r.base() == inner.contents(),
            r.buffered() == Map::<Seq<u8>, Option<Seq<u8>>>::empty(),
            r.contents() == inner.contents(),
    {
        let b = BufStore { inner, buf: ChangeSet::new() };
        proof {
            assert(b.contents() =~= b.inner.contents());
        }
        b
    }

    /// Discards the buffered changes and returns the untouched store.
    pub fn into_inner(self) -> (r: S)
        ensures
            r.contents() == self.base(),
    {
        self.inner
    }

    /// Applies the buffered changes to the wrapped store and returns it.
    pub fn commit(self) -> (r: S)
        ensures
            r.contents() == apply_changes(self.base(), self.buffered()),
    {
        let BufStore { mut inner, buf } = self;
        let _ = buf.flush(&mut inner);
        inner
    }
}

impl<S: Store> Read for BufStore<S> {
    closed spec fn contents(&self) -> Map<Seq<u8>, Seq<u8>> {
        apply_changes(self.inner.contents(), self.buf.changes())
    }

    fn get(&self, key: &[u8]) -> (r: crate::Result<Option<Vec<u8>>>) {
        match self.buf.lookup(key) {
            Some(c) => Ok(c),
            None => self.inner.get(key),
        }
    }
}

impl<S: Store> Write for BufStore<S> {
    fn put(&mut self, key: Vec<u8>, value: Vec<u8>) -> (r: crate::Result<()>)
        ensures
            final(self).base() == old(self).base(),
            final(self).buffered() == old(self).buffered().insert(key@, Some(value@)),
    {
        let ghost k = key@;
        let ghost v = value@;
        let ghost base0 = self.inner.contents();
        let ghost ch0 = self.buf.changes();
        self.buf.record_put(key, value);
        proof {
            assert(apply_changes(base0, ch0.insert(k, Some(v))) =~= apply_changes(
                base0,
                ch0,
            ).insert(k, v));
        }
        Ok(())
    }

    fn delete(&mut self, key: &[u8]) -> (r: crate::Result<()>)
        ensures
            final(self).base() == old(self).base(),
            final(self).buffered() == old(self).buffered().insert(key@, None),
    {
        let ghost k = key@;
        let ghost base0 = self.inner.contents();
        let ghost ch0 = self.buf.changes();
        let owned = clone_bytes(key);
        self.buf.record_delete(owned);
        proof {
            assert(apply_changes(base0, ch0.insert(k, None)) =~= apply_changes(
                base0,
                ch0,
            ).remove(k));
        }
        Ok(())
    }
}

} // verus!

