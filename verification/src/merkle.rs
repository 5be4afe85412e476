//! The verifiable-read store: a committed key/value snapshot with a
//! cryptographic root, a prover that emits evidence for a chosen key set, and
//! a read-tracking wrapper that records every key a query evaluation touches
//! so the evidence covers exactly what was read. A proof asserts presence or
//! absence for exactly the keys it was built for: a key outside that set
//! fails verification.

use vstd::prelude::*;

use crate::codec::{
    append_bytes, bytes_enc, decode_bytes, decode_u32, encode_bytes, encode_u32,
    lemma_u32_round_trip, u32_bytes, u32_of,
};
use crate::store::{apply_changes, assoc_absent, assoc_map, bytes_eq, clone_bytes, find_last, Read};

verus! {

broadcast use crate::lemma_bytes_deep_view;

/// The 32-byte digest of a byte string. Relies on `sha2::Sha256`: the digest
/// is a function of the input bytes alone.
pub uninterp spec fn digest_of(bytes: Seq<u8>) -> Seq<u8>;

/// Relies on `sha2::Sha256` (`Digest::update` / `Digest::finalize`): hashes
/// the whole input, producing its 32-byte digest.
#[verifier::external_body]
fn sha256(bytes: &Vec<u8>) -> (r: Vec<u8>)
    ensures
        r@ == digest_of(bytes@),
        r@.len() == 32,
{
    let mut hasher: sha2::Sha256 = sha2::digest::Digest::new();
    sha2::digest::Digest::update(&mut hasher, bytes.as_slice());
    sha2::digest::Digest::finalize(hasher).to_vec()
}

/// Every key in the list fits one length-prefixed segment.
pub open spec fn keyset_wf(keys: Seq<Seq<u8>>) -> bool {
    &&& keys.len() <= u32::MAX
    &&& forall|i: int| 0 <= i < keys.len() ==> (#[trigger] keys[i]).len() <= u32::MAX
}

/// Every key and value in the snapshot fits one length-prefixed segment.
pub open spec fn snapshot_wf(entries: Seq<(Seq<u8>, Seq<u8>)>) -> bool {
    forall|i: int|
        0 <= i < entries.len() ==> (#[trigger] entries[i]).0.len() <= u32::MAX && entries[i].1.len()
            <= u32::MAX
}

/// The wire form of a key list: one length-prefixed segment per key.
pub open spec fn keyset_enc(keys: Seq<Seq<u8>>) -> Seq<u8>
    decreases keys,
{
    if keys.len() == 0 {
        Seq::empty()
    } else {
        bytes_enc(keys[0]) + keyset_enc(keys.skip(1))
    }
}

/// The wire form of a committed snapshot: a length-prefixed key and value per
/// entry, in committed order.
pub open spec fn snapshot_enc(entries: Seq<(Seq<u8>, Seq<u8>)>) -> Seq<u8>
    decreases entries,
{
    if entries.len() == 0 {
        Seq::empty()
    } else {
        bytes_enc(entries[0].0) + bytes_enc(entries[0].1) + snapshot_enc(entries.skip(1))
    }
}

/// The wire form of a proof: the number of covered keys, the covered keys,
/// then the snapshot the root commits to.
pub open spec fn proof_enc(keys: Seq<Seq<u8>>, entries: Seq<(Seq<u8>, Seq<u8>)>) -> Seq<u8> {
    u32_bytes(keys.len() as u32) + keyset_enc(keys) + snapshot_enc(entries)
}

/// The value the snapshot holds for a key, if any.
pub open spec fn snapshot_get(entries: Seq<(Seq<u8>, Seq<u8>)>, k: Seq<u8>) -> Option<Seq<u8>>
    decreases entries,
{
    if entries.len() == 0 {
        None
    } else if entries[0].0 == k {
        Some(entries[0].1)
    } else {
        snapshot_get(entries.skip(1), k)
    }
}

/// The key list grows at the back by the last key's segment.
pub proof fn lemma_keyset_enc_back(keys: Seq<Seq<u8>>)
    requires
        keys.len() > 0,
    ensures
        keyset_enc(keys) == keyset_enc(keys.drop_last()) + bytes_enc(keys.last()),
    decreases keys,
{
    if keys.len() == 1 {
        assert(keys.drop_last() =~= Seq::<Seq<u8>>::empty());
        assert(keys.skip(1) =~= Seq::<Seq<u8>>::empty());
        assert(keyset_enc(keys) =~= keyset_enc(keys.drop_last()) + bytes_enc(keys.last()));
    } else {
        lemma_keyset_enc_back(keys.skip(1));
        assert(keys.drop_last().skip(1) =~= keys.skip(1).drop_last());
        assert(keys.drop_last()[0] == keys[0]);
        assert(keys.skip(1).last() == keys.last());
        assert(keyset_enc(keys) =~= keyset_enc(keys.drop_last()) + bytes_enc(keys.last()));
    }
}

/// The snapshot grows at the back by the last entry's two segments.
pub proof fn lemma_snapshot_enc_back(entries: Seq<(Seq<u8>, Seq<u8>)>)
    requires
        entries.len() > 0,
    ensures
        snapshot_enc(entries) == snapshot_enc(entries.drop_last()) + bytes_enc(entries.last().0)
            + bytes_enc(entries.last().1),
    decreases entries,
{
    if entries.len() == 1 {
        assert(entries.drop_last() =~= Seq::<(Seq<u8>, Seq<u8>)>::empty());
        assert(entries.skip(1) =~= Seq::<(Seq<u8>, Seq<u8>)>::empty());
        assert(snapshot_enc(entries) =~= snapshot_enc(entries.drop_last()) + bytes_enc(
            entries.last().0,
        ) + bytes_enc(entries.last().1));
    } else {
        lemma_snapshot_enc_back(entries.skip(1));
        assert(entries.drop_last().skip(1) =~= entries.skip(1).drop_last());
        assert(entries.drop_last()[0] == entries[0]);
        assert(entries.skip(1).last() == entries.last());
        assert(snapshot_enc(entries) =~= snapshot_enc(entries.drop_last()) + bytes_enc(
            entries.last().0,
        ) + bytes_enc(entries.last().1));
    }
}

/// One buffered change fits the wire segments of the snapshot encoding.
pub open spec fn change_wf(c: (Vec<u8>, Option<Vec<u8>>)) -> bool {
    c.0@.len() <= u32::MAX && (match c.1 {
        Some(v) => v@.len() <= u32::MAX,
        None => true,
    })
}

/// Every buffered change fits the wire segments of the snapshot encoding.
pub open spec fn changes_wf(pending: Seq<(Vec<u8>, Option<Vec<u8>>)>) -> bool {
    forall|i: int| 0 <= i < pending.len() ==> change_wf(#[trigger] pending[i])
}

/// The snapshot model of a committed entry list.
pub open spec fn pairs_model(s: Seq<(Vec<u8>, Vec<u8>)>) -> Seq<(Seq<u8>, Seq<u8>)> {
    s.map_values(|e: (Vec<u8>, Vec<u8>)| (e.0@, e.1@))
}

/// A store whose committed contents carry a cryptographic root and can be
/// proven against it: the in-scope stand-in for an external Merkle engine,
/// committing to the whole snapshot by digest. Writes buffer until `commit`.
pub struct MerkleStore {
    entries: Vec<(Vec<u8>, Vec<u8>)>,
    pending: Vec<(Vec<u8>, Option<Vec<u8>>)>,
}

impl MerkleStore {
    /// The committed snapshot, in committed order.
    pub closed spec fn committed(&self) -> Seq<(Seq<u8>, Seq<u8>)> {
        pairs_model(self.entries@)
    }

    /// The buffered, not yet committed changes.
    pub closed spec fn buffered(&self) -> Map<Seq<u8>, Option<Seq<u8>>> {
        assoc_map(self.pending@)
    }

    /// Committed keys are distinct and every committed key and value fits one
    /// wire segment.
    pub closed spec fn wf(&self) -> bool {
        &&& forall|i: int, j: int|
            0 <= i < j < self.entries@.len() ==> (#[trigger] self.entries@[i]).0@ != (
            #[trigger] self.entries@[j]).0@
        &&& forall|i: int|
            0 <= i < self.entries@.len() ==> (#[trigger] self.entries@[i]).0@.len() <= u32::MAX
                && self.entries@[i].1@.len() <= u32::MAX
    }

    /// An empty, committed store.
    pub fn new() -> (r: MerkleStore)
        ensures
            r.wf(),
            r.committed() == Seq::<(Seq<u8>, Seq<u8>)>::empty(),
            r.buffered() == Map::<Seq<u8>, Option<Seq<u8>>>::empty(),
            r.pending_view() == Seq::<(Vec<u8>, Option<Vec<u8>>)>::empty(),
            r.contents() == Map::<Seq<u8>, Seq<u8>>::empty(),
    {
        let s = MerkleStore { entries: Vec::new(), pending: Vec::new() };
        proof {
            assert(s.committed() =~= Seq::<(Seq<u8>, Seq<u8>)>::empty());
            assert(s.buffered() =~= Map::<Seq<u8>, Option<Seq<u8>>>::empty());
            assert(s.contents() =~= Map::<Seq<u8>, Seq<u8>>::empty());
        }
        s
    }

    /// Removes a committed key, keeping the snapshot well-formed.
    fn committed_delete(&mut self, key: &[u8])
        requires
            old(self).wf(),
        ensures
            final(self).wf(),
            assoc_map(final(self).entries_view()) == assoc_map(old(self).entries_view()).remove(
                key@,
            ),
            assoc_absent(final(self).entries_view(), key@),
            final(self).pending@ == old(self).pending@,
            final(self).snapshot_sizes_ok(),
    {
        let ghost s0 = self.entries@;
        let mut drain: Vec<(Vec<u8>, Vec<u8>)> = Vec::new();
        core::mem::swap(&mut self.entries, &mut drain);
        let mut kept: Vec<(Vec<u8>, Vec<u8>)> = Vec::new();
        let mut i: usize = 0;
        while i < drain.len()
            invariant
                i <= drain@.len(),
                drain@ == s0,
                old(self).wf(),
                s0 == old(self).entries_view(),
                self.pending@ == old(self).pending_view(),
                assoc_map(kept@) == assoc_map(s0.subrange(0, i as int)).remove(key@),
                assoc_absent(kept@, key@),
                forall|a: int|
                    0 <= a < kept@.len() ==> exists|b: int|
                        0 <= b < i && (#[trigger] kept@[a]).0@ == s0[b].0@ && kept@[a].1@
                            == s0[b].1@,
                forall|a: int, b: int| 0 <= a < b < kept@.len() ==> kept@[a].0@ != kept@[b].0@,
            decreases drain@.len() - i,
        {
            let ghost kept0 = kept@;
            let is_match = bytes_eq(drain[i].0.as_slice(), key);
            if !is_match {
                let entry = (
                    clone_bytes(drain[i].0.as_slice()),
                    clone_bytes(drain[i].1.as_slice()),
                );
                proof {
                    assert forall|a: int|
                        0 <= a < kept0.len() implies kept0[a].0@ != s0[i as int].0@ by {
                        let b = choose|b: int|
                            0 <= b < i && kept0[a].0@ == s0[b].0@ && kept0[a].1@ == s0[b].1@;
                        assert(s0[b].0@ != s0[i as int].0@);
                    }
                }
                kept.push(entry);
            }
            i += 1;
            proof {
                let pre = s0.subrange(0, i - 1);
                let post = s0.subrange(0, i as int);
                assert(post =~= pre.push(s0[i - 1]));
                assert(post.drop_last() =~= pre);
                if is_match {
                    assert(assoc_map(post).remove(key@) =~= assoc_map(pre).remove(key@));
                } else {
                    assert(kept@.drop_last() =~= kept0);
                    assert(kept@.last().0@ == s0[i - 1].0@ && kept@.last().1@ == s0[i - 1].1@);
                    assert(assoc_map(kept@) =~= assoc_map(post).remove(key@));
                    assert forall|a: int|
                        0 <= a < kept@.len() implies exists|b: int|
                        0 <= b < i && (#[trigger] kept@[a]).0@ == s0[b].0@ && kept@[a].1@
                            == s0[b].1@ by {
                        if a < kept@.len() - 1 {
                            let b = choose|b: int|
                                0 <= b < i - 1 && kept0[a].0@ == s0[b].0@ && kept0[a].1@
                                    == s0[b].1@;
                            assert(kept@[a] == kept0[a]);
                        } else {
                            assert(kept@[a].0@ == s0[i - 1].0@ && kept@[a].1@ == s0[i - 1].1@);
                        }
                    }
                }
            }
        }
        proof {
            assert(s0.subrange(0, s0.len() as int) =~= s0);
        }
        self.entries = kept;
        proof {
            assert forall|a: int|
                0 <= a < self.entries@.len() implies (#[trigger] self.entries@[a]).0@.len()
                <= u32::MAX && self.entries@[a].1@.len() <= u32::MAX by {
                let b = choose|b: int|
                    0 <= b < s0.len() && self.entries@[a].0@ == s0[b].0@ && self.entries@[a].1@
                        == s0[b].1@;
            }
        }
    }

    /// The committed entry list, for stating internal invariants.
    pub closed spec fn entries_view(&self) -> Seq<(Vec<u8>, Vec<u8>)> {
        self.entries@
    }

    /// Every committed key and value fits one wire segment.
    pub closed spec fn snapshot_sizes_ok(&self) -> bool {
        forall|i: int|
            0 <= i < self.entries@.len() ==> (#[trigger] self.entries@[i]).0@.len() <= u32::MAX
                && self.entries@[i].1@.len() <= u32::MAX
    }

    /// Applies the buffered changes to the committed snapshot, emptying the
    /// buffer; the store's observable contents do not move. Rejected, with
    /// nothing changed, if a buffered key or value cannot fit one wire
    /// segment of the snapshot encoding.
    pub fn commit(&mut self) -> (r: crate::Result<()>)
        requires
            old(self).wf(),
        ensures
            final(self).wf(),
            r is Ok <==> changes_wf(old(self).pending_view()),
            r is Ok ==> {
                &&& assoc_map(final(self).entries_view()) == apply_changes(
                    assoc_map(old(self).entries_view()),
                    old(self).buffered(),
                )
                &&& final(self).buffered() == Map::<Seq<u8>, Option<Seq<u8>>>::empty()
                &&& final(self).pending_view() == Seq::<(Vec<u8>, Option<Vec<u8>>)>::empty()
                &&& final(self).contents() == old(self).contents()
            },
            r is Err ==> *final(self) == *old(self),
    {
        let ghost base0 = assoc_map(self.entries@);
        let ghost pend0 = self.pending@;
        let mut i: usize = 0;
        while i < self.pending.len()
            invariant
                i <= self.pending@.len(),
                old(self).wf(),
                *self == *old(self),
                self.pending@ == pend0,
                forall|j: int| 0 <= j < i ==> change_wf(#[trigger] pend0[j]),
            decreases self.pending@.len() - i,
        {
            if self.pending[i].0.len() > u32::MAX as usize {
                return Err(crate::Error::Store);
            }
            match &self.pending[i].1 {
                Some(v) => {
                    if v.len() > u32::MAX as usize {
                        return Err(crate::Error::Store);
                    }
                },
                None => {},
            }
            i += 1;
        }
        let mut work: Vec<(Vec<u8>, Option<Vec<u8>>)> = Vec::new();
        core::mem::swap(&mut self.pending, &mut work);
        let ghost contents0 = apply_changes(base0, assoc_map(pend0));
        let mut j: usize = 0;
        while j < work.len()
            invariant
                j <= work@.len(),
                work@ == pend0,
                changes_wf(pend0),
                self.wf(),
                self.pending@.len() == 0,
                assoc_map(self.entries_view()) == apply_changes(
                    base0,
                    assoc_map(pend0.subrange(0, j as int)),
                ),
            decreases work@.len() - j,
        {
            let ghost pre = pend0.subrange(0, j as int);
            let key = clone_bytes(work[j].0.as_slice());
            self.committed_delete(key.as_slice());
            match &work[j].1 {
                Some(v) => {
                    let value = clone_bytes(v.as_slice());
                    let ghost kept = self.entries@;
                    self.entries.push((key, value));
                    proof {
                        assert(self.entries@.drop_last() =~= kept);
                        assert(key@ == work@[j as int].0@);
                        assert(value@ == work@[j as int].1->0@);
                        assert(assoc_map(self.entries@) =~= assoc_map(kept).insert(
                            work@[j as int].0@,
                            work@[j as int].1->0@,
                        ));
                        assert forall|a: int, b: int|
                            0 <= a < b < self.entries@.len() implies (
                        #[trigger] self.entries@[a]).0@ != (#[trigger] self.entries@[b]).0@ by {
                            if b == self.entries@.len() - 1 {
                                assert(kept[a] == self.entries@[a]);
                                assert(assoc_absent(kept, work@[j as int].0@));
                            } else {
                                assert(kept[a] == self.entries@[a] && kept[b] == self.entries@[b]);
                            }
                        }
                    }
                },
                None => {},
            }
            j += 1;
            proof {
                let post = pend0.subrange(0, j as int);
                assert(post =~= pre.push(pend0[j - 1]));
                assert(post.drop_last() =~= pre);
                assert(assoc_map(self.entries_view()) =~= apply_changes(base0, assoc_map(post)));
            }
        }
        proof {
            assert(pend0.subrange(0, pend0.len() as int) =~= pend0);
            assert(self.buffered() =~= Map::<Seq<u8>, Option<Seq<u8>>>::empty());
            assert(self.contents() =~= apply_changes(base0, assoc_map(pend0)));
            assert(old(self).contents() == apply_changes(base0, assoc_map(pend0)));
        }
        Ok(())
    }

    /// The buffered change list, for stating the commit rule.
    pub closed spec fn pending_view(&self) -> Seq<(Vec<u8>, Option<Vec<u8>>)> {
        self.pending@
    }

    /// The committed snapshot's wire encoding.
    fn snapshot_bytes(&self) -> (r: Vec<u8>)
        requires
            self.wf(),
        ensures
            r@ == snapshot_enc(self.committed()),
    {
        let ghost es = self.committed();
        let mut out: Vec<u8> = Vec::new();
        let mut i: usize = 0;
        while i < self.entries.len()
            invariant
                i <= self.entries@.len(),
                self.wf(),
                es == self.committed(),
                es.len() == self.entries@.len(),
                forall|j: int|
                    0 <= j < es.len() ==> es[j] == ((#[trigger] self.entries@[j]).0@,
                    self.entries@[j].1@),
                out@ == snapshot_enc(es.subrange(0, i as int)),
            decreases self.entries@.len() - i,
        {
            let ghost pre = es.subrange(0, i as int);
            encode_bytes(&self.entries[i].0, &mut out);
            encode_bytes(&self.entries[i].1, &mut out);
            i += 1;
            proof {
                let post = es.subrange(0, i as int);
                assert(post.drop_last() =~= pre);
                assert(post.last() == es[i - 1]);
                lemma_snapshot_enc_back(post);
            }
        }
        proof {
            assert(es.subrange(0, es.len() as int) =~= es);
        }
        out
    }

    /// The root the committed snapshot stands for: the digest of its wire
    /// encoding.
    pub fn root_hash(&self) -> (r: Vec<u8>)
        requires
            self.wf(),
        ensures
            r@ == digest_of(snapshot_enc(self.committed())),
            r@.len() == 32,
    {
        let snap = self.snapshot_bytes();
        sha256(&snap)
    }

    /// Evidence for the given keys against the committed snapshot's root:
    /// the covered key set and the snapshot the root commits to. Fails, and
    /// only fails, where a key cannot fit one wire segment.
    pub fn prove(&self, keys: &Vec<Vec<u8>>) -> (r: crate::Result<Vec<u8>>)
        requires
            self.wf(),
        ensures
            r is Ok <==> keyset_wf(keys.deep_view()),
            r matches Ok(p) ==> p@ == proof_enc(keys.deep_view(), self.committed()),
    {
        let ghost ks = keys.deep_view();
        proof {
            assert(ks.len() == keys@.len());
            assert(forall|i: int| 0 <= i < keys@.len() ==> ks[i] == (#[trigger] keys@[i])@);
        }
        if keys.len() as u64 > u32::MAX as u64 {
            return Err(crate::Error::Proof);
        }
        let mut i: usize = 0;
        while i < keys.len()
            invariant
                i <= keys@.len(),
                ks == keys.deep_view(),
                ks.len() == keys@.len(),
                forall|j: int| 0 <= j < keys@.len() ==> ks[j] == (#[trigger] keys@[j])@,
                forall|j: int| 0 <= j < i ==> (#[trigger] ks[j]).len() <= u32::MAX,
            decreases keys@.len() - i,
        {
            if keys[i].len() > u32::MAX as usize {
                return Err(crate::Error::Proof);
            }
            i += 1;
        }
        let mut out: Vec<u8> = Vec::new();
        encode_u32(keys.len() as u32, &mut out);
        let mut k: usize = 0;
        while k < keys.len()
            invariant
                k <= keys@.len(),
                ks == keys.deep_view(),
                ks.len() == keys@.len(),
                keyset_wf(ks),
                forall|j: int| 0 <= j < keys@.len() ==> ks[j] == (#[trigger] keys@[j])@,
                out@ == u32_bytes(ks.len() as u32) + keyset_enc(ks.subrange(0, k as int)),
            decreases keys@.len() - k,
        {
            let ghost pre = ks.subrange(0, k as int);
            encode_bytes(&keys[k], &mut out);
            k += 1;
            proof {
                let post = ks.subrange(0, k as int);
                assert(post.drop_last() =~= pre);
                assert(post.last() == ks[k - 1]);
                lemma_keyset_enc_back(post);
            }
        }
        let snap = self.snapshot_bytes();
        append_bytes(&mut out, snap.as_slice());
        proof {
            assert(ks.subrange(0, ks.len() as int) =~= ks);
            assert(out@ =~= proof_enc(ks, self.committed()));
        }
        Ok(out)
    }
}

impl Read for MerkleStore {
    closed spec fn contents(&self) -> Map<Seq<u8>, Seq<u8>> {
        apply_changes(assoc_map(self.entries@), assoc_map(self.pending@))
    }

    fn get(&self, key: &[u8]) -> (r: crate::Result<Option<Vec<u8>>>) {
        match find_last(&self.pending, key) {
            Some(i) => {
                proof {
                    crate::store::lemma_assoc_last_match(self.pending@, i as int);
                }
                match &self.pending[i].1 {
                    Some(v) => Ok(Some(clone_bytes(v.as_slice()))),
                    None => Ok(None),
                }
            },
            None => {
                proof {
                    crate::store::lemma_assoc_absent(self.pending@, key@);
                }
                match find_last(&self.entries, key) {
                    Some(i) => {
                        proof {
                            crate::store::lemma_assoc_last_match(self.entries@, i as int);
                        }
                        Ok(Some(clone_bytes(self.entries[i].1.as_slice())))
                    },
                    None => {
                        proof {
                            crate::store::lemma_assoc_absent(self.entries@, key@);
                        }
                        Ok(None)
                    },
                }
            },
        }
    }
}

impl crate::store::Write for MerkleStore {
    fn put(&mut self, key: Vec<u8>, value: Vec<u8>) -> (r: crate::Result<()>)
        ensures
            final(self).wf() == old(self).wf(),
            final(self).committed() == old(self).committed(),
            final(self).entries_view() == old(self).entries_view(),
            final(self).pending_view() == old(self).pending_view().push((key, Some(value))),
    {
        let ghost p0 = self.pending@;
        let ghost k = key@;
        let ghost v = value@;
        self.pending.push((key, Some(value)));
        proof {
            assert(self.pending@.drop_last() =~= p0);
            assert(self.buffered() =~= assoc_map(p0).insert(k, Some(v)));
            assert(apply_changes(assoc_map(self.entries@), assoc_map(p0).insert(k, Some(v)))
                =~= apply_changes(assoc_map(self.entries@), assoc_map(p0)).insert(k, v));
        }
        Ok(())
    }

    fn delete(&mut self, key: &[u8]) -> (r: crate::Result<()>)
        ensures
            final(self).wf() == old(self).wf(),
            final(self).committed() == old(self).committed(),
            final(self).entries_view() == old(self).entries_view(),
            final(self).pending_view().len() == old(self).pending_view().len() + 1,
            final(self).pending_view().last().0@ == key@,
            final(self).pending_view().last().1 is None,
            forall|j: int|
                0 <= j < old(self).pending_view().len() ==> final(self).pending_view()[j] == old(
                    self,
                ).pending_view()[j],
    {
        let ghost p0 = self.pending@;
        let ghost k = key@;
        let owned = clone_bytes(key);
        self.pending.push((owned, None));
        proof {
            assert(self.pending@.drop_last() =~= p0);
            assert(self.buffered() =~= assoc_map(p0).insert(k, None));
            assert(apply_changes(assoc_map(self.entries@), assoc_map(p0).insert(k, None))
                =~= apply_changes(assoc_map(self.entries@), assoc_map(p0)).remove(k));
        }
        Ok(())
    }
}


/// A well-formed store's committed snapshot fits the wire segments: the
/// bridge from the store's invariant to what proof exactness asks of the
/// snapshot.
pub proof fn lemma_wf_snapshot(s: &MerkleStore)
    requires
        s.wf(),
    ensures
        snapshot_wf(s.committed()),
{
    assert forall|i: int|
        0 <= i < s.committed().len() implies (#[trigger] s.committed()[i]).0.len() <= u32::MAX
        && s.committed()[i].1.len() <= u32::MAX by {
        assert(s.committed()[i] == (s.entries_view()[i].0@, s.entries_view()[i].1@));
    }
}

/// Records reads against a committed store and builds a proof covering all
/// the keys read while it was alive — the exact read set, nothing more.
pub struct ProofBuilder<'a> {
    store: &'a MerkleStore,
    keys: Vec<Vec<u8>>,
}

impl<'a> ProofBuilder<'a> {
    /// The set of keys read so far.
    pub closed spec fn recorded(&self) -> Seq<Seq<u8>> {
        self.keys.deep_view()
    }

    /// The store reads go to.
    pub closed spec fn backing(&self) -> MerkleStore {
        *self.store
    }

    /// Wraps a committed store, with nothing recorded yet.
    pub fn new(store: &'a MerkleStore) -> (r: ProofBuilder<'a>)
        ensures
            r.backing() == *store,
            r.recorded() == Seq::<Seq<u8>>::empty(),
    {
        let b = ProofBuilder { store, keys: Vec::new() };
        proof {
            assert(b.recorded() =~= Seq::<Seq<u8>>::empty());
        }
        b
    }

    /// Reads a key from the wrapped store, recording it for the proof.
    pub fn get(&mut self, key: &[u8]) -> (r: crate::Result<Option<Vec<u8>>>)
        ensures
            final(self).backing() == old(self).backing(),
            final(self).recorded().contains(key@),
            old(self).recorded().contains(key@) ==> final(self).recorded() == old(
                self,
            ).recorded(),
            !old(self).recorded().contains(key@) ==> final(self).recorded() == old(
                self,
            ).recorded().push(key@),
            forall|k: Seq<u8>|
                #[trigger] final(self).recorded().contains(k) <==> (old(
                    self,
                ).recorded().contains(k) || k == key@),
            r is Ok,
            r matches Ok(v) ==> match v {
                Some(val) => old(self).backing().contents().contains_key(key@) && old(
                    self,
                ).backing().contents()[key@] == val@,
                None => !old(self).backing().contents().contains_key(key@),
            },
    {
        let ghost ks0 = self.keys.deep_view();
        let mut seen = false;
        let mut i: usize = 0;
        while i < self.keys.len() && !seen
            invariant
                i <= self.keys@.len(),
                ks0 == self.keys.deep_view(),
                ks0.len() == self.keys@.len(),
                forall|j: int| 0 <= j < ks0.len() ==> ks0[j] == (#[trigger] self.keys@[j])@,
                seen ==> ks0.contains(key@),
                !seen ==> forall|j: int| 0 <= j < i ==> ks0[j] != key@,
                *self == *old(self),
            decreases self.keys@.len() - i + if seen {
                0int
            } else {
                1int
            },
        {
            if bytes_eq(self.keys[i].as_slice(), key) {
                seen = true;
                proof {
                    assert(ks0[i as int] == key@);
                }
            } else {
                i += 1;
            }
        }
        if !seen {
            proof {
                assert(!ks0.contains(key@)) by {
                    if ks0.contains(key@) {
                        let j = choose|j: int| 0 <= j < ks0.len() && ks0[j] == key@;
                    }
                }
            }
            let owned = clone_bytes(key);
            self.keys.push(owned);
            proof {
                assert(self.keys.deep_view().len() == ks0.len() + 1);
                assert forall|j: int|
                    0 <= j < self.keys.deep_view().len() implies #[trigger] self.keys.deep_view()[j]
                    == (if j < ks0.len() {
                    ks0[j]
                } else {
                    key@
                }) by {
                    assert(self.keys.deep_view()[j] == (#[trigger] self.keys@[j])@);
                    if j < ks0.len() {
                        assert(self.keys@[j] == old(self).keys@[j]);
                    }
                }
                assert(self.keys.deep_view() =~= ks0.push(key@));
                assert forall|k: Seq<u8>|
                    #[trigger] self.recorded().contains(k) <==> (ks0.contains(k) || k
                        == key@) by {
                    if self.recorded().contains(k) {
                        let j = choose|j: int|
                            0 <= j < self.recorded().len() && self.recorded()[j] == k;
                        if j < ks0.len() {
                            assert(ks0[j] == k);
                        }
                    }
                    if ks0.contains(k) {
                        let j = choose|j: int| 0 <= j < ks0.len() && ks0[j] == k;
                        assert(self.recorded()[j] == k);
                    }
                    if k == key@ {
                        assert(self.recorded()[ks0.len() as int] == k);
                    }
                }
            }
        }
        self.store.get(key)
    }

    /// Builds the proof covering exactly the keys read so far, against the
    /// wrapped store's committed snapshot.
    pub fn build(self) -> (r: crate::Result<Vec<u8>>)
        requires
            self.backing().wf(),
        ensures
            r is Ok <==> keyset_wf(self.recorded()),
            r matches Ok(p) ==> p@ == proof_enc(self.recorded(), self.backing().committed()),
    {
        self.store.prove(&self.keys)
    }
}


/// What parsing the covered-key section of a proof yields: the keys and the
/// remaining bytes.
pub open spec fn parse_keyset(n: nat, b: Seq<u8>) -> Option<(Seq<Seq<u8>>, Seq<u8>)>
    decreases n,
{
    if n == 0 {
        Some((Seq::empty(), b))
    } else if b.len() < 4 {
        None
    } else {
        let klen = u32_of(b.subrange(0, 4)) as int;
        if 4 + klen > b.len() {
            None
        } else {
            let k = b.subrange(4, 4 + klen);
            match parse_keyset((n - 1) as nat, b.subrange(4 + klen, b.len() as int)) {
                None => None,
                Some((ks, rest)) => Some((seq![k] + ks, rest)),
            }
        }
    }
}

/// What parsing the snapshot section of a proof yields: the committed
/// entries, consuming the bytes exactly.
pub open spec fn parse_pairs(b: Seq<u8>) -> Option<Seq<(Seq<u8>, Seq<u8>)>>
    decreases b.len(),
{
    if b.len() == 0 {
        Some(Seq::empty())
    } else if b.len() < 4 {
        None
    } else {
        let klen = u32_of(b.subrange(0, 4)) as int;
        if 4 + klen + 4 > b.len() {
            None
        } else {
            let k = b.subrange(4, 4 + klen);
            let vstart = 4 + klen;
            let vlen = u32_of(b.subrange(vstart, vstart + 4)) as int;
            if vstart + 4 + vlen > b.len() {
                None
            } else {
                let v = b.subrange(vstart + 4, vstart + 4 + vlen);
                match parse_pairs(b.subrange(vstart + 4 + vlen, b.len() as int)) {
                    None => None,
                    Some(ps) => Some(seq![(k, v)] + ps),
                }
            }
        }
    }
}

/// What verifying a proof yields: the value or absence of each queried key,
/// exactly where the proof is well-formed, its snapshot matches the root, and
/// every queried key is covered. A key outside the covered set fails with a
/// proof error; malformed bytes fail with a decode error.
pub open spec fn spec_verify_proof(
    proof: Seq<u8>,
    queried: Seq<Seq<u8>>,
    root: Seq<u8>,
) -> core::result::Result<Seq<Option<Seq<u8>>>, crate::Error> {
    if proof.len() < 4 {
        Err(crate::Error::Decode)
    } else {
        let n = u32_of(proof.subrange(0, 4)) as nat;
        match parse_keyset(n, proof.subrange(4, proof.len() as int)) {
            None => Err(crate::Error::Decode),
            Some((pkeys, snap)) => match parse_pairs(snap) {
                None => Err(crate::Error::Decode),
                Some(pentries) => if digest_of(snap) != root {
                    Err(crate::Error::Proof)
                } else if !(forall|i: int|
                    0 <= i < queried.len() ==> pkeys.contains(#[trigger] queried[i])) {
                    Err(crate::Error::Proof)
                } else {
                    Ok(Seq::new(queried.len(), |i: int| snapshot_get(pentries, queried[i])))
                },
            },
        }
    }
}

/// Parsing a key list's own encoding gives the keys back, whatever follows.
pub proof fn lemma_parse_keyset_enc(keys: Seq<Seq<u8>>, tail: Seq<u8>)
    requires
        keyset_wf(keys),
    ensures
        parse_keyset(keys.len(), keyset_enc(keys) + tail) == Some((keys, tail)),
    decreases keys,
{
    let b = keyset_enc(keys) + tail;
    if keys.len() == 0 {
        assert(keyset_enc(keys) =~= Seq::<u8>::empty());
        assert(b =~= tail);
        assert(keys =~= Seq::<Seq<u8>>::empty());
    } else {
        let k0 = keys[0];
        assert(b =~= bytes_enc(k0) + (keyset_enc(keys.skip(1)) + tail));
        assert(b.subrange(0, 4) =~= u32_bytes(k0.len() as u32));
        lemma_u32_round_trip(k0.len() as u32);
        let klen = u32_of(b.subrange(0, 4)) as int;
        assert(klen == k0.len());
        assert(b.subrange(4, 4 + klen) =~= k0);
        assert(b.subrange(4 + klen, b.len() as int) =~= keyset_enc(keys.skip(1)) + tail);
        assert(keyset_wf(keys.skip(1))) by {
            assert(forall|i: int|
                0 <= i < keys.skip(1).len() ==> (#[trigger] keys.skip(1)[i]) == keys[i + 1]);
        }
        lemma_parse_keyset_enc(keys.skip(1), tail);
        assert(seq![k0] + keys.skip(1) =~= keys);
    }
}

/// Parsing a snapshot's own encoding gives the entries back.
pub proof fn lemma_parse_pairs_enc(entries: Seq<(Seq<u8>, Seq<u8>)>)
    requires
        snapshot_wf(entries),
    ensures
        parse_pairs(snapshot_enc(entries)) == Some(entries),
    decreases entries,
{
    let b = snapshot_enc(entries);
    if entries.len() == 0 {
        assert(b.len() == 0);
        assert(entries =~= Seq::<(Seq<u8>, Seq<u8>)>::empty());
    } else {
        let k0 = entries[0].0;
        let v0 = entries[0].1;
        assert(b =~= bytes_enc(k0) + (bytes_enc(v0) + snapshot_enc(entries.skip(1))));
        assert(b.subrange(0, 4) =~= u32_bytes(k0.len() as u32));
        lemma_u32_round_trip(k0.len() as u32);
        let klen = u32_of(b.subrange(0, 4)) as int;
        assert(klen == k0.len());
        assert(b.subrange(4, 4 + klen) =~= k0);
        let vstart = 4 + klen;
        assert(b.subrange(vstart, vstart + 4) =~= u32_bytes(v0.len() as u32));
        lemma_u32_round_trip(v0.len() as u32);
        let vlen = u32_of(b.subrange(vstart, vstart + 4)) as int;
        assert(vlen == v0.len());
        assert(b.subrange(vstart + 4, vstart + 4 + vlen) =~= v0);
        assert(b.subrange(vstart + 4 + vlen, b.len() as int) =~= snapshot_enc(entries.skip(1)));
        assert(snapshot_wf(entries.skip(1))) by {
            assert(forall|i: int|
                0 <= i < entries.skip(1).len() ==> (#[trigger] entries.skip(1)[i]) == entries[i
                    + 1]);
        }
        lemma_parse_pairs_enc(entries.skip(1));
        assert(seq![(k0, v0)] + entries.skip(1) =~= entries);
    }
}

/// Proof exactness: evidence built for the key set `keys` over a committed
/// snapshot verifies against the snapshot's root for a queried key list
/// exactly when every queried key is in `keys` — one key outside the covered
/// set and verification fails — and then reports each key's committed value
/// or absence.
pub proof fn lemma_proof_exact(
    keys: Seq<Seq<u8>>,
    entries: Seq<(Seq<u8>, Seq<u8>)>,
    queried: Seq<Seq<u8>>,
)
    requires
        keyset_wf(keys),
        snapshot_wf(entries),
    ensures
        spec_verify_proof(proof_enc(keys, entries), queried, digest_of(snapshot_enc(entries)))
            == if forall|i: int| 0 <= i < queried.len() ==> keys.contains(#[trigger] queried[i]) {
            Ok::<Seq<Option<Seq<u8>>>, crate::Error>(
                Seq::new(queried.len(), |i: int| snapshot_get(entries, queried[i])),
            )
        } else {
            Err(crate::Error::Proof)
        },
{
    let p = proof_enc(keys, entries);
    assert(p.subrange(0, 4) =~= u32_bytes(keys.len() as u32));
    lemma_u32_round_trip(keys.len() as u32);
    assert(u32_of(p.subrange(0, 4)) == keys.len());
    assert(p.subrange(4, p.len() as int) =~= keyset_enc(keys) + snapshot_enc(entries));
    lemma_parse_keyset_enc(keys, snapshot_enc(entries));
    lemma_parse_pairs_enc(entries);
}


/// Reads the covered-key section of a proof.
#[verifier::rlimit(100)]
#[verifier::spinoff_prover]
fn parse_keyset_exec(n: u32, proof: &Vec<u8>, pos: usize) -> (r: crate::Result<
    (Vec<Vec<u8>>, usize),
>)
    requires
        pos <= proof@.len(),
    ensures
        match parse_keyset(n as nat, proof@.subrange(pos as int, proof@.len() as int)) {
            Some(parts) => r matches Ok(p) && p.0.deep_view() == parts.0 && pos <= p.1
                <= proof@.len() && proof@.subrange(p.1 as int, proof@.len() as int) == parts.1
                && p.0.deep_view().len() == n && keyset_wf(p.0.deep_view()),
            None => r == Err::<(Vec<Vec<u8>>, usize), crate::Error>(crate::Error::Decode),
        },
    decreases n,
{
    let ghost tail = proof@.subrange(pos as int, proof@.len() as int);
    if n == 0 {
        let empty: Vec<Vec<u8>> = Vec::new();
        proof {
            assert(empty.deep_view() =~= Seq::<Seq<u8>>::empty());
        }
        Ok((empty, pos))
    } else {
        let (key, npos) = match decode_bytes(proof, pos) {
            Ok(p) => p,
            Err(_) => {
                proof {
                    if tail.len() >= 4 {
                        assert(tail.subrange(0, 4) =~= proof@.subrange(pos as int, pos + 4));
                        assert(4 + u32_of(tail.subrange(0, 4)) > tail.len());
                    }
                }
                return Err(crate::Error::Decode);
            },
        };
        let ghost klen = u32_of(tail.subrange(0, 4)) as int;
        proof {
            assert(tail.subrange(0, 4) =~= proof@.subrange(pos as int, pos + 4));
            assert(klen == key@.len());
            assert(tail.subrange(4, 4 + klen) =~= proof@.subrange(pos + 4, npos as int));
            assert(tail.subrange(4, 4 + klen) == key@);
            assert(tail.subrange(4 + klen, tail.len() as int) =~= proof@.subrange(
                npos as int,
                proof@.len() as int,
            ));
        }
        let (mut rest, end) = match parse_keyset_exec(n - 1, proof, npos) {
            Ok(p) => p,
            Err(e) => {
                return Err(e);
            },
        };
        let ghost rest_keys = rest.deep_view();
        let ghost pre = rest@;
        rest.insert(0, key);
        proof {
            assert forall|j: int|
                0 <= j < rest.deep_view().len() implies #[trigger] rest.deep_view()[j] == (seq![
                key@,
            ] + rest_keys)[j] by {
                assert(rest.deep_view()[j] == (#[trigger] rest@[j])@);
                if j > 0 {
                    assert(rest@[j] == pre[j - 1]);
                    assert(rest_keys[j - 1] == pre[j - 1]@);
                }
            }
            assert(rest.deep_view() =~= seq![key@] + rest_keys);
        }
        Ok((rest, end))
    }
}

/// Reads the snapshot section of a proof, consuming it exactly.
#[verifier::rlimit(100)]
#[verifier::spinoff_prover]
fn parse_pairs_exec(proof: &Vec<u8>, pos: usize) -> (r: crate::Result<Vec<(Vec<u8>, Vec<u8>)>>)
    requires
        pos <= proof@.len(),
    ensures
        match parse_pairs(proof@.subrange(pos as int, proof@.len() as int)) {
            Some(ps) => r matches Ok(v) && v.deep_view() == ps && snapshot_wf(v.deep_view()),
            None => r == Err::<Vec<(Vec<u8>, Vec<u8>)>, crate::Error>(crate::Error::Decode),
        },
    decreases proof@.len() - pos,
{
    let ghost tail = proof@.subrange(pos as int, proof@.len() as int);
    if pos == proof.len() {
        let empty: Vec<(Vec<u8>, Vec<u8>)> = Vec::new();
        proof {
            assert(empty.deep_view() =~= Seq::<(Seq<u8>, Seq<u8>)>::empty());
        }
        return Ok(empty);
    }
    let (key, kend) = match decode_bytes(proof, pos) {
        Ok(p) => p,
        Err(_) => {
            proof {
                if tail.len() >= 4 {
                    assert(tail.subrange(0, 4) =~= proof@.subrange(pos as int, pos + 4));
                    assert(4 + u32_of(tail.subrange(0, 4)) > tail.len());
                }
            }
            return Err(crate::Error::Decode);
        },
    };
    let ghost klen = u32_of(tail.subrange(0, 4)) as int;
    proof {
        assert(tail.subrange(0, 4) =~= proof@.subrange(pos as int, pos + 4));
        assert(klen == key@.len());
        assert(tail.subrange(4, 4 + klen) =~= proof@.subrange(pos + 4, kend as int));
        assert(tail.subrange(4, 4 + klen) == key@);
    }
    let ghost vstart = 4 + klen;
    let (value, vend) = match decode_bytes(proof, kend) {
        Ok(p) => p,
        Err(_) => {
            proof {
                if tail.len() >= vstart + 4 {
                    assert(tail.subrange(vstart, vstart + 4) =~= proof@.subrange(
                        kend as int,
                        kend + 4,
                    ));
                    assert(kend + 4 + u32_of(proof@.subrange(kend as int, kend + 4))
                        > proof@.len());
                }
            }
            return Err(crate::Error::Decode);
        },
    };
    let ghost vlen = u32_of(tail.subrange(vstart, vstart + 4)) as int;
    proof {
        assert(tail.subrange(vstart, vstart + 4) =~= proof@.subrange(kend as int, kend + 4));
        assert(vlen == value@.len());
        assert(tail.subrange(vstart + 4, vstart + 4 + vlen) =~= proof@.subrange(
            kend + 4,
            vend as int,
        ));
        assert(tail.subrange(vstart + 4, vstart + 4 + vlen) == value@);
        assert(tail.subrange(vstart + 4 + vlen, tail.len() as int) =~= proof@.subrange(
            vend as int,
            proof@.len() as int,
        ));
    }
    let mut rest = match parse_pairs_exec(proof, vend) {
        Ok(v) => v,
        Err(e) => {
            return Err(e);
        },
    };
    let ghost rest_pairs = rest.deep_view();
    let ghost pre = rest@;
    rest.insert(0, (key, value));
    proof {
        assert forall|j: int|
            0 <= j < rest.deep_view().len() implies #[trigger] rest.deep_view()[j] == (seq![
            (key@, value@),
        ] + rest_pairs)[j] by {
            assert(rest.deep_view()[j] == ((#[trigger] rest@[j]).0@, rest@[j].1@));
            if j > 0 {
                assert(rest@[j] == pre[j - 1]);
                assert(rest_pairs[j - 1] == (pre[j - 1].0@, pre[j - 1].1@));
            }
        }
        assert(rest.deep_view() =~= seq![(key@, value@)] + rest_pairs);
    }
    Ok(rest)
}

/// The committed value the parsed snapshot holds for a key, if any.
fn snapshot_lookup(pairs: &Vec<(Vec<u8>, Vec<u8>)>, key: &[u8]) -> (r: Option<Vec<u8>>)
    ensures
        match r {
            Some(v) => snapshot_get(pairs.deep_view(), key@) matches Some(sv) && v@ == sv,
            None => snapshot_get(pairs.deep_view(), key@) is None,
        },
{
    let ghost ps = pairs.deep_view();
    proof {
        assert(ps.skip(0) =~= ps);
    }
    let mut i: usize = 0;
    while i < pairs.len()
        invariant
            i <= pairs@.len(),
            ps == pairs.deep_view(),
            ps.len() == pairs@.len(),
            forall|j: int|
                0 <= j < ps.len() ==> ps[j] == ((#[trigger] pairs@[j]).0@, pairs@[j].1@),
            snapshot_get(ps, key@) == snapshot_get(ps.skip(i as int), key@),
        decreases pairs@.len() - i,
    {
        if bytes_eq(pairs[i].0.as_slice(), key) {
            proof {
                assert(ps.skip(i as int)[0] == ps[i as int]);
                assert(snapshot_get(ps.skip(i as int), key@) == Some(ps[i as int].1));
            }
            return Some(clone_bytes(pairs[i].1.as_slice()));
        }
        i += 1;
        proof {
            assert(ps.skip(i - 1)[0] == ps[i - 1]);
            assert(ps.skip(i - 1).skip(1) =~= ps.skip(i as int));
        }
    }
    proof {
        assert(ps.skip(i as int).len() == 0);
    }
    None
}

/// Whether the covered key list holds a key.
fn keyset_contains(pkeys: &Vec<Vec<u8>>, key: &[u8]) -> (r: bool)
    ensures
        r == pkeys.deep_view().contains(key@),
{
    let ghost ks = pkeys.deep_view();
    let mut i: usize = 0;
    while i < pkeys.len()
        invariant
            i <= pkeys@.len(),
            ks == pkeys.deep_view(),
            ks.len() == pkeys@.len(),
            forall|j: int| 0 <= j < ks.len() ==> ks[j] == (#[trigger] pkeys@[j])@,
            forall|j: int| 0 <= j < i ==> ks[j] != key@,
        decreases pkeys@.len() - i,
    {
        if bytes_eq(pkeys[i].as_slice(), key) {
            proof {
                assert(ks[i as int] == key@);
            }
            return true;
        }
        i += 1;
    }
    proof {
        if ks.contains(key@) {
            let j = choose|j: int| 0 <= j < ks.len() && ks[j] == key@;
        }
    }
    false
}

/// Checks a proof against a root for a queried key list, returning each key's
/// proven value or absence. Succeeds exactly where the proof is well-formed,
/// its snapshot matches the root, and every queried key is among the keys the
/// proof covers: one queried key outside that set and verification fails.
#[verifier::loop_isolation(false)]
pub fn verify_proof(proof: &Vec<u8>, keys: &Vec<Vec<u8>>, root: &Vec<u8>) -> (r: crate::Result<
    Vec<Option<Vec<u8>>>,
>)
    ensures
        match spec_verify_proof(proof@, keys.deep_view(), root@) {
            Ok(vals) => r matches Ok(v) && v.deep_view() == vals,
            Err(e) => r == Err::<Vec<Option<Vec<u8>>>, crate::Error>(e),
        },
{
    let ghost queried = keys.deep_view();
    proof {
        assert(queried.len() == keys@.len());
        assert(forall|i: int| 0 <= i < keys@.len() ==> queried[i] == (#[trigger] keys@[i])@);
    }
    let n = match decode_u32(proof, 0) {
        Ok(n) => n,
        Err(_) => {
            return Err(crate::Error::Decode);
        },
    };
    proof {
        lemma_u32_round_trip(n);
        assert(u32_of(proof@.subrange(0, 4)) == n);
    }
    let (pkeys, snap_pos) = match parse_keyset_exec(n, proof, 4) {
        Ok(p) => p,
        Err(e) => {
            return Err(e);
        },
    };
    let pairs = match parse_pairs_exec(proof, snap_pos) {
        Ok(p) => p,
        Err(e) => {
            return Err(e);
        },
    };
    let ghost snap = proof@.subrange(snap_pos as int, proof@.len() as int);
    let snap_bytes = crate::call::suffix_bytes(proof, snap_pos);
    let digest = sha256(&snap_bytes);
    if !bytes_eq(digest.as_slice(), root.as_slice()) {
        return Err(crate::Error::Proof);
    }
    let mut vals: Vec<Option<Vec<u8>>> = Vec::new();
    let mut i: usize = 0;
    while i < keys.len()
        invariant
            i <= keys@.len(),
            vals@.len() == i,
            forall|j: int| 0 <= j < i ==> pkeys.deep_view().contains(#[trigger] queried[j]),
            forall|j: int|
                0 <= j < i ==> (#[trigger] vals.deep_view()[j]) == snapshot_get(
                    pairs.deep_view(),
                    queried[j],
                ),
        decreases keys@.len() - i,
    {
        if !keyset_contains(&pkeys, keys[i].as_slice()) {
            return Err(crate::Error::Proof);
        }
        let v = snapshot_lookup(&pairs, keys[i].as_slice());
        proof {
            assert(v.deep_view() == snapshot_get(pairs.deep_view(), queried[i as int]));
        }
        let ghost vals_pre = vals@;
        let ghost pre_deep = vals.deep_view();
        vals.push(v);
        i += 1;
        proof {
            assert forall|j: int|
                0 <= j < i implies (#[trigger] vals.deep_view()[j]) == snapshot_get(
                pairs.deep_view(),
                queried[j],
            ) by {
                assert(vals.deep_view()[j] == (#[trigger] vals@[j]).deep_view());
                if j < i - 1 {
                    assert(vals@[j] == vals_pre[j]);
                    assert(pre_deep[j] == vals_pre[j].deep_view());
                    assert(pre_deep[j] == snapshot_get(pairs.deep_view(), queried[j]));
                }
            }
        }
    }
    proof {
        assert(vals.deep_view() =~= Seq::new(
            queried.len(),
            |j: int| snapshot_get(pairs.deep_view(), queried[j]),
        )) by {
            assert(forall|j: int|
                0 <= j < i ==> (#[trigger] vals.deep_view()[j]) == snapshot_get(
                    pairs.deep_view(),
                    queried[j],
                ));
        }
    }
    Ok(vals)
}

} // verus!
