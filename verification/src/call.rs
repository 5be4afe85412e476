//! The call protocol: a binary tagged-union envelope selects either a struct
//! field, forwarding the rest of the bytes to that field's own envelope, or a
//! method of the node it reached, carrying the method's arguments. Tags are
//! assigned from declared position: field `i` is the byte `i`, method `j` the
//! byte `0x80 + j`. Unknown tags, truncated payloads and trailing bytes are
//! rejected with a decode error and never partially applied.

use vstd::prelude::*;

use crate::codec::{bytes_enc, decode_bytes, decode_u64, u32_of, u64_bytes, u64_of};
use crate::context::Context;
use crate::state::{
    children_conform, children_enc, children_wf, conforms, enc_of, entries_unique, key_in,
    keys_enc, model_wf, models_of, Shape, StateMap, ValModel, Value,
};
use crate::store::{bytes_eq, clone_bytes};

verus! {

broadcast use crate::state::lemma_state_map_view;

/// The balance a collection holds for a key; zero where the key is absent.
pub open spec fn tbl_get(es: Seq<(Seq<u8>, u64)>, k: Seq<u8>) -> u64
    decreases es,
{
    if es.len() == 0 {
        0
    } else if es[0].0 == k {
        es[0].1
    } else {
        tbl_get(es.skip(1), k)
    }
}

/// The collection with the key's value replaced, or appended where absent.
pub open spec fn tbl_set(es: Seq<(Seq<u8>, u64)>, k: Seq<u8>, v: u64) -> Seq<(Seq<u8>, u64)>
    decreases es,
{
    if es.len() == 0 {
        seq![(k, v)]
    } else if es[0].0 == k {
        seq![(k, v)] + es.skip(1)
    } else {
        seq![es[0]] + tbl_set(es.skip(1), k, v)
    }
}

/// The sum of all amounts a collection holds.
pub open spec fn tbl_sum(es: Seq<(Seq<u8>, u64)>) -> int
    decreases es,
{
    if es.len() == 0 {
        0
    } else {
        es[0].1 + tbl_sum(es.skip(1))
    }
}

/// Reading a key after setting one: the set key reads as set, every other
/// key as before.
pub proof fn lemma_tbl_get_set(es: Seq<(Seq<u8>, u64)>, k: Seq<u8>, v: u64, k2: Seq<u8>)
    ensures
        tbl_get(tbl_set(es, k, v), k2) == if k2 == k {
            v
        } else {
            tbl_get(es, k2)
        },
    decreases es,
{
    let t = tbl_set(es, k, v);
    if es.len() == 0 {
        assert(t[0] == (k, v));
        assert(t.skip(1) =~= es);
        assert(tbl_get(t, k2) == if k2 == k { v } else { tbl_get(t.skip(1), k2) });
    } else if es[0].0 == k {
        assert(t[0] == (k, v));
        assert(t.skip(1) =~= es.skip(1));
        if k2 == k {
            assert(tbl_get(t, k2) == v);
        } else {
            assert(tbl_get(t, k2) == tbl_get(t.skip(1), k2));
            assert(tbl_get(es, k2) == tbl_get(es.skip(1), k2));
        }
        assert(tbl_get(t, k2) == if k2 == k { v } else { tbl_get(es, k2) });
    } else {
        lemma_tbl_get_set(es.skip(1), k, v, k2);
        assert(t[0] == es[0]);
        assert(t.skip(1) =~= tbl_set(es.skip(1), k, v));
        if k2 == es[0].0 {
            assert(tbl_get(t, k2) == t[0].1);
            assert(tbl_get(es, k2) == es[0].1);
        } else {
            assert(tbl_get(t, k2) == tbl_get(t.skip(1), k2));
            assert(tbl_get(es, k2) == tbl_get(es.skip(1), k2));
        }
    }
}

/// A key is present after a set exactly if it was set or present before.
pub proof fn lemma_key_in_set(es: Seq<(Seq<u8>, u64)>, k: Seq<u8>, v: u64, k2: Seq<u8>)
    ensures
        key_in(tbl_set(es, k, v), k2) <==> (k2 == k || key_in(es, k2)),
    decreases es,
{
    let t = tbl_set(es, k, v);
    if es.len() == 0 {
        assert(t[0].0 == k);
        if key_in(t, k2) {
            let i = choose|i: int| 0 <= i < t.len() && t[i].0 == k2;
            assert(i == 0);
        }
    } else if es[0].0 == k {
        assert(t.skip(1) =~= es.skip(1));
        assert(t[0].0 == k);
        assert forall|i: int| 0 <= i < t.len() implies (t[i].0 == k2 ==> k2 == k || key_in(
            es,
            k2,
        )) by {
            if i > 0 && t[i].0 == k2 {
                assert(es[i].0 == k2);
            }
        }
        if k2 == k {
            assert(t[0].0 == k2);
        } else if key_in(es, k2) {
            let i = choose|i: int| 0 <= i < es.len() && es[i].0 == k2;
            assert(i > 0);
            assert(t[i].0 == k2);
        }
    } else {
        lemma_key_in_set(es.skip(1), k, v, k2);
        assert(t[0] == es[0]);
        assert(t.skip(1) =~= tbl_set(es.skip(1), k, v));
        if key_in(t, k2) {
            let i = choose|i: int| 0 <= i < t.len() && t[i].0 == k2;
            if i > 0 {
                assert(t.skip(1)[i - 1].0 == k2);
                assert(key_in(tbl_set(es.skip(1), k, v), k2));
            }
        }
        if k2 == k {
            assert(key_in(tbl_set(es.skip(1), k, v), k2));
            let i = choose|i: int|
                0 <= i < tbl_set(es.skip(1), k, v).len() && tbl_set(es.skip(1), k, v)[i].0 == k2;
            assert(t[i + 1].0 == k2);
        } else if key_in(es, k2) {
            let i = choose|i: int| 0 <= i < es.len() && es[i].0 == k2;
            if i == 0 {
                assert(t[0].0 == k2);
            } else {
                assert(es.skip(1)[i - 1].0 == k2);
                assert(key_in(tbl_set(es.skip(1), k, v), k2));
                let j = choose|j: int|
                    0 <= j < tbl_set(es.skip(1), k, v).len() && tbl_set(es.skip(1), k, v)[j].0
                        == k2;
                assert(t[j + 1].0 == k2);
            }
        }
    }
}

/// Setting a key keeps keys distinct and adds at most the set key.
pub proof fn lemma_tbl_set_wf(es: Seq<(Seq<u8>, u64)>, k: Seq<u8>, v: u64)
    requires
        entries_unique(es),
    ensures
        entries_unique(tbl_set(es, k, v)),
        tbl_set(es, k, v).len() == es.len() + if key_in(es, k) {
            0int
        } else {
            1int
        },
        forall|i: int|
            0 <= i < tbl_set(es, k, v).len() ==> (#[trigger] tbl_set(es, k, v)[i]).0 == k
                || key_in(es, tbl_set(es, k, v)[i].0),
    decreases es,
{
    let t = tbl_set(es, k, v);
    if es.len() == 0 {
        if key_in(es, k) {
            let i = choose|i: int| 0 <= i < es.len() && es[i].0 == k;
        }
    } else if es[0].0 == k {
        assert(t.skip(1) =~= es.skip(1));
        assert(key_in(es, k)) by {
            assert(es[0].0 == k);
        }
        assert(forall|i: int| 1 <= i < t.len() ==> t[i] == es[i]);
        assert forall|i: int|
            0 <= i < t.len() implies (#[trigger] t[i]).0 == k || key_in(es, t[i].0) by {
            if i > 0 {
                assert(es[i].0 == t[i].0);
            }
        }
    } else {
        assert(forall|a: int, b: int|
            0 <= a < b < es.skip(1).len() ==> es.skip(1)[a].0 != es.skip(1)[b].0);
        lemma_tbl_set_wf(es.skip(1), k, v);
        lemma_key_in_set(es.skip(1), k, v, es[0].0);
        let t1 = tbl_set(es.skip(1), k, v);
        assert(t[0] == es[0]);
        assert(t.skip(1) =~= t1);
        // the head key occurs nowhere in the updated tail
        assert(!key_in(es.skip(1), es[0].0)) by {
            if key_in(es.skip(1), es[0].0) {
                let i = choose|i: int| 0 <= i < es.skip(1).len() && es.skip(1)[i].0 == es[0].0;
                assert(es[i + 1].0 == es[0].0);
            }
        }
        assert(!key_in(t1, es[0].0));
        assert forall|a: int, b: int| 0 <= a < b < t.len() implies t[a].0 != t[b].0 by {
            if a == 0 {
                assert(t1[b - 1].0 == t[b].0);
                if t[b].0 == es[0].0 {
                    assert(key_in(t1, es[0].0));
                }
            } else {
                assert(t1[a - 1].0 == t[a].0 && t1[b - 1].0 == t[b].0);
            }
        }
        if key_in(es, k) {
            let i = choose|i: int| 0 <= i < es.len() && es[i].0 == k;
            assert(i > 0);
            assert(es.skip(1)[i - 1].0 == k);
            assert(key_in(es.skip(1), k));
        }
        if key_in(es.skip(1), k) {
            let i = choose|i: int| 0 <= i < es.skip(1).len() && es.skip(1)[i].0 == k;
            assert(es[i + 1].0 == k);
            assert(key_in(es, k));
        }
        assert forall|i: int|
            0 <= i < t.len() implies (#[trigger] t[i]).0 == k || key_in(es, t[i].0) by {
            if i > 0 {
                assert(t[i] == t1[i - 1]);
                if t1[i - 1].0 != k {
                    assert(key_in(es.skip(1), t1[i - 1].0));
                    let j = choose|j: int|
                        0 <= j < es.skip(1).len() && es.skip(1)[j].0 == t1[i - 1].0;
                    assert(es[j + 1].0 == t1[i - 1].0);
                }
            } else {
                assert(t[0] == es[0]);
                assert(key_in(es, es[0].0)) by {
                    assert(es[0].0 == es[0].0);
                }
            }
        }
    }
}

/// How a set changes the key list's encoded size: nothing for a present key,
/// one segment for a fresh one.
pub proof fn lemma_tbl_set_enc_len(es: Seq<(Seq<u8>, u64)>, k: Seq<u8>, v: u64)
    ensures
        keys_enc(tbl_set(es, k, v)).len() == keys_enc(es).len() + if key_in(es, k) {
            0int
        } else {
            4 + k.len() as int
        },
    decreases es,
{
    let t = tbl_set(es, k, v);
    if es.len() == 0 {
        assert(t[0] == (k, v));
        assert(t.skip(1) =~= Seq::<(Seq<u8>, u64)>::empty());
        assert(keys_enc(t) == bytes_enc(k) + keys_enc(t.skip(1)));
        if key_in(es, k) {
            let i = choose|i: int| 0 <= i < es.len() && es[i].0 == k;
        }
    } else if es[0].0 == k {
        assert(t[0] == (k, v));
        assert(t.skip(1) =~= es.skip(1));
        assert(keys_enc(t) == bytes_enc(k) + keys_enc(t.skip(1)));
        assert(keys_enc(es) == bytes_enc(es[0].0) + keys_enc(es.skip(1)));
        assert(key_in(es, k)) by {
            assert(es[0].0 == k);
        }
    } else {
        lemma_tbl_set_enc_len(es.skip(1), k, v);
        assert(keys_enc(t) == bytes_enc(t[0].0) + keys_enc(t.skip(1)));
        assert(keys_enc(es) == bytes_enc(es[0].0) + keys_enc(es.skip(1)));
        assert(t[0] == es[0]);
        assert(t.skip(1) =~= tbl_set(es.skip(1), k, v));
        assert(key_in(es, k) == key_in(es.skip(1), k)) by {
            if key_in(es, k) {
                let i = choose|i: int| 0 <= i < es.len() && es[i].0 == k;
                assert(i > 0);
                assert(es.skip(1)[i - 1].0 == k);
            }
            if key_in(es.skip(1), k) {
                let i = choose|i: int| 0 <= i < es.skip(1).len() && es.skip(1)[i].0 == k;
                assert(es[i + 1].0 == k);
            }
        }
    }
}

/// The encoded key list takes at least four bytes per entry.
pub proof fn lemma_keys_enc_min_len(es: Seq<(Seq<u8>, u64)>)
    ensures
        keys_enc(es).len() >= 4 * es.len(),
    decreases es,
{
    if es.len() > 0 {
        lemma_keys_enc_min_len(es.skip(1));
    }
}

/// Setting a key changes that key's amount and nothing else in the sum.
pub proof fn lemma_tbl_set_sum(es: Seq<(Seq<u8>, u64)>, k: Seq<u8>, v: u64)
    requires
        entries_unique(es),
    ensures
        tbl_sum(tbl_set(es, k, v)) == tbl_sum(es) + v - if key_in(es, k) {
            tbl_get(es, k) as int
        } else {
            0int
        },
    decreases es,
{
    let t = tbl_set(es, k, v);
    if es.len() == 0 {
        assert(t[0] == (k, v));
        assert(t.skip(1) =~= Seq::<(Seq<u8>, u64)>::empty());
        assert(tbl_sum(t) == v + tbl_sum(t.skip(1)));
        if key_in(es, k) {
            let i = choose|i: int| 0 <= i < es.len() && es[i].0 == k;
        }
    } else if es[0].0 == k {
        assert(t[0] == (k, v));
        assert(t.skip(1) =~= es.skip(1));
        assert(tbl_sum(t) == v + tbl_sum(t.skip(1)));
        assert(tbl_sum(es) == es[0].1 + tbl_sum(es.skip(1)));
        assert(key_in(es, k)) by {
            assert(es[0].0 == k);
        }
    } else {
        assert(forall|a: int, b: int|
            0 <= a < b < es.skip(1).len() ==> es.skip(1)[a].0 != es.skip(1)[b].0);
        lemma_tbl_set_sum(es.skip(1), k, v);
        assert(tbl_sum(t) == t[0].1 + tbl_sum(t.skip(1)));
        assert(tbl_sum(es) == es[0].1 + tbl_sum(es.skip(1)));
        assert(t[0] == es[0]);
        assert(t.skip(1) =~= tbl_set(es.skip(1), k, v));
        assert(key_in(es, k) == key_in(es.skip(1), k)) by {
            if key_in(es, k) {
                let i = choose|i: int| 0 <= i < es.len() && es[i].0 == k;
                assert(i > 0);
                assert(es.skip(1)[i - 1].0 == k);
            }
            if key_in(es.skip(1), k) {
                let i = choose|i: int| 0 <= i < es.skip(1).len() && es.skip(1)[i].0 == k;
                assert(es[i + 1].0 == k);
            }
        }
    }
}

/// A present key's segment is part of the encoded key list.
pub proof fn lemma_keys_enc_key_bound(es: Seq<(Seq<u8>, u64)>, k: Seq<u8>)
    requires
        key_in(es, k),
    ensures
        4 + k.len() <= keys_enc(es).len(),
    decreases es,
{
    if es.len() > 0 {
        if es[0].0 == k {
        } else {
            let i = choose|i: int| 0 <= i < es.len() && es[i].0 == k;
            assert(i > 0);
            assert(es.skip(1)[i - 1].0 == k);
            assert(key_in(es.skip(1), k));
            lemma_keys_enc_key_bound(es.skip(1), k);
        }
    }
}

/// Replacing one child with a well-formed, segment-sized one keeps the child
/// list well-formed.
pub proof fn lemma_children_wf_update(ms: Seq<ValModel>, i: int, c: ValModel)
    requires
        children_wf(ms),
        0 <= i < ms.len(),
        model_wf(c),
        enc_of(c).len() <= u32::MAX,
    ensures
        children_wf(ms.update(i, c)),
    decreases ms,
{
    let t = ms.update(i, c);
    if i == 0 {
        assert(t[0] == c);
        assert(t.skip(1) =~= ms.skip(1));
    } else {
        assert(t[0] == ms[0]);
        assert(t.skip(1) =~= ms.skip(1).update(i - 1, c));
        lemma_children_wf_update(ms.skip(1), i - 1, c);
    }
}

/// What the recipient and amount bytes of a transfer request mean, and the
/// rule they are checked against: the sender must cover the amount, the
/// recipient's balance must not overflow, and the updated collection must
/// still fit its wire segment. A rejected transfer changes nothing.
pub open spec fn spec_transfer(
    es: Seq<(Seq<u8>, u64)>,
    from: Seq<u8>,
    to: Seq<u8>,
    amount: u64,
) -> core::result::Result<Seq<(Seq<u8>, u64)>, crate::Error> {
    let bal_from = tbl_get(es, from);
    if bal_from < amount {
        Err(crate::Error::Coins)
    } else {
        let es1 = tbl_set(es, from, (bal_from - amount) as u64);
        let bal_to = tbl_get(es1, to);
        if bal_to as int + amount as int > u64::MAX as int {
            Err(crate::Error::Coins)
        } else {
            let es2 = tbl_set(es1, to, (bal_to + amount) as u64);
            if 4 + keys_enc(es2).len() > u32::MAX {
                Err(crate::Error::Coins)
            } else {
                Ok(es2)
            }
        }
    }
}

/// What dispatching a call envelope does. The first byte selects a struct
/// field (tags up to 0x7f) or a method of the node reached (tags from 0x80);
/// the rest of the bytes are the forwarded envelope or the method arguments.
/// An unknown tag, a selector that does not fit the node, a truncated payload
/// or trailing bytes is a decode error; a capacity or domain violation is a
/// coins error; a transfer without an authenticated caller is a signer error.
pub open spec fn spec_dispatch(
    m: ValModel,
    signer: Option<Seq<u8>>,
    bytes: Seq<u8>,
) -> core::result::Result<ValModel, crate::Error>
    decreases bytes.len(),
{
    if bytes.len() == 0 {
        Err(crate::Error::Decode)
    } else {
        let tag = bytes[0];
        let rest = bytes.subrange(1, bytes.len() as int);
        if tag < 128 {
            match m {
                ValModel::Struct(ms) => if (tag as int) < ms.len() {
                    match spec_dispatch(ms[tag as int], signer, rest) {
                        Ok(c2) => if enc_of(c2).len() <= u32::MAX {
                            Ok(ValModel::Struct(ms.update(tag as int, c2)))
                        } else {
                            Err(crate::Error::Coins)
                        },
                        Err(e) => Err(e),
                    }
                } else {
                    Err(crate::Error::Decode)
                },
                _ => Err(crate::Error::Decode),
            }
        } else {
            let method = (tag - 128) as int;
            match m {
                ValModel::U64(x) => if method == 0 {
                    if rest.len() == 0 {
                        if x < u64::MAX {
                            Ok(ValModel::U64((x + 1) as u64))
                        } else {
                            Err(crate::Error::Coins)
                        }
                    } else {
                        Err(crate::Error::Decode)
                    }
                } else if method == 1 {
                    if rest.len() == 8 {
                        Ok(ValModel::U64(u64_of(rest)))
                    } else {
                        Err(crate::Error::Decode)
                    }
                } else {
                    Err(crate::Error::Decode)
                },
                ValModel::Table(es) => if method == 0 {
                    if rest.len() < 4 {
                        Err(crate::Error::Decode)
                    } else {
                        let tlen = u32_of(rest.subrange(0, 4)) as int;
                        if 4 + tlen + 8 != rest.len() {
                            Err(crate::Error::Decode)
                        } else {
                            let to = rest.subrange(4, 4 + tlen);
                            let amount = u64_of(rest.subrange(4 + tlen, rest.len() as int));
                            match signer {
                                None => Err(crate::Error::Signer),
                                Some(from) => match spec_transfer(es, from, to, amount) {
                                    Ok(es2) => Ok(ValModel::Table(es2)),
                                    Err(e) => Err(e),
                                },
                            }
                        }
                    }
                } else {
                    Err(crate::Error::Decode)
                },
                ValModel::Struct(_) => Err(crate::Error::Decode),
            }
        }
    }
}

/// An accepted transfer leaves the collection well-formed.
pub proof fn lemma_transfer_wf(es: Seq<(Seq<u8>, u64)>, from: Seq<u8>, to: Seq<u8>, amount: u64)
    requires
        model_wf(ValModel::Table(es)),
    ensures
        spec_transfer(es, from, to, amount) matches Ok(es2) ==> model_wf(ValModel::Table(es2)),
{
    if spec_transfer(es, from, to, amount) is Ok {
        let bal_from = tbl_get(es, from);
        let es1 = tbl_set(es, from, (bal_from - amount) as u64);
        let bal_to = tbl_get(es1, to);
        let es2 = tbl_set(es1, to, (bal_to + amount) as u64);
        lemma_tbl_set_wf(es, from, (bal_from - amount) as u64);
        lemma_tbl_set_wf(es1, to, (bal_to + amount) as u64);
        lemma_keys_enc_min_len(es2);
        lemma_key_in_set(es1, to, (bal_to + amount) as u64, to);
        lemma_keys_enc_key_bound(es2, to);
        lemma_key_in_set(es, from, (bal_from - amount) as u64, from);
        lemma_key_in_set(es1, to, (bal_to + amount) as u64, from);
        if from != to {
            lemma_keys_enc_key_bound(es2, from);
        }
        assert forall|i: int|
            0 <= i < es2.len() implies (#[trigger] es2[i]).0.len() <= u32::MAX by {
            if es2[i].0 == to || es2[i].0 == from {
                lemma_keys_enc_key_bound(es2, es2[i].0);
            } else {
                assert(es2[i].0 == to || key_in(es1, es2[i].0));
                let j = choose|j: int| 0 <= j < es1.len() && es1[j].0 == es2[i].0;
                assert(es1[j].0 == from || key_in(es, es1[j].0));
                let l = choose|l: int| 0 <= l < es.len() && es[l].0 == es1[j].0;
            }
        }
    }
}

/// Dispatch keeps the state well-formed: the value a successful call leaves
/// behind satisfies the same invariant the value before it did.
pub proof fn lemma_dispatch_wf(m: ValModel, signer: Option<Seq<u8>>, bytes: Seq<u8>)
    requires
        model_wf(m),
    ensures
        spec_dispatch(m, signer, bytes) matches Ok(m2) ==> model_wf(m2),
    decreases bytes.len(),
{
    if spec_dispatch(m, signer, bytes) is Ok && bytes.len() > 0 {
        let tag = bytes[0];
        let rest = bytes.subrange(1, bytes.len() as int);
        if tag < 128 {
            match m {
                ValModel::Struct(ms) => {
                    crate::state::lemma_children_wf_index(ms, tag as int);
                    lemma_dispatch_wf(ms[tag as int], signer, rest);
                    let c2 = spec_dispatch(ms[tag as int], signer, rest)->Ok_0;
                    lemma_children_wf_update(ms, tag as int, c2);
                },
                _ => {},
            }
        } else {
            match m {
                ValModel::Table(es) => {
                    if signer is Some {
                        let tlen = u32_of(rest.subrange(0, 4)) as int;
                        let to = rest.subrange(4, 4 + tlen);
                        let amount = u64_of(rest.subrange(4 + tlen, rest.len() as int));
                        lemma_transfer_wf(es, signer->0, to, amount);
                    }
                },
                _ => {},
            }
        }
    }
}

/// An accepted transfer moves the amount and nothing else: the sender's
/// balance falls by it, the recipient's rises by it, every other key keeps
/// its balance, and the sum over all keys is unchanged.
pub proof fn lemma_transfer_balances(
    es: Seq<(Seq<u8>, u64)>,
    from: Seq<u8>,
    to: Seq<u8>,
    amount: u64,
)
    requires
        entries_unique(es),
    ensures
        spec_transfer(es, from, to, amount) matches Ok(es2) ==> {
            &&& tbl_sum(es2) == tbl_sum(es)
            &&& (from != to ==> tbl_get(es2, from) == tbl_get(es, from) - amount)
            &&& (from != to ==> tbl_get(es2, to) == tbl_get(es, to) + amount)
            &&& (from == to ==> tbl_get(es2, to) == tbl_get(es, to))
            &&& forall|k: Seq<u8>|
                k != from && k != to ==> #[trigger] tbl_get(es2, k) == tbl_get(es, k)
        },
{
    if spec_transfer(es, from, to, amount) is Ok {
        let bal_from = tbl_get(es, from);
        let es1 = tbl_set(es, from, (bal_from - amount) as u64);
        let bal_to = tbl_get(es1, to);
        let es2 = tbl_set(es1, to, (bal_to + amount) as u64);
        assert(spec_transfer(es, from, to, amount) == Ok::<Seq<(Seq<u8>, u64)>, crate::Error>(
            es2,
        ));
        lemma_tbl_set_wf(es, from, (bal_from - amount) as u64);
        lemma_tbl_set_sum(es, from, (bal_from - amount) as u64);
        lemma_tbl_set_sum(es1, to, (bal_to + amount) as u64);
        lemma_key_in_set(es, from, (bal_from - amount) as u64, to);
        lemma_tbl_get_set(es, from, (bal_from - amount) as u64, to);
        lemma_tbl_get_set(es, from, (bal_from - amount) as u64, from);
        lemma_tbl_get_set(es1, to, (bal_to + amount) as u64, to);
        lemma_tbl_get_set(es1, to, (bal_to + amount) as u64, from);
        assert forall|k: Seq<u8>|
            k != from && k != to implies #[trigger] tbl_get(es2, k) == tbl_get(es, k) by {
            lemma_tbl_get_set(es1, to, (bal_to + amount) as u64, k);
            lemma_tbl_get_set(es, from, (bal_from - amount) as u64, k);
        }
        if !key_in(es, from) {
            lemma_tbl_get_absent(es, from);
        }
        if !key_in(es1, to) {
            lemma_tbl_get_absent(es1, to);
        }
        if key_in(es, from) {
            assert(tbl_sum(es1) == tbl_sum(es) - amount);
        } else {
            assert(bal_from == 0);
            assert(amount == 0);
            assert(tbl_sum(es1) == tbl_sum(es));
        }
        if key_in(es1, to) {
            assert(tbl_sum(es2) == tbl_sum(es1) + amount);
        } else {
            assert(bal_to == 0);
            assert(tbl_sum(es2) == tbl_sum(es1) + amount);
        }
        assert(tbl_sum(es2) == tbl_sum(es));
        assert(from != to ==> tbl_get(es2, from) == tbl_get(es, from) - amount);
        assert(from != to ==> tbl_get(es2, to) == tbl_get(es, to) + amount);
        assert(from == to ==> tbl_get(es2, to) == tbl_get(es, to));
    }
}

/// Setting a key present at the first match position replaces that entry.
proof fn lemma_tbl_set_update(es: Seq<(Seq<u8>, u64)>, i: int, k: Seq<u8>, v: u64)
    requires
        0 <= i < es.len(),
        es[i].0 == k,
        forall|j: int| 0 <= j < i ==> es[j].0 != k,
    ensures
        tbl_set(es, k, v) == es.update(i, (k, v)),
    decreases es,
{
    let t = tbl_set(es, k, v);
    if i == 0 {
        assert(t[0] == (k, v));
        assert(t.skip(1) =~= es.skip(1));
        assert(t =~= es.update(0, (k, v)));
    } else {
        assert(es.skip(1)[i - 1].0 == k);
        assert(forall|j: int| 0 <= j < i - 1 ==> es.skip(1)[j].0 != k);
        lemma_tbl_set_update(es.skip(1), i - 1, k, v);
        assert(t[0] == es[0]);
        assert(t.skip(1) =~= es.skip(1).update(i - 1, (k, v)));
        assert(t =~= es.update(i, (k, v)));
    }
}

/// Setting an absent key appends it.
proof fn lemma_tbl_set_push(es: Seq<(Seq<u8>, u64)>, k: Seq<u8>, v: u64)
    requires
        !key_in(es, k),
    ensures
        tbl_set(es, k, v) == es.push((k, v)),
    decreases es,
{
    let t = tbl_set(es, k, v);
    if es.len() == 0 {
        assert(t =~= es.push((k, v)));
    } else {
        assert(es[0].0 != k) by {
            if es[0].0 == k {
                assert(key_in(es, k));
            }
        }
        assert(!key_in(es.skip(1), k)) by {
            if key_in(es.skip(1), k) {
                let i = choose|i: int| 0 <= i < es.skip(1).len() && es.skip(1)[i].0 == k;
                assert(es[i + 1].0 == k);
            }
        }
        lemma_tbl_set_push(es.skip(1), k, v);
        assert(t[0] == es[0]);
        assert(t.skip(1) =~= es.skip(1).push((k, v)));
        assert(t =~= es.push((k, v)));
    }
}

/// An absent key reads as zero.
pub proof fn lemma_tbl_get_absent(es: Seq<(Seq<u8>, u64)>, k: Seq<u8>)
    requires
        !key_in(es, k),
    ensures
        tbl_get(es, k) == 0,
    decreases es,
{
    if es.len() > 0 {
        assert(es[0].0 != k) by {
            if es[0].0 == k {
                assert(key_in(es, k));
            }
        }
        assert(!key_in(es.skip(1), k)) by {
            if key_in(es.skip(1), k) {
                let i = choose|i: int| 0 <= i < es.skip(1).len() && es.skip(1)[i].0 == k;
                assert(es[i + 1].0 == k);
            }
        }
        lemma_tbl_get_absent(es.skip(1), k);
    }
}


/// One more than the largest segment the wire format can carry: byte counts
/// are clamped here, a clamped count meaning "too large to encode".
pub const SIZE_CAP: u64 = 0x1_0000_0000;

/// Adds one length-prefixed segment of `b_len` bytes to a clamped running
/// count.
fn cap_add(acc: u64, b_len: usize) -> (r: u64)
    requires
        acc <= SIZE_CAP,
    ensures
        r == if acc + 4 + b_len > SIZE_CAP {
            SIZE_CAP as int
        } else {
            acc + 4 + b_len as int
        },
{
    let b = b_len as u64;
    if b >= SIZE_CAP {
        SIZE_CAP
    } else {
        let s = acc + 4 + b;
        if s > SIZE_CAP {
            SIZE_CAP
        } else {
            s
        }
    }
}

impl StateMap {
    /// An empty collection.
    pub fn new() -> (r: StateMap)
        ensures
            r@ == Seq::<(Seq<u8>, u64)>::empty(),
    {
        let m = StateMap { entries: Vec::new() };
        proof {
            assert(m@ =~= Seq::<(Seq<u8>, u64)>::empty());
        }
        m
    }

    /// The balance held for a key; zero where the key is absent.
    pub fn balance(&self, key: &[u8]) -> (r: u64)
        ensures
            r == tbl_get(self@, key@),
    {
        let ghost es = self@;
        proof {
            assert(es.skip(0) =~= es);
        }
        let mut i: usize = 0;
        while i < self.entries.len()
            invariant
                i <= self.entries@.len(),
                es == self@,
                es.len() == self.entries@.len(),
                forall|j: int|
                    0 <= j < es.len() ==> es[j] == ((#[trigger] self.entries@[j]).0@,
                    self.entries@[j].1),
                tbl_get(es, key@) == tbl_get(es.skip(i as int), key@),
            decreases self.entries@.len() - i,
        {
            if bytes_eq(self.entries[i].0.as_slice(), key) {
                proof {
                    assert(es.skip(i as int)[0] == es[i as int]);
                    assert(tbl_get(es.skip(i as int), key@) == es[i as int].1);
                }
                return self.entries[i].1;
            }
            i += 1;
            proof {
                assert(es.skip(i - 1)[0] == es[i - 1]);
                assert(es.skip(i - 1).skip(1) =~= es.skip(i as int));
            }
        }
        proof {
            assert(es.skip(i as int).len() == 0);
        }
        0
    }

    /// Whether the collection holds the key.
    pub fn has_key(&self, key: &[u8]) -> (r: bool)
        ensures
            r == key_in(self@, key@),
    {
        let ghost es = self@;
        let mut i: usize = 0;
        while i < self.entries.len()
            invariant
                i <= self.entries@.len(),
                es == self@,
                es.len() == self.entries@.len(),
                forall|j: int|
                    0 <= j < es.len() ==> es[j] == ((#[trigger] self.entries@[j]).0@,
                    self.entries@[j].1),
                forall|j: int| 0 <= j < i ==> es[j].0 != key@,
            decreases self.entries@.len() - i,
        {
            if bytes_eq(self.entries[i].0.as_slice(), key) {
                proof {
                    assert(es[i as int].0 == key@);
                }
                return true;
            }
            i += 1;
        }
        proof {
            if key_in(es, key@) {
                let j = choose|j: int| 0 <= j < es.len() && es[j].0 == key@;
            }
        }
        false
    }

    /// Sets the balance held for a key, appending the key where absent.
    pub fn set_amount(&mut self, key: &[u8], value: u64)
        ensures
            final(self)@ == tbl_set(old(self)@, key@, value),
    {
        let ghost es = old(self)@;
        let mut i: usize = 0;
        while i < self.entries.len()
            invariant
                self.entries@ == old(self).entries@,
                i <= self.entries@.len(),
                es == self@,
                es.len() == self.entries@.len(),
                forall|j: int|
                    0 <= j < es.len() ==> es[j] == ((#[trigger] self.entries@[j]).0@,
                    self.entries@[j].1),
                forall|j: int| 0 <= j < i ==> es[j].0 != key@,
            decreases self.entries@.len() - i,
        {
            if bytes_eq(self.entries[i].0.as_slice(), key) {
                proof {
                    assert(es[i as int].0 == key@);
                    lemma_tbl_set_update(es, i as int, key@, value);
                }
                let owned = clone_bytes(key);
                self.entries.set(i, (owned, value));
                proof {
                    assert(self@ =~= es.update(i as int, (key@, value)));
                }
                return ;
            }
            i += 1;
        }
        proof {
            assert(!key_in(es, key@)) by {
                if key_in(es, key@) {
                    let j = choose|j: int| 0 <= j < es.len() && es[j].0 == key@;
                }
            }
            lemma_tbl_set_push(es, key@, value);
        }
        let owned = clone_bytes(key);
        self.entries.push((owned, value));
        proof {
            assert(self@ =~= es.push((key@, value)));
        }
    }

    /// The clamped byte count of the collection's encoded key list.
    fn keys_len_capped(&self) -> (r: u64)
        ensures
            r == if keys_enc(self@).len() > SIZE_CAP {
                SIZE_CAP as int
            } else {
                keys_enc(self@).len() as int
            },
    {
        let ghost es = self@;
        let mut acc: u64 = 0;
        let mut i: usize = 0;
        while i < self.entries.len()
            invariant
                i <= self.entries@.len(),
                es == self@,
                es.len() == self.entries@.len(),
                forall|j: int|
                    0 <= j < es.len() ==> es[j] == ((#[trigger] self.entries@[j]).0@,
                    self.entries@[j].1),
                acc <= SIZE_CAP,
                acc == if keys_enc(es.subrange(0, i as int)).len() > SIZE_CAP {
                    SIZE_CAP as int
                } else {
                    keys_enc(es.subrange(0, i as int)).len() as int
                },
            decreases self.entries@.len() - i,
        {
            let ghost pre = es.subrange(0, i as int);
            acc = cap_add(acc, self.entries[i].0.len());
            i += 1;
            proof {
                let post = es.subrange(0, i as int);
                assert(post.drop_last() =~= pre);
                assert(post.last() == es[i - 1]);
                crate::state::lemma_keys_enc_back(post);
            }
        }
        proof {
            assert(es.subrange(0, es.len() as int) =~= es);
        }
        acc
    }
}

/// The bytes of `b` from `pos` on, as an owned vector.
pub fn suffix_bytes(b: &Vec<u8>, pos: usize) -> (r: Vec<u8>)
    requires
        pos <= b@.len(),
    ensures
        r@ == b@.subrange(pos as int, b@.len() as int),
{
    let mut out: Vec<u8> = Vec::new();
    let mut i: usize = pos;
    while i < b.len()
        invariant
            pos <= i <= b@.len(),
            out@ == b@.subrange(pos as int, i as int),
        decreases b@.len() - i,
    {
        out.push(b[i]);
        i += 1;
        assert(out@ =~= b@.subrange(pos as int, i as int));
    }
    assert(out@ =~= b@.subrange(pos as int, b@.len() as int));
    out
}

/// A deep copy of a structured value, observably identical to the original.
#[verifier::loop_isolation(false)]
pub fn clone_value(v: &Value) -> (r: Value)
    ensures
        r@ == v@,
    decreases v,
{
    match v {
        Value::U64(x) => Value::U64(*x),
        Value::Table(m) => {
            let mut entries: Vec<(Vec<u8>, u64)> = Vec::new();
            let mut i: usize = 0;
            while i < m.entries.len()
                invariant
                    i <= m.entries@.len(),
                    entries@.len() == i,
                    forall|j: int|
                        0 <= j < i ==> (#[trigger] entries@[j]).0@ == m.entries@[j].0@
                            && entries@[j].1 == m.entries@[j].1,
                decreases m.entries@.len() - i,
            {
                let k = clone_bytes(m.entries[i].0.as_slice());
                entries.push((k, m.entries[i].1));
                i += 1;
            }
            let copied = StateMap { entries };
            proof {
                assert(copied@ =~= m@);
            }
            Value::Table(copied)
        },
        Value::Struct(cs) => {
            let ghost v0 = *v;
            let mut children: Vec<Value> = Vec::new();
            let mut i: usize = 0;
            while i < cs.len()
                invariant
                    i <= cs@.len(),
                    children@.len() == i,
                    forall|j: int| 0 <= j < i ==> (#[trigger] children@[j])@ == cs@[j]@,
                decreases cs@.len() - i,
            {
                proof {
                    assert(decreases_to!(v0 => v0->Struct_0));
                    assert(decreases_to!(v0->Struct_0 => v0->Struct_0@));
                    assert(decreases_to!(v0->Struct_0@ => v0->Struct_0@[i as int]));
                }
                let c = clone_value(&cs[i]);
                children.push(c);
                i += 1;
            }
            proof {
                crate::state::lemma_models_of(children@);
                crate::state::lemma_models_of(cs@);
                assert forall|j: int|
                    0 <= j < cs@.len() implies models_of(children@)[j] == models_of(
                    cs@,
                )[j] by {
                    assert(children@[j]@ == cs@[j]@);
                }
                assert(models_of(children@) =~= models_of(cs@));
            }
            Value::Struct(children)
        },
    }
}

/// The clamped byte count of a value's wire encoding.
#[verifier::loop_isolation(false)]
pub fn enc_len_capped(v: &Value) -> (r: u64)
    ensures
        r == if enc_of(v@).len() > SIZE_CAP {
            SIZE_CAP as int
        } else {
            enc_of(v@).len() as int
        },
    decreases v,
{
    match v {
        Value::U64(_) => 8,
        Value::Table(m) => {
            let kl = m.keys_len_capped();
            if kl > SIZE_CAP - 4 {
                SIZE_CAP
            } else {
                4 + kl
            }
        },
        Value::Struct(cs) => {
            let ghost v0 = *v;
            let ghost ms = models_of(cs@);
            proof {
                crate::state::lemma_models_of(cs@);
            }
            let mut acc: u64 = 0;
            let mut i: usize = 0;
            while i < cs.len()
                invariant
                    i <= cs@.len(),
                    acc <= SIZE_CAP,
                    acc == if children_enc(ms.subrange(0, i as int)).len() > SIZE_CAP {
                        SIZE_CAP as int
                    } else {
                        children_enc(ms.subrange(0, i as int)).len() as int
                    },
                decreases cs@.len() - i,
            {
                let ghost pre = ms.subrange(0, i as int);
                proof {
                    assert(decreases_to!(v0 => v0->Struct_0));
                    assert(decreases_to!(v0->Struct_0 => v0->Struct_0@));
                    assert(decreases_to!(v0->Struct_0@ => v0->Struct_0@[i as int]));
                }
                let cl = enc_len_capped(&cs[i]);
                let step: u64 = if cl >= SIZE_CAP - 4 {
                    SIZE_CAP
                } else if acc + 4 + cl > SIZE_CAP {
                    SIZE_CAP
                } else {
                    acc + 4 + cl
                };
                acc = step;
                i += 1;
                proof {
                    let post = ms.subrange(0, i as int);
                    assert(post.drop_last() =~= pre);
                    assert(post.last() == ms[i - 1]);
                    crate::state::lemma_children_enc_back(post);
                }
            }
            proof {
                assert(ms.subrange(0, ms.len() as int) =~= ms);
            }
            acc
        },
    }
}


impl StateMap {
    /// Moves `amount` from the caller's key to `to`: the caller's balance
    /// falls by the amount, the recipient's rises by it, nothing else moves.
    /// Rejected, with nothing changed, where the caller's balance cannot
    /// cover the amount, the recipient's balance would overflow, or the
    /// updated collection would no longer fit its wire segment.
    pub fn transfer(&mut self, from: &[u8], to: &[u8], amount: u64) -> (r: crate::Result<()>)
        requires
            entries_unique(old(self)@),
        ensures
            match spec_transfer(old(self)@, from@, to@, amount) {
                Ok(es2) => r is Ok && final(self)@ == es2,
                Err(e) => r == Err::<(), crate::Error>(e) && final(self)@ == old(self)@,
            },
    {
        let ghost es = self@;
        let bal_from = self.balance(from);
        if bal_from < amount {
            return Err(crate::Error::Coins);
        }
        let ghost es1 = tbl_set(es, from@, (bal_from - amount) as u64);
        proof {
            lemma_tbl_set_wf(es, from@, (bal_from - amount) as u64);
            lemma_tbl_get_set(es, from@, (bal_from - amount) as u64, to@);
            lemma_key_in_set(es, from@, (bal_from - amount) as u64, to@);
            lemma_key_in_set(es, from@, (bal_from - amount) as u64, from@);
        }
        let to_is_from = bytes_eq(to, from);
        let bal_to = if to_is_from {
            bal_from - amount
        } else {
            self.balance(to)
        };
        proof {
            assert(bal_to == tbl_get(es1, to@));
        }
        if amount > u64::MAX - bal_to {
            return Err(crate::Error::Coins);
        }
        let ghost es2 = tbl_set(es1, to@, (bal_to + amount) as u64);
        let from_present = self.has_key(from);
        let to_present = if to_is_from {
            true
        } else {
            self.has_key(to)
        };
        proof {
            assert(to_present == key_in(es1, to@));
            lemma_tbl_set_enc_len(es, from@, (bal_from - amount) as u64);
            lemma_tbl_set_enc_len(es1, to@, (bal_to + amount) as u64);
        }
        let cur = self.keys_len_capped();
        let l1 = if from_present {
            cur
        } else {
            cap_add(cur, from.len())
        };
        proof {
            assert(l1 == if keys_enc(es1).len() > SIZE_CAP {
                SIZE_CAP as int
            } else {
                keys_enc(es1).len() as int
            });
        }
        let l2 = if to_present {
            l1
        } else {
            cap_add(l1, to.len())
        };
        proof {
            assert(l2 == if keys_enc(es2).len() > SIZE_CAP {
                SIZE_CAP as int
            } else {
                keys_enc(es2).len() as int
            });
        }
        if l2 > u32::MAX as u64 - 4 {
            proof {
                assert(4 + keys_enc(es2).len() > u32::MAX);
            }
            return Err(crate::Error::Coins);
        }
        proof {
            assert(4 + keys_enc(es2).len() <= u32::MAX);
        }
        self.set_amount(from, bal_from - amount);
        self.set_amount(to, bal_to + amount);
        Ok(())
    }
}

/// Applies one call envelope to a structured value: descends through field
/// selectors into the addressed node, then runs the selected method with the
/// decoded arguments. A failure at any depth leaves the value as it was.
#[verifier::loop_isolation(false)]
#[verifier::rlimit(100)]
#[verifier::spinoff_prover]
pub fn dispatch_call(v: Value, ctx: &Context, bytes: &Vec<u8>) -> (res: (
    Value,
    crate::Result<()>,
))
    requires
        model_wf(v@),
    ensures
        model_wf(res.0@),
        match spec_dispatch(v@, ctx.signer_addr(), bytes@) {
            Ok(m2) => res.1 is Ok && res.0@ == m2,
            Err(e) => res.1 == Err::<(), crate::Error>(e) && res.0@ == v@,
        },
    decreases bytes@.len(),
{
    let ghost m0 = v@;
    let ghost sgn = ctx.signer_addr();
    proof {
        lemma_dispatch_wf(m0, sgn, bytes@);
    }
    if bytes.len() == 0 {
        return (v, Err(crate::Error::Decode));
    }
    let tag = bytes[0];
    let ghost rest_g = bytes@.subrange(1, bytes@.len() as int);
    if tag < 128 {
        match v {
            Value::Struct(cs) => {
                let mut cs = cs;
                let ghost cs0 = cs@;
                let ghost ms = models_of(cs0);
                proof {
                    crate::state::lemma_models_of(cs0);
                }
                if (tag as usize) >= cs.len() {
                    return (Value::Struct(cs), Err(crate::Error::Decode));
                }
                let idx = tag as usize;
                proof {
                    crate::state::lemma_children_wf_index(ms, idx as int);
                }
                let rest = suffix_bytes(bytes, 1);
                let child = cs.remove(idx);
                proof {
                    assert(child@ == ms[idx as int]);
                }
                let backup = clone_value(&child);
                let (child2, r) = dispatch_call(child, ctx, &rest);
                match r {
                    Ok(()) => {
                        let cl = enc_len_capped(&child2);
                        if cl > u32::MAX as u64 {
                            cs.insert(idx, backup);
                            proof {
                                assert(cs@ =~= cs0.update(idx as int, backup));
                                crate::state::lemma_models_of(cs@);
                                assert forall|j: int|
                                    0 <= j < cs@.len() implies models_of(cs@)[j] == ms[j] by {
                                    assert(cs@[j]@ == cs0.update(idx as int, backup)[j]@);
                                }
                                assert(models_of(cs@) =~= ms);
                            }
                            (Value::Struct(cs), Err(crate::Error::Coins))
                        } else {
                            cs.insert(idx, child2);
                            proof {
                                let ghost m2 = spec_dispatch(ms[idx as int], sgn, rest_g)->Ok_0;
                                assert(child2@ == m2);
                                assert(cs@ =~= cs0.update(idx as int, child2));
                                crate::state::lemma_models_of(cs@);
                                assert forall|j: int|
                                    0 <= j < cs@.len() implies models_of(cs@)[j] == ms.update(
                                    idx as int,
                                    m2,
                                )[j] by {
                                    assert(cs@[j]@ == cs0.update(idx as int, child2)[j]@);
                                }
                                assert(models_of(cs@) =~= ms.update(idx as int, m2));
                            }
                            (Value::Struct(cs), Ok(()))
                        }
                    },
                    Err(e) => {
                        cs.insert(idx, child2);
                        proof {
                            assert(child2@ == ms[idx as int]);
                            assert(cs@ =~= cs0.update(idx as int, child2));
                            crate::state::lemma_models_of(cs@);
                            assert forall|j: int|
                                0 <= j < cs@.len() implies models_of(cs@)[j] == ms[j] by {
                                assert(cs@[j]@ == cs0.update(idx as int, child2)[j]@);
                            }
                            assert(models_of(cs@) =~= ms);
                        }
                        (Value::Struct(cs), Err(e))
                    },
                }
            },
            other => (other, Err(crate::Error::Decode)),
        }
    } else {
        match v {
            Value::U64(x) => {
                let (y, r) = u64_call(x, tag, bytes);
                (Value::U64(y), r)
            },
            Value::Table(m) => {
                let (m2, r) = table_call(m, ctx, tag, bytes);
                (Value::Table(m2), r)
            },
            Value::Struct(cs) => (Value::Struct(cs), Err(crate::Error::Decode)),
        }
    }
}

/// Runs a method of an integer leaf: `increment` (method tag zero, no
/// arguments) or `put` (method tag one, eight bytes of argument).
#[verifier::spinoff_prover]
fn u64_call(x: u64, tag: u8, bytes: &Vec<u8>) -> (res: (u64, crate::Result<()>))
    requires
        bytes@.len() >= 1,
        bytes@[0] == tag,
        tag >= 128,
    ensures
        match spec_dispatch(ValModel::U64(x), None, bytes@) {
            Ok(m2) => res.1 is Ok && ValModel::U64(res.0) == m2,
            Err(e) => res.1 == Err::<(), crate::Error>(e) && res.0 == x,
        },
        forall|sgn: Option<Seq<u8>>|
            #[trigger] spec_dispatch(ValModel::U64(x), sgn, bytes@) == spec_dispatch(
                ValModel::U64(x),
                None,
                bytes@,
            ),
{
    let ghost rest_g = bytes@.subrange(1, bytes@.len() as int);
    let method = tag - 128;
    if method == 0 {
        if bytes.len() != 1 {
            (x, Err(crate::Error::Decode))
        } else if x == u64::MAX {
            (x, Err(crate::Error::Coins))
        } else {
            (x + 1, Ok(()))
        }
    } else if method == 1 {
        if bytes.len() != 9 {
            (x, Err(crate::Error::Decode))
        } else {
            let y = match decode_u64(bytes, 1) {
                Ok(y) => y,
                Err(e) => {
                    return (x, Err(e));
                },
            };
            proof {
                assert(bytes@.subrange(1, 9) =~= rest_g);
                crate::codec::lemma_u64_round_trip(y);
            }
            (y, Ok(()))
        }
    } else {
        (x, Err(crate::Error::Decode))
    }
}

/// Runs a method of a collection leaf: `transfer` (method tag zero, carrying
/// the length-prefixed recipient and eight bytes of amount), which requires
/// an authenticated caller.
#[verifier::rlimit(100)]
#[verifier::spinoff_prover]
fn table_call(m: StateMap, ctx: &Context, tag: u8, bytes: &Vec<u8>) -> (res: (
    StateMap,
    crate::Result<()>,
))
    requires
        entries_unique(m@),
        bytes@.len() >= 1,
        bytes@[0] == tag,
        tag >= 128,
    ensures
        match spec_dispatch(ValModel::Table(m@), ctx.signer_addr(), bytes@) {
            Ok(m2) => res.1 is Ok && ValModel::Table(res.0@) == m2,
            Err(e) => res.1 == Err::<(), crate::Error>(e) && res.0@ == m@,
        },
{
    let mut m = m;
    let ghost rest_g = bytes@.subrange(1, bytes@.len() as int);
    if tag != 128 {
        return (m, Err(crate::Error::Decode));
    }
    let (to, npos) = match decode_bytes(bytes, 1) {
        Ok(p) => p,
        Err(_) => {
            proof {
                if rest_g.len() >= 4 {
                    assert(rest_g.subrange(0, 4) =~= bytes@.subrange(1, 5));
                    assert(1 + 4 + u32_of(bytes@.subrange(1, 5)) > bytes@.len());
                }
            }
            return (m, Err(crate::Error::Decode));
        },
    };
    proof {
        assert(rest_g.subrange(0, 4) =~= bytes@.subrange(1, 5));
        assert(rest_g.subrange(4, 4 + to@.len() as int) =~= bytes@.subrange(5, npos as int));
    }
    if bytes.len() - npos != 8 {
        return (m, Err(crate::Error::Decode));
    }
    let amount = match decode_u64(bytes, npos) {
        Ok(a) => a,
        Err(e) => {
            return (m, Err(e));
        },
    };
    proof {
        assert(rest_g.subrange(4 + to@.len() as int, rest_g.len() as int) =~= bytes@.subrange(
            npos as int,
            npos + 8,
        ));
        crate::codec::lemma_u64_round_trip(amount);
    }
    match ctx.resolve() {
        Some(s) => match &s.signer {
            Some(a) => {
                let r = m.transfer(a.bytes().as_slice(), to.as_slice(), amount);
                (m, r)
            },
            None => (m, Err(crate::Error::Signer)),
        },
        None => (m, Err(crate::Error::Signer)),
    }
}

/// The callable surface of a component: one envelope in, an effect on the
/// component's abstract state out, exactly as the component's `step` function
/// says, and no effect at all on failure.
pub trait Call: View + Sized {
    /// The invariant dispatch relies on and preserves.
    spec fn inv(&self) -> bool;

    /// What one call does to the component's abstract state.
    spec fn step(pre: Self::V, signer: Option<Seq<u8>>, call: Seq<u8>) -> core::result::Result<
        Self::V,
        crate::Error,
    >;

    /// Applies one call envelope.
    fn call(&mut self, ctx: &mut Context, call: &Vec<u8>) -> (r: crate::Result<()>)
        requires
            old(self).inv(),
        ensures
            final(self).inv(),
            match Self::step(old(self)@, old(ctx).signer_addr(), call@) {
                Ok(next) => r is Ok && final(self)@ == next,
                Err(e) => r == Err::<(), crate::Error>(e) && final(self)@ == old(self)@,
            },
    ;
}

impl Call for Value {
    open spec fn inv(&self) -> bool {
        model_wf(self@)
    }

    open spec fn step(pre: ValModel, signer: Option<Seq<u8>>, call: Seq<u8>) -> core::result::Result<
        ValModel,
        crate::Error,
    > {
        spec_dispatch(pre, signer, call)
    }

    fn call(&mut self, ctx: &mut Context, call: &Vec<u8>) -> (r: crate::Result<()>)
        ensures
            final(ctx)@ == old(ctx)@,
    {
        let mut taken = Value::U64(0);
        core::mem::swap(self, &mut taken);
        let (next, r) = dispatch_call(taken, ctx, call);
        *self = next;
        r
    }
}


/// Dispatch routes one field selector exactly: the envelope byte `i` in
/// front of inner bytes runs the inner envelope against child `i` and only
/// child `i`, and writes the result back at position `i`; a selector with no
/// matching field is rejected with a decode error.
pub proof fn lemma_field_forwarding(
    ms: Seq<ValModel>,
    signer: Option<Seq<u8>>,
    index: u8,
    inner: Seq<u8>,
)
    requires
        index < 128,
    ensures
        (index as int) < ms.len() ==> spec_dispatch(
            ValModel::Struct(ms),
            signer,
            seq![index] + inner,
        ) == (match spec_dispatch(ms[index as int], signer, inner) {
            Ok(c2) => if enc_of(c2).len() <= u32::MAX {
                Ok::<ValModel, crate::Error>(ValModel::Struct(ms.update(index as int, c2)))
            } else {
                Err(crate::Error::Coins)
            },
            Err(e) => Err(e),
        }),
        (index as int) >= ms.len() ==> spec_dispatch(ValModel::Struct(ms), signer, seq![index]
            + inner) == Err::<ValModel, crate::Error>(crate::Error::Decode),
{
    let bytes = seq![index] + inner;
    assert(bytes[0] == index);
    assert(bytes.subrange(1, bytes.len() as int) =~= inner);
}

/// A tag that selects nothing — a method tag on a struct, a field tag on a
/// leaf, a method a node does not have, or an empty envelope — is rejected
/// with a decode error and has no effect.
pub proof fn lemma_unknown_tag_rejected(m: ValModel, signer: Option<Seq<u8>>, bytes: Seq<u8>)
    ensures
        bytes.len() == 0 ==> spec_dispatch(m, signer, bytes) == Err::<ValModel, crate::Error>(
            crate::Error::Decode,
        ),
        bytes.len() > 0 && bytes[0] < 128 && !(m is Struct) ==> spec_dispatch(m, signer, bytes)
            == Err::<ValModel, crate::Error>(crate::Error::Decode),
        bytes.len() > 0 && bytes[0] >= 128 && m is Struct ==> spec_dispatch(m, signer, bytes)
            == Err::<ValModel, crate::Error>(crate::Error::Decode),
        bytes.len() > 0 && bytes[0] >= 130 ==> spec_dispatch(m, signer, bytes) == Err::<
            ValModel,
            crate::Error,
        >(crate::Error::Decode),
{
}


/// Replacing one child with one that conforms to the same child schema keeps
/// the child list conforming.
proof fn lemma_children_conform_update(ms: Seq<ValModel>, ss: Seq<Shape>, i: int, c: ValModel)
    requires
        children_conform(ms, ss),
        ms.len() == ss.len(),
        0 <= i < ms.len(),
        conforms(c, ss[i]),
    ensures
        children_conform(ms.update(i, c), ss),
    decreases ss,
{
    let t = ms.update(i, c);
    if ss.len() > 0 {
        if i == 0 {
            assert(t[0] == c);
            assert(t.skip(1) =~= ms.skip(1));
        } else {
            assert(t[0] == ms[0]);
            assert(t.skip(1) =~= ms.skip(1).update(i - 1, c));
            assert(ss.skip(1)[i - 1] == ss[i]);
            lemma_children_conform_update(ms.skip(1), ss.skip(1), i - 1, c);
        }
    }
}

/// Dispatch keeps the schema: a successful call leaves a value that conforms
/// to the same shape the value before it did — methods change leaf contents,
/// never the structure.
pub proof fn lemma_dispatch_conforms(
    m: ValModel,
    shape: Shape,
    signer: Option<Seq<u8>>,
    bytes: Seq<u8>,
)
    requires
        conforms(m, shape),
    ensures
        spec_dispatch(m, signer, bytes) matches Ok(m2) ==> conforms(m2, shape),
    decreases bytes.len(),
{
    if spec_dispatch(m, signer, bytes) is Ok && bytes.len() > 0 {
        let tag = bytes[0];
        let rest = bytes.subrange(1, bytes.len() as int);
        if tag < 128 {
            match m {
                ValModel::Struct(ms) => {
                    let ss = shape->Struct_0;
                    crate::state::lemma_children_conform_index(ms, ss@, tag as int);
                    lemma_dispatch_conforms(ms[tag as int], ss@[tag as int], signer, rest);
                    let c2 = spec_dispatch(ms[tag as int], signer, rest)->Ok_0;
                    lemma_children_conform_update(ms, ss@, tag as int, c2);
                },
                _ => {},
            }
        }
    }
}

} // verus!
