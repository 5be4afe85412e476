//! The state layer: maps a structured value onto a hierarchical key/value
//! store. A value is a tree of leaves (integers, keyed collections) and
//! structs; every node owns the keyspace below its own prefix, each struct
//! child under one extra prefix byte derived from its declared position.
//! `flush` persists a value and returns its wire encoding; `create` rebuilds
//! the value from the encoding and the store. Field order is part of the
//! schema: it decides both prefixes and encoding order.

use vstd::prelude::*;

use crate::codec::{
    bytes_enc, decode_bytes, decode_u32, decode_u64, encode_bytes, encode_u32, encode_u64,
    lemma_u32_round_trip, lemma_u64_round_trip, u32_bytes, u32_of, u64_bytes, u64_of,
};
use crate::store::{clone_bytes, Read, Store};

verus! {

/// The schema of a structured value: what kind of node stands at each
/// position of the tree. Struct children are identified by their position in
/// declared order; that order is load-bearing for both the store layout and
/// the encoding.
pub enum Shape {
    /// A 64-bit integer leaf, held entirely in the encoding.
    U64,
    /// A keyed collection leaf: values live in the sub-store, keys in the
    /// encoding.
    Table,
    /// A structured value with the given children, in declared order.
    Struct(Vec<Shape>),
}

/// A keyed collection of 64-bit values, persisted under its own prefix.
pub struct StateMap {
    pub(crate) entries: Vec<(Vec<u8>, u64)>,
}

/// The model of an entry list: each key as the byte sequence it holds.
pub open spec fn entries_model(s: Seq<(Vec<u8>, u64)>) -> Seq<(Seq<u8>, u64)> {
    s.map_values(|e: (Vec<u8>, u64)| (e.0@, e.1))
}

impl View for StateMap {
    type V = Seq<(Seq<u8>, u64)>;

    closed spec fn view(&self) -> Seq<(Seq<u8>, u64)> {
        entries_model(self.entries@)
    }
}

/// A collection's view is the model of its entry list.
pub(crate) broadcast proof fn lemma_state_map_view(m: StateMap)
    ensures
        #[trigger] m@ == entries_model(m.entries@),
{
}

/// A structured value: the live, in-memory form of one state tree.
pub enum Value {
    U64(u64),
    Table(StateMap),
    Struct(Vec<Value>),
}

/// The mathematical model of a structured value.
pub ghost enum ValModel {
    U64(u64),
    Table(Seq<(Seq<u8>, u64)>),
    Struct(Seq<ValModel>),
}

/// The model of a sequence of child values.
pub open spec fn models_of(s: Seq<Value>) -> Seq<ValModel>
    decreases s,
{
    if s.len() == 0 {
        Seq::empty()
    } else {
        models_of(s.drop_last()).push(s.last().view())
    }
}

impl View for Value {
    type V = ValModel;

    open spec fn view(&self) -> ValModel
        decreases self,
    {
        match self {
            Value::U64(x) => ValModel::U64(*x),
            Value::Table(m) => ValModel::Table(m@),
            Value::Struct(cs) => ValModel::Struct(models_of(cs@)),
        }
    }
}

/// `k` is among the keys of the entry list.
pub open spec fn key_in(es: Seq<(Seq<u8>, u64)>, k: Seq<u8>) -> bool {
    exists|i: int| 0 <= i < es.len() && es[i].0 == k
}

/// Entry keys are pairwise distinct.
pub open spec fn entries_unique(es: Seq<(Seq<u8>, u64)>) -> bool {
    forall|i: int, j: int| 0 <= i < j < es.len() ==> es[i].0 != es[j].0
}

/// Well-formedness of the children of a struct: each child is well-formed and
/// its encoding fits in one length-prefixed segment.
pub open spec fn children_wf(ms: Seq<ValModel>) -> bool
    decreases ms,
{
    if ms.len() == 0 {
        true
    } else {
        &&& model_wf(ms[0])
        &&& enc_of(ms[0]).len() <= u32::MAX
        &&& children_wf(ms.skip(1))
    }
}

/// Well-formedness of a structured value: collection keys are distinct and
/// everything fits the wire format's length prefixes. Constructors establish
/// this and every operation preserves it.
pub open spec fn model_wf(m: ValModel) -> bool
    decreases m,
{
    match m {
        ValModel::U64(_) => true,
        ValModel::Table(es) => {
            &&& es.len() <= u32::MAX
            &&& entries_unique(es)
            &&& forall|i: int| 0 <= i < es.len() ==> (#[trigger] es[i]).0.len() <= u32::MAX
        },
        ValModel::Struct(ms) => ms.len() <= 128 && children_wf(ms),
    }
}

/// The value conforms to the schema.
pub open spec fn conforms(m: ValModel, shape: Shape) -> bool
    decreases shape,
{
    match shape {
        Shape::U64 => m is U64,
        Shape::Table => m is Table,
        Shape::Struct(ss) => m matches ValModel::Struct(ms) && ms.len() == ss@.len()
            && children_conform(ms, ss@),
    }
}

/// Each child conforms to the matching child schema.
pub open spec fn children_conform(ms: Seq<ValModel>, ss: Seq<Shape>) -> bool
    decreases ss,
{
    if ss.len() == 0 || ms.len() == 0 {
        true
    } else {
        conforms(ms[0], ss[0]) && children_conform(ms.skip(1), ss.skip(1))
    }
}

/// The wire encoding of a collection's keys, in entry order.
pub open spec fn keys_enc(es: Seq<(Seq<u8>, u64)>) -> Seq<u8>
    decreases es,
{
    if es.len() == 0 {
        Seq::empty()
    } else {
        bytes_enc(es[0].0) + keys_enc(es.skip(1))
    }
}

/// The wire encoding of a struct's children: one length-prefixed segment per
/// child, in declared order.
pub open spec fn children_enc(ms: Seq<ValModel>) -> Seq<u8>
    decreases ms,
{
    if ms.len() == 0 {
        Seq::empty()
    } else {
        bytes_enc(enc_of(ms[0])) + children_enc(ms.skip(1))
    }
}

/// The one wire encoding of a structured value.
pub open spec fn enc_of(m: ValModel) -> Seq<u8>
    decreases m,
{
    match m {
        ValModel::U64(x) => u64_bytes(x),
        ValModel::Table(es) => u32_bytes(es.len() as u32) + keys_enc(es),
        ValModel::Struct(ms) => children_enc(ms),
    }
}

/// The store writes of a collection: each value under the collection's
/// prefix followed by the entry key.
pub open spec fn entries_writes(es: Seq<(Seq<u8>, u64)>, prefix: Seq<u8>) -> Map<Seq<u8>, Seq<u8>>
    decreases es,
{
    if es.len() == 0 {
        Map::empty()
    } else {
        entries_writes(es.skip(1), prefix).insert(prefix + es[0].0, u64_bytes(es[0].1))
    }
}

/// The store writes of a struct's children, child `i` under `prefix` extended
/// by the byte `idx + i`.
pub open spec fn children_writes(ms: Seq<ValModel>, prefix: Seq<u8>, idx: nat) -> Map<
    Seq<u8>,
    Seq<u8>,
>
    decreases ms,
{
    if ms.len() == 0 {
        Map::empty()
    } else {
        writes_of(ms[0], prefix.push(idx as u8)).union_prefer_right(
            children_writes(ms.skip(1), prefix, idx + 1),
        )
    }
}

/// Everything a value persists to the store when flushed at `prefix`.
pub open spec fn writes_of(m: ValModel, prefix: Seq<u8>) -> Map<Seq<u8>, Seq<u8>>
    decreases m,
{
    match m {
        ValModel::U64(_) => Map::empty(),
        ValModel::Table(es) => entries_writes(es, prefix),
        ValModel::Struct(ms) => children_writes(ms, prefix, 0),
    }
}

/// The models of a value list are the values' models, position by position.
pub proof fn lemma_models_of(s: Seq<Value>)
    ensures
        models_of(s).len() == s.len(),
        forall|i: int| 0 <= i < s.len() ==> models_of(s)[i] == #[trigger] s[i]@,
    decreases s,
{
    if s.len() > 0 {
        lemma_models_of(s.drop_last());
        assert(models_of(s) == models_of(s.drop_last()).push(s.last()@));
        assert(models_of(s).len() == s.len());
        assert forall|i: int| 0 <= i < s.len() implies models_of(s)[i] == #[trigger] s[i]@ by {
            assert(models_of(s.drop_last()).len() == s.len() - 1);
            if i < s.len() - 1 {
                assert(s.drop_last()[i] == s[i]);
                assert(models_of(s.drop_last()).push(s.last()@)[i] == models_of(
                    s.drop_last(),
                )[i]);
            } else {
                assert(s.last() == s[i]);
                assert(models_of(s.drop_last()).push(s.last()@)[i] == s.last()@);
            }
        }
    }
}

/// Every child of a well-formed struct is itself well-formed, with an
/// encoding that fits one segment.
pub proof fn lemma_children_wf_index(ms: Seq<ValModel>, i: int)
    requires
        children_wf(ms),
        0 <= i < ms.len(),
    ensures
        model_wf(ms[i]),
        enc_of(ms[i]).len() <= u32::MAX,
    decreases ms,
{
    if i > 0 {
        lemma_children_wf_index(ms.skip(1), i - 1);
    }
}

/// Every child of a conforming struct conforms to the matching child schema.
pub proof fn lemma_children_conform_index(ms: Seq<ValModel>, ss: Seq<Shape>, i: int)
    requires
        children_conform(ms, ss),
        ms.len() == ss.len(),
        0 <= i < ss.len(),
    ensures
        conforms(ms[i], ss[i]),
    decreases ss,
{
    if i > 0 {
        lemma_children_conform_index(ms.skip(1), ss.skip(1), i - 1);
    }
}

/// The key encoding grows at the back by the last entry's segment.
pub proof fn lemma_keys_enc_back(es: Seq<(Seq<u8>, u64)>)
    requires
        es.len() > 0,
    ensures
        keys_enc(es) == keys_enc(es.drop_last()) + bytes_enc(es.last().0),
    decreases es,
{
    if es.len() == 1 {
        assert(es.drop_last() =~= Seq::<(Seq<u8>, u64)>::empty());
        assert(es.skip(1) =~= Seq::<(Seq<u8>, u64)>::empty());
        assert(keys_enc(es) =~= keys_enc(es.drop_last()) + bytes_enc(es.last().0));
    } else {
        lemma_keys_enc_back(es.skip(1));
        assert(es.drop_last().skip(1) =~= es.skip(1).drop_last());
        assert(es.drop_last()[0] == es[0]);
        assert(es.skip(1).last() == es.last());
        assert(keys_enc(es) =~= keys_enc(es.drop_last()) + bytes_enc(es.last().0));
    }
}

/// The children encoding grows at the back by the last child's segment.
pub proof fn lemma_children_enc_back(ms: Seq<ValModel>)
    requires
        ms.len() > 0,
    ensures
        children_enc(ms) == children_enc(ms.drop_last()) + bytes_enc(enc_of(ms.last())),
    decreases ms,
{
    if ms.len() == 1 {
        assert(ms.drop_last() =~= Seq::<ValModel>::empty());
        assert(ms.skip(1) =~= Seq::<ValModel>::empty());
        assert(children_enc(ms) =~= children_enc(ms.drop_last()) + bytes_enc(enc_of(ms.last())));
    } else {
        lemma_children_enc_back(ms.skip(1));
        assert(ms.drop_last().skip(1) =~= ms.skip(1).drop_last());
        assert(ms.drop_last()[0] == ms[0]);
        assert(ms.skip(1).last() == ms.last());
        assert(children_enc(ms) =~= children_enc(ms.drop_last()) + bytes_enc(enc_of(ms.last())));
    }
}

/// Extending two different keys by the same prefix keeps them different.
pub proof fn lemma_prefix_cancel(prefix: Seq<u8>, a: Seq<u8>, b: Seq<u8>)
    requires
        a != b,
    ensures
        prefix + a != prefix + b,
{
    if prefix + a == prefix + b {
        assert((prefix + a).len() == (prefix + b).len());
        assert(a =~= (prefix + a).subrange(prefix.len() as int, (prefix + a).len() as int));
        assert(b =~= (prefix + b).subrange(prefix.len() as int, (prefix + b).len() as int));
    }
}

/// Appending one entry to a collection adds one write at the back.
pub proof fn lemma_entries_writes_back(es: Seq<(Seq<u8>, u64)>, prefix: Seq<u8>)
    requires
        es.len() > 0,
        entries_unique(es),
    ensures
        entries_writes(es, prefix) == entries_writes(es.drop_last(), prefix).insert(
            prefix + es.last().0,
            u64_bytes(es.last().1),
        ),
    decreases es,
{
    if es.len() == 1 {
        assert(es.drop_last() =~= Seq::<(Seq<u8>, u64)>::empty());
        assert(es.skip(1) =~= Seq::<(Seq<u8>, u64)>::empty());
        assert(entries_writes(es, prefix) =~= entries_writes(es.drop_last(), prefix).insert(
            prefix + es.last().0,
            u64_bytes(es.last().1),
        ));
    } else {
        assert(forall|i: int, j: int|
            0 <= i < j < es.skip(1).len() ==> es.skip(1)[i].0 != es.skip(1)[j].0);
        lemma_entries_writes_back(es.skip(1), prefix);
        assert(es.drop_last().skip(1) =~= es.skip(1).drop_last());
        assert(es.drop_last()[0] == es[0]);
        assert(es.skip(1).last() == es.last());
        assert(es[0].0 != es.last().0);
        lemma_prefix_cancel(prefix, es[0].0, es.last().0);
        assert(entries_writes(es, prefix) =~= entries_writes(es.drop_last(), prefix).insert(
            prefix + es.last().0,
            u64_bytes(es.last().1),
        ));
    }
}

/// Appending one child adds its writes at the back.
pub proof fn lemma_children_writes_back(ms: Seq<ValModel>, prefix: Seq<u8>, idx: nat)
    requires
        ms.len() > 0,
    ensures
        children_writes(ms, prefix, idx) == children_writes(
            ms.drop_last(),
            prefix,
            idx,
        ).union_prefer_right(writes_of(ms.last(), prefix.push((idx + ms.len() - 1) as u8))),
    decreases ms,
{
    if ms.len() == 1 {
        assert(ms.drop_last() =~= Seq::<ValModel>::empty());
        assert(ms.skip(1) =~= Seq::<ValModel>::empty());
        assert(children_writes(Seq::<ValModel>::empty(), prefix, idx)
            == Map::<Seq<u8>, Seq<u8>>::empty());
        assert(children_writes(Seq::<ValModel>::empty(), prefix, idx + 1)
            == Map::<Seq<u8>, Seq<u8>>::empty());
        assert(ms.last() == ms[0]);
        assert((idx + ms.len() - 1) as u8 == idx as u8);
        assert(children_writes(ms, prefix, idx) =~= children_writes(
            ms.drop_last(),
            prefix,
            idx,
        ).union_prefer_right(writes_of(ms.last(), prefix.push((idx + ms.len() - 1) as u8))));
    } else {
        lemma_children_writes_back(ms.skip(1), prefix, idx + 1);
        assert(ms.drop_last().skip(1) =~= ms.skip(1).drop_last());
        assert(ms.drop_last()[0] == ms[0]);
        assert(ms.skip(1).last() == ms.last());
        assert(children_writes(ms, prefix, idx) =~= children_writes(
            ms.drop_last(),
            prefix,
            idx,
        ).union_prefer_right(writes_of(ms.last(), prefix.push((idx + ms.len() - 1) as u8))));
    }
}

/// Persists a structured value: writes every collection entry of the tree
/// under its node's prefix, in declared order, and returns the value's wire
/// encoding. Flushing never fails: the encoding is total on live values.
#[verifier::loop_isolation(false)]
pub fn flush<S: Store>(v: Value, store: &mut S, prefix: &Vec<u8>) -> (r: crate::Result<Vec<u8>>)
    requires
        model_wf(v@),
    ensures
        r is Ok,
        r matches Ok(enc) ==> enc@ == enc_of(v@),
        final(store).contents() == old(store).contents().union_prefer_right(
            writes_of(v@, prefix@),
        ),
    decreases v,
{
    let ghost v0 = v;
    let ghost base0 = store.contents();
    match v {
        Value::U64(x) => {
            let mut enc: Vec<u8> = Vec::new();
            encode_u64(x, &mut enc);
            proof {
                assert(store.contents() =~= base0.union_prefer_right(writes_of(v0@, prefix@)));
            }
            Ok(enc)
        },
        Value::Table(m) => {
            let ghost es = m@;
            let mut enc: Vec<u8> = Vec::new();
            encode_u32(m.entries.len() as u32, &mut enc);
            let mut i: usize = 0;
            while i < m.entries.len()
                invariant
                    i <= m.entries@.len(),
                    es == m@,
                    model_wf(ValModel::Table(es)),
                    es.len() == m.entries@.len(),
                    forall|j: int|
                        0 <= j < es.len() ==> es[j] == ((#[trigger] m.entries@[j]).0@,
                        m.entries@[j].1),
                    enc@ == u32_bytes(es.len() as u32) + keys_enc(es.subrange(0, i as int)),
                    store.contents() == base0.union_prefer_right(
                        entries_writes(es.subrange(0, i as int), prefix@),
                    ),
                decreases m.entries@.len() - i,
            {
                let ghost pre = es.subrange(0, i as int);
                let key = clone_bytes(m.entries[i].0.as_slice());
                let mut prefixed = clone_bytes(prefix.as_slice());
                crate::codec::append_bytes(&mut prefixed, key.as_slice());
                let mut amount: Vec<u8> = Vec::new();
                encode_u64(m.entries[i].1, &mut amount);
                let _ = store.put(prefixed, amount);
                encode_bytes(&key, &mut enc);
                i += 1;
                proof {
                    let post = es.subrange(0, i as int);
                    assert(post.drop_last() =~= pre);
                    assert(post.last() == es[i - 1]);
                    assert(forall|a: int, b: int| 0 <= a < b < post.len() ==> post[a].0 != post[b].0);
                    lemma_keys_enc_back(post);
                    lemma_entries_writes_back(post, prefix@);
                    assert(store.contents() =~= base0.union_prefer_right(
                        entries_writes(post, prefix@),
                    ));
                }
            }
            proof {
                assert(es.subrange(0, es.len() as int) =~= es);
            }
            Ok(enc)
        },
        Value::Struct(cs) => {
            let ghost ms = models_of(cs@);
            let ghost cs0 = cs@;
            proof {
                lemma_models_of(cs0);
            }
            let mut children = cs;
            let mut enc: Vec<u8> = Vec::new();
            let mut i: usize = 0;
            let n = children.len();
            while i < n
                invariant
                    i <= n,
                    n == cs0.len(),
                    children@ == cs0.skip(i as int),
                    ms == models_of(cs0),
                    ms.len() == cs0.len(),
                    forall|j: int| 0 <= j < cs0.len() ==> ms[j] == #[trigger] cs0[j]@,
                    model_wf(ValModel::Struct(ms)),
                    v0 is Struct,
                    v0->Struct_0@ == cs0,
                    enc@ == children_enc(ms.subrange(0, i as int)),
                    store.contents() == base0.union_prefer_right(
                        children_writes(ms.subrange(0, i as int), prefix@, 0),
                    ),
                decreases n - i,
            {
                let ghost pre = ms.subrange(0, i as int);
                let child = children.remove(0);
                proof {
                    assert(child == cs0[i as int]);
                    assert(decreases_to!(v0 => v0->Struct_0));
                    assert(decreases_to!(v0->Struct_0 => v0->Struct_0@));
                    assert(decreases_to!(v0->Struct_0@ => v0->Struct_0@[i as int]));
                    assert(v0->Struct_0@[i as int] == child);
                    lemma_children_wf_index(ms, i as int);
                }
                let mut child_prefix = clone_bytes(prefix.as_slice());
                child_prefix.push(i as u8);
                let ghost store_pre = store.contents();
                let child_enc = match flush(child, store, &child_prefix) {
                    Ok(e) => e,
                    Err(e) => {
                        return Err(e);
                    },
                };
                encode_bytes(&child_enc, &mut enc);
                i += 1;
                proof {
                    let post = ms.subrange(0, i as int);
                    assert(post.drop_last() =~= pre);
                    assert(post.last() == ms[i - 1]);
                    lemma_children_enc_back(post);
                    lemma_children_writes_back(post, prefix@, 0);
                    assert(children@ =~= cs0.skip(i as int));
                    assert(store.contents() =~= base0.union_prefer_right(
                        children_writes(post, prefix@, 0),
                    ));
                }
            }
            proof {
                assert(ms.subrange(0, ms.len() as int) =~= ms);
            }
            Ok(enc)
        },
    }
}

/// The schema fits the machine limits the dispatcher and the store layout
/// assume: at most 128 children per struct, at every level.
pub open spec fn shape_wf(shape: Shape) -> bool
    decreases shape,
{
    match shape {
        Shape::U64 => true,
        Shape::Table => true,
        Shape::Struct(ss) => ss@.len() <= 128 && shapes_wf(ss@),
    }
}

/// Every schema in the list fits the machine limits.
pub open spec fn shapes_wf(ss: Seq<Shape>) -> bool
    decreases ss,
{
    if ss.len() == 0 {
        true
    } else {
        shape_wf(ss[0]) && shapes_wf(ss.skip(1))
    }
}

/// Every schema in a well-formed list is itself well-formed.
pub proof fn lemma_shapes_wf_index(ss: Seq<Shape>, i: int)
    requires
        shapes_wf(ss),
        0 <= i < ss.len(),
    ensures
        shape_wf(ss[i]),
    decreases ss,
{
    if i > 0 {
        lemma_shapes_wf_index(ss.skip(1), i - 1);
    }
}

/// What `create` returns, as a function of the schema, the store contents,
/// the node's prefix and the encoding: `Some` exactly on well-formed input,
/// `None` where the encoding is malformed (bad length prefix, trailing bytes,
/// a repeated key) or a referenced store entry is missing or malformed.
pub open spec fn parse_value(
    shape: Shape,
    contents: Map<Seq<u8>, Seq<u8>>,
    prefix: Seq<u8>,
    enc: Seq<u8>,
) -> Option<ValModel>
    decreases shape,
{
    match shape {
        Shape::U64 => if enc.len() == 8 {
            Some(ValModel::U64(u64_of(enc)))
        } else {
            None
        },
        Shape::Table => if enc.len() < 4 {
            None
        } else {
            match parse_entries(
                u32_of(enc.subrange(0, 4)) as nat,
                contents,
                prefix,
                enc.subrange(4, enc.len() as int),
            ) {
                Some(es) => Some(ValModel::Table(es)),
                None => None,
            }
        },
        Shape::Struct(ss) => match parse_children(ss@, contents, prefix, 0, enc) {
            Some(ms) => Some(ValModel::Struct(ms)),
            None => None,
        },
    }
}

/// Parses `n` collection entries: each a length-prefixed key in the encoding
/// whose value is read from the store under the collection's prefix. Rejects
/// repeated keys, trailing bytes, and keys whose store entry is missing or
/// not eight bytes.
pub open spec fn parse_entries(
    n: nat,
    contents: Map<Seq<u8>, Seq<u8>>,
    prefix: Seq<u8>,
    enc: Seq<u8>,
) -> Option<Seq<(Seq<u8>, u64)>>
    decreases n,
{
    if n == 0 {
        if enc.len() == 0 {
            Some(Seq::empty())
        } else {
            None
        }
    } else if enc.len() < 4 {
        None
    } else {
        let klen = u32_of(enc.subrange(0, 4)) as int;
        if 4 + klen > enc.len() {
            None
        } else {
            let k = enc.subrange(4, 4 + klen);
            let rest = enc.subrange(4 + klen, enc.len() as int);
            let skey = prefix + k;
            if contents.contains_key(skey) && contents[skey].len() == 8 {
                match parse_entries((n - 1) as nat, contents, prefix, rest) {
                    Some(es) => if key_in(es, k) {
                        None
                    } else {
                        Some(seq![(k, u64_of(contents[skey]))] + es)
                    },
                    None => None,
                }
            } else {
                None
            }
        }
    }
}

/// Parses one length-prefixed child segment per schema entry, child `i`
/// against the sub-store prefix `idx + i`; rejects trailing bytes.
pub open spec fn parse_children(
    ss: Seq<Shape>,
    contents: Map<Seq<u8>, Seq<u8>>,
    prefix: Seq<u8>,
    idx: nat,
    enc: Seq<u8>,
) -> Option<Seq<ValModel>>
    decreases ss,
{
    if ss.len() == 0 {
        if enc.len() == 0 {
            Some(Seq::empty())
        } else {
            None
        }
    } else if enc.len() < 4 {
        None
    } else {
        let clen = u32_of(enc.subrange(0, 4)) as int;
        if 4 + clen > enc.len() {
            None
        } else {
            let seg = enc.subrange(4, 4 + clen);
            let rest = enc.subrange(4 + clen, enc.len() as int);
            match parse_value(ss[0], contents, prefix.push(idx as u8), seg) {
                Some(m) => match parse_children(ss.skip(1), contents, prefix, idx + 1, rest) {
                    Some(ms) => Some(seq![m] + ms),
                    None => None,
                },
                None => None,
            }
        }
    }
}

/// What parsing accepts is well-formed: its keys are distinct and sized, and
/// its encoding is exactly the bytes it was parsed from.
#[verifier::rlimit(100)]
#[verifier::spinoff_prover]
pub proof fn lemma_parse_wf(
    shape: Shape,
    contents: Map<Seq<u8>, Seq<u8>>,
    prefix: Seq<u8>,
    enc: Seq<u8>,
    m: ValModel,
)
    requires
        shape_wf(shape),
        parse_value(shape, contents, prefix, enc) == Some(m),
    ensures
        model_wf(m),
        conforms(m, shape),
        enc_of(m) == enc,
    decreases shape, 1int,
{
    match shape {
        Shape::U64 => {
            crate::codec::lemma_u64_bytes_of(enc);
        },
        Shape::Table => {
            lemma_parse_wf_table(contents, prefix, enc, m);
        },
        Shape::Struct(ss) => {
            let ms = m->Struct_0;
            lemma_parse_children_wf(ss@, contents, prefix, 0, enc, ms);
        },
    }
}


/// The collection case of `lemma_parse_wf`, separated to keep each proof
/// within the solver's budget.
#[verifier::rlimit(100)]
#[verifier::spinoff_prover]
proof fn lemma_parse_wf_table(
    contents: Map<Seq<u8>, Seq<u8>>,
    prefix: Seq<u8>,
    enc: Seq<u8>,
    m: ValModel,
)
    requires
        parse_value(Shape::Table, contents, prefix, enc) == Some(m),
    ensures
        model_wf(m),
        conforms(m, Shape::Table),
        enc_of(m) == enc,
{
    let n = u32_of(enc.subrange(0, 4)) as nat;
    let es = m->Table_0;
    let tail = enc.subrange(4, enc.len() as int);
    assert(enc.len() >= 4);
    assert(parse_entries(n, contents, prefix, tail) == Some(es));
    lemma_parse_entries_wf(n, contents, prefix, tail, es);
    lemma_parse_entries_enc(n, contents, prefix, tail, es);
    lemma_table_enc_assemble(es, enc.subrange(0, 4), tail);
    enc.lemma_split_at(4);
}

/// A collection whose count heads the encoding and whose key list follows
/// re-encodes to exactly those bytes.
#[verifier::rlimit(100)]
#[verifier::spinoff_prover]
proof fn lemma_table_enc_assemble(es: Seq<(Seq<u8>, u64)>, head: Seq<u8>, tail: Seq<u8>)
    requires
        head.len() == 4,
        es.len() == u32_of(head),
        keys_enc(es) == tail,
    ensures
        enc_of(ValModel::Table(es)) == head + tail,
{
    assert(enc_of(ValModel::Table(es)) == u32_bytes(es.len() as u32) + keys_enc(es));
    crate::codec::lemma_u32_bytes_of(head);
}

/// What entry parsing accepts has distinct, sized keys, one per count.
#[verifier::rlimit(100)]
#[verifier::spinoff_prover]
proof fn lemma_parse_entries_wf(
    n: nat,
    contents: Map<Seq<u8>, Seq<u8>>,
    prefix: Seq<u8>,
    enc: Seq<u8>,
    es: Seq<(Seq<u8>, u64)>,
)
    requires
        parse_entries(n, contents, prefix, enc) == Some(es),
    ensures
        es.len() == n,
        entries_unique(es),
        forall|i: int| 0 <= i < es.len() ==> (#[trigger] es[i]).0.len() <= u32::MAX,
    decreases n,
{
    if n != 0 {
        let klen = u32_of(enc.subrange(0, 4)) as int;
        let k = enc.subrange(4, 4 + klen);
        let rest_enc = enc.subrange(4 + klen, enc.len() as int);
        let rest_r = parse_entries((n - 1) as nat, contents, prefix, rest_enc);
        assert(rest_r is Some);
        let rest = rest_r->0;
        assert(es == seq![(k, u64_of(contents[prefix + k]))] + rest);
        lemma_parse_entries_wf((n - 1) as nat, contents, prefix, rest_enc, rest);
        assert(es[0] == (k, u64_of(contents[prefix + k])));
        assert(forall|i: int| 1 <= i < es.len() ==> es[i] == rest[i - 1]);
        assert(entries_unique(es)) by {
            assert(!key_in(rest, k));
            assert forall|i: int, j: int| 0 <= i < j < es.len() implies es[i].0 != es[j].0 by {
                if i == 0 {
                    assert(0 <= j - 1 < rest.len() && rest[j - 1].0 == es[j].0);
                }
            }
        }
    }
}

/// What entry parsing accepts re-encodes to the bytes it was parsed from.
#[verifier::rlimit(100)]
#[verifier::spinoff_prover]
proof fn lemma_parse_entries_enc(
    n: nat,
    contents: Map<Seq<u8>, Seq<u8>>,
    prefix: Seq<u8>,
    enc: Seq<u8>,
    es: Seq<(Seq<u8>, u64)>,
)
    requires
        parse_entries(n, contents, prefix, enc) == Some(es),
    ensures
        keys_enc(es) == enc,
    decreases n,
{
    if n == 0 {
        assert(keys_enc(es) =~= enc);
    } else {
        let klen = u32_of(enc.subrange(0, 4)) as int;
        let k = enc.subrange(4, 4 + klen);
        let rest_enc = enc.subrange(4 + klen, enc.len() as int);
        let rest_r = parse_entries((n - 1) as nat, contents, prefix, rest_enc);
        assert(rest_r is Some);
        let rest = rest_r->0;
        assert(es == seq![(k, u64_of(contents[prefix + k]))] + rest);
        lemma_parse_entries_enc((n - 1) as nat, contents, prefix, rest_enc, rest);
        assert(es[0].0 == k);
        assert(es.skip(1) =~= rest);
        assert(k.len() == klen);
        crate::codec::lemma_u32_bytes_of(enc.subrange(0, 4));
        assert(bytes_enc(k) =~= enc.subrange(0, 4 + klen));
        assert(keys_enc(es) == bytes_enc(es[0].0) + keys_enc(es.skip(1)));
        assert(enc =~= enc.subrange(0, 4 + klen) + rest_enc);
        assert(keys_enc(es) =~= enc);
    }
}

/// What child parsing accepts is a well-formed, conforming child per schema
/// entry, re-encoding to the bytes it was parsed from.
#[verifier::rlimit(100)]
#[verifier::spinoff_prover]
proof fn lemma_parse_children_wf(
    ss: Seq<Shape>,
    contents: Map<Seq<u8>, Seq<u8>>,
    prefix: Seq<u8>,
    idx: nat,
    enc: Seq<u8>,
    ms: Seq<ValModel>,
)
    requires
        shapes_wf(ss),
        parse_children(ss, contents, prefix, idx, enc) == Some(ms),
    ensures
        ms.len() == ss.len(),
        children_wf(ms),
        children_conform(ms, ss),
        children_enc(ms) == enc,
    decreases ss, 0int,
{
    if ss.len() == 0 {
        assert(children_enc(ms) =~= enc);
    } else {
        let clen = u32_of(enc.subrange(0, 4)) as int;
        let seg = enc.subrange(4, 4 + clen);
        let rest_enc = enc.subrange(4 + clen, enc.len() as int);
        let m0_r = parse_value(ss[0], contents, prefix.push(idx as u8), seg);
        assert(m0_r is Some);
        let m0 = m0_r->0;
        let rest_r = parse_children(ss.skip(1), contents, prefix, idx + 1, rest_enc);
        assert(rest_r is Some);
        let rest = rest_r->0;
        assert(ms == seq![m0] + rest);
        lemma_parse_wf(ss[0], contents, prefix.push(idx as u8), seg, m0);
        lemma_parse_children_wf(ss.skip(1), contents, prefix, idx + 1, rest_enc, rest);
        assert(ms[0] == m0);
        assert(ms.skip(1) =~= rest);
        assert(enc_of(m0).len() <= u32::MAX);
        assert(children_wf(ms));
        assert(children_conform(ms, ss));
        assert(children_enc(ms) =~= enc) by {
            crate::codec::lemma_u32_bytes_of(enc.subrange(0, 4));
            assert(bytes_enc(enc_of(m0)) =~= enc.subrange(0, 4 + clen));
            assert(children_enc(ms) == bytes_enc(enc_of(ms[0])) + children_enc(ms.skip(1)));
            assert(enc =~= enc.subrange(0, 4 + clen) + rest_enc);
        }
    }
}

/// Reads `n` collection entries from the encoding suffix starting at `pos`
/// and their values from the store under `prefix`.
#[verifier::rlimit(100)]
#[verifier::spinoff_prover]
fn create_entries<S: Read>(
    n: u32,
    store: &S,
    prefix: &Vec<u8>,
    enc: &Vec<u8>,
    pos: usize,
) -> (r: crate::Result<Vec<(Vec<u8>, u64)>>)
    requires
        pos <= enc@.len(),
    ensures
        match parse_entries(
            n as nat,
            store.contents(),
            prefix@,
            enc@.subrange(pos as int, enc@.len() as int),
        ) {
            Some(es) => r matches Ok(v) && entries_model(v@) == es,
            None => r == Err::<Vec<(Vec<u8>, u64)>, crate::Error>(crate::Error::Decode),
        },
    decreases n,
{
    let ghost tail = enc@.subrange(pos as int, enc@.len() as int);
    if n == 0 {
        if pos == enc.len() {
            let empty: Vec<(Vec<u8>, u64)> = Vec::new();
            proof {
                assert(entries_model(empty@) =~= Seq::<(Seq<u8>, u64)>::empty());
            }
            Ok(empty)
        } else {
            Err(crate::Error::Decode)
        }
    } else {
        let (key, npos) = match decode_bytes(enc, pos) {
            Ok(p) => p,
            Err(_) => {
                proof {
                    if tail.len() >= 4 {
                        assert(tail.subrange(0, 4) =~= enc@.subrange(pos as int, pos + 4));
                        assert(4 + u32_of(tail.subrange(0, 4)) > tail.len());
                    }
                }
                return Err(crate::Error::Decode);
            },
        };
        let ghost klen = u32_of(tail.subrange(0, 4)) as int;
        proof {
            assert(tail.subrange(0, 4) =~= enc@.subrange(pos as int, pos + 4));
            assert(klen == key@.len());
            assert(tail.subrange(4, 4 + klen) =~= enc@.subrange(pos + 4, npos as int));
            assert(tail.subrange(4, 4 + klen) == key@);
            assert(tail.subrange(4 + klen, tail.len() as int) =~= enc@.subrange(
                npos as int,
                enc@.len() as int,
            ));
        }
        let mut skey = clone_bytes(prefix.as_slice());
        crate::codec::append_bytes(&mut skey, key.as_slice());
        let looked_up = match store.get(skey.as_slice()) {
            Ok(v) => v,
            Err(e) => {
                return Err(e);
            },
        };
        match looked_up {
            Some(val) => {
                if val.len() != 8 {
                    return Err(crate::Error::Decode);
                }
                let amount = match decode_u64(&val, 0) {
                    Ok(x) => x,
                    Err(e) => {
                        return Err(e);
                    },
                };
                proof {
                    assert(val@.subrange(0, 8) =~= val@);
                    lemma_u64_round_trip(amount);
                    assert(u64_of(store.contents()[skey@]) == amount);
                }
                let mut rest = match create_entries(n - 1, store, prefix, enc, npos) {
                    Ok(v) => v,
                    Err(e) => {
                        return Err(e);
                    },
                };
                let ghost rest_model = entries_model(rest@);
                match crate::store::find_last(&rest, key.as_slice()) {
                    Some(dup) => {
                        proof {
                            assert(rest_model[dup as int].0 == rest@[dup as int].0@);
                            assert(0 <= dup < rest_model.len() && rest_model[dup as int].0
                                == key@);
                            assert(key_in(rest_model, key@));
                        }
                        Err(crate::Error::Decode)
                    },
                    None => {
                        proof {
                            assert(!key_in(rest_model, key@)) by {
                                if key_in(rest_model, key@) {
                                    let i = choose|i: int|
                                        0 <= i < rest_model.len() && rest_model[i].0 == key@;
                                    assert(rest_model[i] == (rest@[i].0@, rest@[i].1));
                                    assert(rest@[i].0@ == key@);
                                }
                            }
                        }
                        let ghost pre = rest@;
                        rest.insert(0, (key, amount));
                        proof {
                            assert forall|i: int| 0 <= i < rest@.len() implies entries_model(
                                rest@,
                            )[i] == (seq![(key@, amount)] + rest_model)[i] by {
                                assert(entries_model(rest@)[i] == (rest@[i].0@, rest@[i].1));
                                if i > 0 {
                                    assert(rest@[i] == pre[i - 1]);
                                    assert(rest_model[i - 1] == (pre[i - 1].0@, pre[i - 1].1));
                                }
                            }
                            assert(entries_model(rest@) =~= seq![(key@, amount)] + rest_model);
                        }
                        Ok(rest)
                    },
                }
            },
            None => Err(crate::Error::Decode),
        }
    }
}

/// Reads the children of a struct, from schema position `si` on, from the
/// encoding suffix starting at `pos`, each against its own sub-store prefix.
#[verifier::rlimit(100)]
#[verifier::spinoff_prover]
fn create_children<S: Read>(
    shapes: &Vec<Shape>,
    si: usize,
    store: &S,
    prefix: &Vec<u8>,
    enc: &Vec<u8>,
    pos: usize,
) -> (r: crate::Result<Vec<Value>>)
    requires
        shapes_wf(shapes@),
        shapes@.len() <= 128,
        si <= shapes@.len(),
        pos <= enc@.len(),
    ensures
        match parse_children(
            shapes@.skip(si as int),
            store.contents(),
            prefix@,
            si as nat,
            enc@.subrange(pos as int, enc@.len() as int),
        ) {
            Some(ms) => r matches Ok(v) && models_of(v@) == ms,
            None => r == Err::<Vec<Value>, crate::Error>(crate::Error::Decode),
        },
    decreases shapes@.skip(si as int),
{
    let ghost tail = enc@.subrange(pos as int, enc@.len() as int);
    let ghost ss = shapes@.skip(si as int);
    if si == shapes.len() {
        if pos == enc.len() {
            let empty: Vec<Value> = Vec::new();
            proof {
                assert(models_of(empty@) =~= Seq::<ValModel>::empty());
            }
            Ok(empty)
        } else {
            Err(crate::Error::Decode)
        }
    } else {
        let (seg, npos) = match decode_bytes(enc, pos) {
            Ok(p) => p,
            Err(_) => {
                proof {
                    if tail.len() >= 4 {
                        assert(tail.subrange(0, 4) =~= enc@.subrange(pos as int, pos + 4));
                        assert(4 + u32_of(tail.subrange(0, 4)) > tail.len());
                    }
                }
                return Err(crate::Error::Decode);
            },
        };
        let ghost clen = u32_of(tail.subrange(0, 4)) as int;
        proof {
            assert(tail.subrange(0, 4) =~= enc@.subrange(pos as int, pos + 4));
            assert(clen == seg@.len());
            assert(tail.subrange(4, 4 + clen) =~= enc@.subrange(pos + 4, npos as int));
            assert(tail.subrange(4, 4 + clen) == seg@);
            assert(tail.subrange(4 + clen, tail.len() as int) =~= enc@.subrange(
                npos as int,
                enc@.len() as int,
            ));
            lemma_shapes_wf_index(shapes@, si as int);
            assert(ss[0] == shapes@[si as int]);
        }
        let mut child_prefix = clone_bytes(prefix.as_slice());
        child_prefix.push(si as u8);
        proof {
            assert(child_prefix@ == prefix@.push((si as nat) as u8));
            assert(decreases_to!(ss => ss[0]));
        }
        let child = match create(&shapes[si], store, &child_prefix, &seg) {
            Ok(v) => v,
            Err(e) => {
                return Err(e);
            },
        };
        proof {
            assert(shapes@.skip(si + 1) =~= ss.subrange(1, ss.len() as int));
            assert(decreases_to!(ss => ss.subrange(1, ss.len() as int)));
        }
        let mut rest = match create_children(shapes, si + 1, store, prefix, enc, npos) {
            Ok(v) => v,
            Err(e) => {
                return Err(e);
            },
        };
        let ghost rest_models = models_of(rest@);
        let ghost pre = rest@;
        rest.insert(0, child);
        proof {
            lemma_models_of(pre);
            lemma_models_of(rest@);
            assert forall|i: int| 0 <= i < rest@.len() implies models_of(rest@)[i] == (
            seq![child@] + rest_models)[i] by {
                assert(models_of(rest@)[i] == rest@[i]@);
                if i > 0 {
                    assert(rest@[i] == pre[i - 1]);
                    assert(rest_models[i - 1] == pre[i - 1]@);
                }
            }
            assert(models_of(rest@) =~= seq![child@] + rest_models);
        }
        Ok(rest)
    }
}

/// Rebuilds a structured value from its schema, its wire encoding and the
/// store below `prefix`: the inverse of `flush`. Fails with a decode error,
/// and only with one, if the encoding is malformed or a referenced store
/// entry is missing or malformed.
pub fn create<S: Read>(shape: &Shape, store: &S, prefix: &Vec<u8>, enc: &Vec<u8>) -> (r:
    crate::Result<Value>)
    requires
        shape_wf(*shape),
    ensures
        match parse_value(*shape, store.contents(), prefix@, enc@) {
            Some(m) => r matches Ok(v) && v@ == m,
            None => r == Err::<Value, crate::Error>(crate::Error::Decode),
        },
    decreases *shape,
{
    match shape {
        Shape::U64 => {
            if enc.len() != 8 {
                return Err(crate::Error::Decode);
            }
            let x = match decode_u64(enc, 0) {
                Ok(x) => x,
                Err(e) => {
                    return Err(e);
                },
            };
            proof {
                assert(enc@.subrange(0, 8) =~= enc@);
                lemma_u64_round_trip(x);
            }
            Ok(Value::U64(x))
        },
        Shape::Table => {
            let n = match decode_u32(enc, 0) {
                Ok(n) => n,
                Err(_) => {
                    return Err(crate::Error::Decode);
                },
            };
            proof {
                lemma_u32_round_trip(n);
                assert(u32_of(enc@.subrange(0, 4)) == n);
                assert(enc@.subrange(4, enc@.len() as int) =~= enc@.subrange(
                    4,
                    enc@.len() as int,
                ));
            }
            let entries = match create_entries(n, store, prefix, enc, 4) {
                Ok(v) => v,
                Err(e) => {
                    return Err(e);
                },
            };
            Ok(Value::Table(StateMap { entries }))
        },
        Shape::Struct(ss) => {
            proof {
                assert(decreases_to!(*shape => shape->Struct_0));
                assert(decreases_to!(shape->Struct_0 => shape->Struct_0@));
                assert(shapes_wf(ss@) && ss@.len() <= 128);
                assert(ss@.skip(0) =~= ss@);
                assert(enc@.subrange(0, enc@.len() as int) =~= enc@);
            }
            let children = match create_children(ss, 0, store, prefix, enc, 0) {
                Ok(v) => v,
                Err(e) => {
                    return Err(e);
                },
            };
            Ok(Value::Struct(children))
        },
    }
}


/// A schema list fits the limits exactly when each schema in it does.
pub proof fn lemma_shapes_wf_all(ss: Seq<Shape>)
    ensures
        shapes_wf(ss) <==> (forall|i: int| 0 <= i < ss.len() ==> shape_wf(#[trigger] ss[i])),
    decreases ss,
{
    if ss.len() > 0 {
        lemma_shapes_wf_all(ss.skip(1));
        assert(forall|i: int| 0 <= i < ss.skip(1).len() ==> ss.skip(1)[i] == #[trigger] ss[i + 1]);
        if shapes_wf(ss) {
            assert forall|i: int| 0 <= i < ss.len() implies shape_wf(#[trigger] ss[i]) by {
                if i > 0 {
                    assert(shape_wf(ss.skip(1)[i - 1]));
                }
            }
        }
        if forall|i: int| 0 <= i < ss.len() ==> shape_wf(#[trigger] ss[i]) {
            assert forall|i: int|
                0 <= i < ss.skip(1).len() implies shape_wf(#[trigger] ss.skip(1)[i]) by {
                assert(ss.skip(1)[i] == ss[i + 1]);
            }
        }
    }
}

/// Checks that a schema fits the machine limits the dispatcher and the store
/// layout assume: at most 128 children per struct, at every level.
#[verifier::loop_isolation(false)]
pub fn check_shape(shape: &Shape) -> (r: bool)
    ensures
        r == shape_wf(*shape),
    decreases *shape,
{
    match shape {
        Shape::U64 => true,
        Shape::Table => true,
        Shape::Struct(ss) => {
            let ghost shape0 = *shape;
            proof {
                lemma_shapes_wf_all(ss@);
            }
            if ss.len() > 128 {
                return false;
            }
            let mut i: usize = 0;
            while i < ss.len()
                invariant
                    i <= ss@.len(),
                    forall|j: int| 0 <= j < i ==> shape_wf(#[trigger] ss@[j]),
                decreases ss@.len() - i,
            {
                proof {
                    assert(decreases_to!(shape0 => shape0->Struct_0));
                    assert(decreases_to!(shape0->Struct_0 => shape0->Struct_0@));
                    assert(decreases_to!(shape0->Struct_0@ => shape0->Struct_0@[i as int]));
                }
                if !check_shape(&ss[i]) {
                    return false;
                }
                i += 1;
            }
            true
        },
    }
}

/// Layout stability: what a value writes to the store, and its encoding, are
/// functions of the value and its position alone. Two structurally identical
/// values flushed at the same prefix write identical key sets and byte
/// values, whatever stores they are flushed into.
pub proof fn lemma_layout_stability(v1: Value, v2: Value, prefix: Seq<u8>)
    requires
        v1@ == v2@,
    ensures
        writes_of(v1@, prefix) == writes_of(v2@, prefix),
        enc_of(v1@) == enc_of(v2@),
{
}

} // verus!
