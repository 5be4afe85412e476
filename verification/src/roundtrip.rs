//! The round-trip laws of the state layer: what `flush` writes under a
//! node's prefix, `create` finds again — parsing a value's own encoding
//! against any store that holds its writes gives the value back unchanged,
//! field for field. The proofs rest on keyspace discipline: every node owns
//! the keys below its prefix, and siblings' prefixes differ in their index
//! byte.

use vstd::prelude::*;

use crate::codec::{bytes_enc, lemma_u32_round_trip, lemma_u64_round_trip, u32_bytes, u32_of, u64_bytes, u64_of};
use crate::state::{
    children_conform, children_enc, children_wf, children_writes, conforms, entries_unique,
    entries_writes, enc_of, key_in, keys_enc, lemma_prefix_cancel, model_wf, parse_children,
    parse_entries, parse_value, Shape, ValModel, writes_of,
};

verus! {

/// The store holds every key of `w`, with `w`'s value.
pub open spec fn covers(contents: Map<Seq<u8>, Seq<u8>>, w: Map<Seq<u8>, Seq<u8>>) -> bool {
    forall|k: Seq<u8>|
        #[trigger] w.contains_key(k) ==> contents.contains_key(k) && contents[k] == w[k]
}

/// The domain and values of a collection's writes: one store entry per
/// collection entry, under the collection's prefix.
pub proof fn lemma_entries_writes_dom(es: Seq<(Seq<u8>, u64)>, prefix: Seq<u8>)
    requires
        entries_unique(es),
    ensures
        forall|k: Seq<u8>|
            #[trigger] entries_writes(es, prefix).contains_key(k) <==> exists|j: int|
                0 <= j < es.len() && k == prefix + es[j].0,
        forall|j: int|
            0 <= j < es.len() ==> entries_writes(es, prefix).contains_key(
                prefix + #[trigger] es[j].0,
            ) && entries_writes(es, prefix)[prefix + es[j].0] == u64_bytes(es[j].1),
    decreases es,
{
    if es.len() > 0 {
        assert(forall|a: int, b: int|
            0 <= a < b < es.skip(1).len() ==> es.skip(1)[a].0 != es.skip(1)[b].0);
        lemma_entries_writes_dom(es.skip(1), prefix);
        assert forall|j: int|
            0 <= j < es.len() implies entries_writes(es, prefix).contains_key(
            prefix + #[trigger] es[j].0,
        ) && entries_writes(es, prefix)[prefix + es[j].0] == u64_bytes(es[j].1) by {
            if j > 0 {
                assert(es.skip(1)[j - 1] == es[j]);
                assert(es[0].0 != es[j].0);
                lemma_prefix_cancel(prefix, es[0].0, es[j].0);
            }
        }
        assert forall|k: Seq<u8>| #[trigger]
            entries_writes(es, prefix).contains_key(k) implies exists|j: int|
            0 <= j < es.len() && k == prefix + es[j].0 by {
            if k == prefix + es[0].0 {
                assert(0 <= 0 < es.len() && k == prefix + es[0].0);
            } else {
                assert(entries_writes(es.skip(1), prefix).contains_key(k));
                let j = choose|j: int| 0 <= j < es.skip(1).len() && k == prefix + es.skip(1)[j].0;
                assert(es.skip(1)[j] == es[j + 1]);
                assert(0 <= j + 1 < es.len() && k == prefix + es[j + 1].0);
            }
        }
    }
}

/// Every key a value writes under `prefix` starts with `prefix`.
pub proof fn lemma_writes_prefixed(m: ValModel, prefix: Seq<u8>)
    ensures
        forall|k: Seq<u8>|
            #[trigger] writes_of(m, prefix).contains_key(k) ==> k.len() >= prefix.len()
                && k.subrange(0, prefix.len() as int) == prefix,
    decreases m,
{
    match m {
        ValModel::U64(_) => {},
        ValModel::Table(es) => {
            lemma_table_writes_prefixed(es, prefix);
        },
        ValModel::Struct(ms) => {
            lemma_children_writes_prefixed(ms, prefix, 0);
            assert forall|k: Seq<u8>| #[trigger]
                writes_of(m, prefix).contains_key(k) implies k.len() >= prefix.len()
                && k.subrange(0, prefix.len() as int) == prefix by {
                assert(writes_of(m, prefix) == children_writes(ms, prefix, 0));
                assert(children_writes(ms, prefix, 0).contains_key(k));
            }
        },
    }
}

/// Every key a collection writes starts with the collection's prefix.
proof fn lemma_table_writes_prefixed(es: Seq<(Seq<u8>, u64)>, prefix: Seq<u8>)
    ensures
        forall|k: Seq<u8>|
            #[trigger] entries_writes(es, prefix).contains_key(k) ==> k.len() >= prefix.len()
                && k.subrange(0, prefix.len() as int) == prefix,
    decreases es,
{
    if es.len() > 0 {
        lemma_table_writes_prefixed(es.skip(1), prefix);
        assert forall|k: Seq<u8>| #[trigger]
            entries_writes(es, prefix).contains_key(k) implies k.len() >= prefix.len()
            && k.subrange(0, prefix.len() as int) == prefix by {
            if k == prefix + es[0].0 {
                assert((prefix + es[0].0).subrange(0, prefix.len() as int) =~= prefix);
            } else {
                assert(entries_writes(es.skip(1), prefix).contains_key(k));
            }
        }
    }
}

/// The prefix byte of the child standing at offset `j` of a child list whose
/// first child has index `idx`.
pub open spec fn child_byte(idx: nat, j: int) -> u8 {
    (idx + j) as u8
}

/// Every key the children write starts with the parent's prefix followed by
/// one of the children's index bytes.
pub proof fn lemma_children_writes_prefixed(ms: Seq<ValModel>, prefix: Seq<u8>, idx: nat)
    ensures
        forall|k: Seq<u8>|
            #[trigger] children_writes(ms, prefix, idx).contains_key(k) ==> k.len() > prefix.len()
                && k.subrange(0, prefix.len() as int) == prefix && exists|j: int|
                0 <= j < ms.len() && k[prefix.len() as int] == #[trigger] child_byte(idx, j),
    decreases ms,
{
    if ms.len() > 0 {
        let child_prefix = prefix.push(idx as u8);
        lemma_writes_prefixed(ms[0], child_prefix);
        lemma_children_writes_prefixed(ms.skip(1), prefix, idx + 1);
        assert forall|k: Seq<u8>| #[trigger]
            children_writes(ms, prefix, idx).contains_key(k) implies k.len() > prefix.len()
            && k.subrange(0, prefix.len() as int) == prefix && exists|j: int|
            0 <= j < ms.len() && k[prefix.len() as int] == #[trigger] child_byte(idx, j) by {
            if children_writes(ms.skip(1), prefix, idx + 1).contains_key(k) {
                let j = choose|j: int|
                    0 <= j < ms.skip(1).len() && k[prefix.len() as int] == #[trigger] child_byte(
                        idx + 1,
                        j,
                    );
                assert(child_byte(idx + 1, j) == child_byte(idx, j + 1));
                assert(0 <= j + 1 < ms.len() && k[prefix.len() as int] == child_byte(idx, j + 1));
            } else {
                assert(writes_of(ms[0], child_prefix).contains_key(k));
                assert(k.len() >= child_prefix.len());
                assert(k.subrange(0, child_prefix.len() as int) == child_prefix);
                assert(k.subrange(0, prefix.len() as int) =~= child_prefix.subrange(
                    0,
                    prefix.len() as int,
                ));
                assert(child_prefix.subrange(0, prefix.len() as int) =~= prefix);
                assert(k[prefix.len() as int] == child_prefix[prefix.len() as int]);
                assert(0 <= 0 < ms.len() && k[prefix.len() as int] == child_byte(idx, 0));
            }
        }
    }
}

/// The store facts one collection step needs: the head entry's write is
/// covered, and the tail's writes stay covered.
#[verifier::rlimit(100)]
#[verifier::spinoff_prover]
proof fn lemma_covers_entries_step(
    es: Seq<(Seq<u8>, u64)>,
    contents: Map<Seq<u8>, Seq<u8>>,
    prefix: Seq<u8>,
)
    requires
        entries_unique(es),
        es.len() > 0,
        covers(contents, entries_writes(es, prefix)),
    ensures
        contents.contains_key(prefix + es[0].0),
        contents[prefix + es[0].0] == u64_bytes(es[0].1),
        covers(contents, entries_writes(es.skip(1), prefix)),
        entries_unique(es.skip(1)),
        !key_in(es.skip(1), es[0].0),
{
    lemma_entries_writes_dom(es, prefix);
    assert(entries_writes(es, prefix).contains_key(prefix + es[0].0));
    assert(forall|a: int, b: int|
        0 <= a < b < es.skip(1).len() ==> es.skip(1)[a].0 != es.skip(1)[b].0);
    lemma_entries_writes_dom(es.skip(1), prefix);
    assert forall|k: Seq<u8>| #[trigger]
        entries_writes(es.skip(1), prefix).contains_key(k) implies contents.contains_key(k)
        && contents[k] == entries_writes(es.skip(1), prefix)[k] by {
        let j = choose|j: int| 0 <= j < es.skip(1).len() && k == prefix + es.skip(1)[j].0;
        assert(es.skip(1)[j] == es[j + 1]);
        assert(entries_writes(es, prefix).contains_key(k));
        assert(entries_writes(es, prefix)[k] == u64_bytes(es[j + 1].1));
        assert(entries_writes(es.skip(1), prefix)[k] == u64_bytes(es.skip(1)[j].1));
    }
    assert(!key_in(es.skip(1), es[0].0)) by {
        if key_in(es.skip(1), es[0].0) {
            let j = choose|j: int| 0 <= j < es.skip(1).len() && es.skip(1)[j].0 == es[0].0;
            assert(es[j + 1].0 == es[0].0);
        }
    }
}

/// The head segment of an encoded key list frames the first key exactly.
#[verifier::rlimit(100)]
#[verifier::spinoff_prover]
proof fn lemma_keys_enc_head(es: Seq<(Seq<u8>, u64)>)
    requires
        es.len() > 0,
        es[0].0.len() <= u32::MAX,
    ensures
        keys_enc(es).len() >= 4 + es[0].0.len(),
        u32_of(keys_enc(es).subrange(0, 4)) == es[0].0.len(),
        keys_enc(es).subrange(4, 4 + es[0].0.len() as int) == es[0].0,
        keys_enc(es).subrange(4 + es[0].0.len() as int, keys_enc(es).len() as int) == keys_enc(
            es.skip(1),
        ),
{
    let enc = keys_enc(es);
    let k0 = es[0].0;
    assert(enc == bytes_enc(k0) + keys_enc(es.skip(1)));
    assert(enc.subrange(0, 4) =~= u32_bytes(k0.len() as u32));
    lemma_u32_round_trip(k0.len() as u32);
    assert(enc.subrange(4, 4 + k0.len() as int) =~= k0);
    assert(enc.subrange(4 + k0.len() as int, enc.len() as int) =~= keys_enc(es.skip(1)));
}

/// One parsing step of a collection: with the head segment framed, the head
/// entry's store fact at hand, and the tail already parsed, the whole key
/// list parses to the whole entry list.
#[verifier::rlimit(100)]
#[verifier::spinoff_prover]
proof fn lemma_parse_entries_cons(
    es: Seq<(Seq<u8>, u64)>,
    contents: Map<Seq<u8>, Seq<u8>>,
    prefix: Seq<u8>,
)
    requires
        es.len() > 0,
        keys_enc(es).len() >= 4 + es[0].0.len(),
        u32_of(keys_enc(es).subrange(0, 4)) == es[0].0.len(),
        keys_enc(es).subrange(4, 4 + es[0].0.len() as int) == es[0].0,
        keys_enc(es).subrange(4 + es[0].0.len() as int, keys_enc(es).len() as int) == keys_enc(
            es.skip(1),
        ),
        contents.contains_key(prefix + es[0].0),
        contents[prefix + es[0].0] == u64_bytes(es[0].1),
        !key_in(es.skip(1), es[0].0),
        parse_entries((es.len() - 1) as nat, contents, prefix, keys_enc(es.skip(1))) == Some(
            es.skip(1),
        ),
    ensures
        parse_entries(es.len(), contents, prefix, keys_enc(es)) == Some(es),
{
    lemma_u64_round_trip(es[0].1);
    assert(contents[prefix + es[0].0].len() == 8);
    assert(seq![(es[0].0, u64_of(contents[prefix + es[0].0]))] + es.skip(1) =~= es);
}

/// Round trip for one collection: parsing the key list it was flushed with,
/// against a store that holds its writes, returns exactly its entries.
#[verifier::rlimit(100)]
#[verifier::spinoff_prover]
proof fn lemma_parse_entries_flushed(
    es: Seq<(Seq<u8>, u64)>,
    contents: Map<Seq<u8>, Seq<u8>>,
    prefix: Seq<u8>,
)
    requires
        model_wf(ValModel::Table(es)),
        covers(contents, entries_writes(es, prefix)),
    ensures
        parse_entries(es.len(), contents, prefix, keys_enc(es)) == Some(es),
    decreases es,
{
    if es.len() > 0 {
        lemma_keys_enc_head(es);
        lemma_covers_entries_step(es, contents, prefix);
        assert(model_wf(ValModel::Table(es.skip(1)))) by {
            assert forall|i: int|
                0 <= i < es.skip(1).len() implies (#[trigger] es.skip(1)[i]).0.len()
                <= u32::MAX by {
                assert(es.skip(1)[i] == es[i + 1]);
            }
        }
        lemma_parse_entries_flushed(es.skip(1), contents, prefix);
        lemma_parse_entries_cons(es, contents, prefix);
    } else {
        assert(keys_enc(es).len() == 0);
    }
}

/// Round trip for a struct's children: parsing their concatenated segments
/// against a store that holds their writes returns exactly the children.
#[verifier::rlimit(80)]
proof fn lemma_parse_children_flushed(
    ms: Seq<ValModel>,
    ss: Seq<Shape>,
    contents: Map<Seq<u8>, Seq<u8>>,
    prefix: Seq<u8>,
    idx: nat,
)
    requires
        children_wf(ms),
        children_conform(ms, ss),
        ms.len() == ss.len(),
        idx + ms.len() <= 256,
        covers(contents, children_writes(ms, prefix, idx)),
    ensures
        parse_children(ss, contents, prefix, idx, children_enc(ms)) == Some(ms),
    decreases ss,
{
    if ms.len() > 0 {
        let enc = children_enc(ms);
        let e0 = enc_of(ms[0]);
        let rest = children_enc(ms.skip(1));
        assert(enc == bytes_enc(e0) + rest);
        assert(e0.len() <= u32::MAX);
        assert(enc.len() >= 4 + e0.len());
        assert(enc.subrange(0, 4) =~= u32_bytes(e0.len() as u32));
        lemma_u32_round_trip(e0.len() as u32);
        let clen = u32_of(enc.subrange(0, 4)) as int;
        assert(clen == e0.len());
        assert(enc.subrange(4, 4 + clen) =~= e0);
        assert(enc.subrange(4 + clen, enc.len() as int) =~= rest);
        let child_prefix = prefix.push(idx as u8);
        // the first child's writes are covered: no later sibling shadows them
        lemma_writes_prefixed(ms[0], child_prefix);
        lemma_children_writes_prefixed(ms.skip(1), prefix, idx + 1);
        assert forall|k: Seq<u8>| #[trigger]
            writes_of(ms[0], child_prefix).contains_key(k) implies contents.contains_key(k)
            && contents[k] == writes_of(ms[0], child_prefix)[k] by {
            assert(!children_writes(ms.skip(1), prefix, idx + 1).contains_key(k)) by {
                if children_writes(ms.skip(1), prefix, idx + 1).contains_key(k) {
                    let j = choose|j: int|
                        0 <= j < ms.skip(1).len() && k[prefix.len() as int]
                            == #[trigger] child_byte(idx + 1, j);
                    assert(k.subrange(0, child_prefix.len() as int) == child_prefix);
                    assert(k[prefix.len() as int] == child_prefix[prefix.len() as int]);
                    assert(child_prefix[prefix.len() as int] == idx as u8);
                    assert(child_byte(idx + 1, j) != idx as u8) by {
                        assert(idx + 1 + j < 256);
                        assert(idx < 256);
                    }
                }
            }
            assert(children_writes(ms, prefix, idx).contains_key(k));
            assert(children_writes(ms, prefix, idx)[k] == writes_of(ms[0], child_prefix)[k]);
        }
        lemma_parse_flushed(ms[0], ss[0], contents, child_prefix);
        // the later children's writes are covered: the union prefers them
        assert forall|k: Seq<u8>| #[trigger]
            children_writes(ms.skip(1), prefix, idx + 1).contains_key(k) implies
            contents.contains_key(k) && contents[k] == children_writes(
            ms.skip(1),
            prefix,
            idx + 1,
        )[k] by {
            assert(children_writes(ms, prefix, idx).contains_key(k));
            assert(children_writes(ms, prefix, idx)[k] == children_writes(
                ms.skip(1),
                prefix,
                idx + 1,
            )[k]);
        }
        lemma_parse_children_flushed(ms.skip(1), ss.skip(1), contents, prefix, idx + 1);
        assert(seq![ms[0]] + ms.skip(1) =~= ms);
    } else {
        assert(children_enc(ms).len() == 0);
    }
}

/// Round trip: parsing a value's own encoding, against any store that holds
/// what flushing it wrote, gives the value back unchanged. Together with the
/// contracts of `flush` and `create` this says that `create` after `flush` is
/// the identity, field for field.
pub proof fn lemma_parse_flushed(
    m: ValModel,
    shape: Shape,
    contents: Map<Seq<u8>, Seq<u8>>,
    prefix: Seq<u8>,
)
    requires
        model_wf(m),
        conforms(m, shape),
        covers(contents, writes_of(m, prefix)),
    ensures
        parse_value(shape, contents, prefix, enc_of(m)) == Some(m),
    decreases shape,
{
    match shape {
        Shape::U64 => {
            lemma_u64_round_trip(m->U64_0);
        },
        Shape::Table => {
            let es = m->Table_0;
            assert(enc_of(m) == u32_bytes(es.len() as u32) + keys_enc(es));
            assert(enc_of(m).subrange(0, 4) =~= u32_bytes(es.len() as u32));
            lemma_u32_round_trip(es.len() as u32);
            assert(enc_of(m).subrange(4, enc_of(m).len() as int) =~= keys_enc(es));
            lemma_parse_entries_flushed(es, contents, prefix);
        },
        Shape::Struct(ss) => {
            let ms = m->Struct_0;
            lemma_parse_children_flushed(ms, ss@, contents, prefix, 0);
        },
    }
}

/// Round trip at the exec level's model: what `flush` leaves in the store and
/// hands back as encoding, `create` turns into the original value again.
pub proof fn lemma_round_trip(
    m: ValModel,
    shape: Shape,
    base: Map<Seq<u8>, Seq<u8>>,
    prefix: Seq<u8>,
)
    requires
        model_wf(m),
        conforms(m, shape),
    ensures
        parse_value(
            shape,
            base.union_prefer_right(writes_of(m, prefix)),
            prefix,
            enc_of(m),
        ) == Some(m),
{
    let contents = base.union_prefer_right(writes_of(m, prefix));
    assert forall|k: Seq<u8>| #[trigger]
        writes_of(m, prefix).contains_key(k) implies contents.contains_key(k) && contents[k]
        == writes_of(m, prefix)[k] by {}
    lemma_parse_flushed(m, shape, contents, prefix);
}


} // verus!
