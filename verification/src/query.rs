//! The query protocol: the read-only mirror of the call protocol. The same
//! tagged envelope routes through field selectors to the addressed node and
//! runs one of its query methods, returning the encoded result; the state is
//! never touched. A direct query method is terminal; a chained query method
//! returns a further-queryable node, and its envelope carries the arguments
//! followed by the nested query to run against that node.

use vstd::prelude::*;

use crate::call::tbl_get;
use crate::codec::{decode_bytes, encode_u64, u32_of, u64_bytes};
use crate::signer::SignerPlugin;
use crate::state::{ValModel, Value};

verus! {

/// What dispatching a query envelope returns. The first byte selects a
/// struct field (tags up to 0x7f) or a query method of the node reached
/// (tags from 0x80): `get` on an integer leaf; on a collection leaf,
/// `balance` (direct, tag 0x80) with a length-prefixed key, or `entry`
/// (chained, tag 0x81) with a length-prefixed key followed by the nested
/// query to run against the integer node the key addresses. Unknown tags,
/// truncated payloads and trailing bytes are decode errors.
pub open spec fn spec_query(m: ValModel, bytes: Seq<u8>) -> core::result::Result<
    Seq<u8>,
    crate::Error,
>
    decreases bytes.len(),
{
    if bytes.len() == 0 {
        Err(crate::Error::Decode)
    } else {
        let tag = bytes[0];
        let rest = bytes.subrange(1, bytes.len() as int);
        if tag < 128 {
            match m {
                ValModel::Struct(ms) => if (tag as int) < ms.len() {
                    spec_query(ms[tag as int], rest)
                } else {
                    Err(crate::Error::Decode)
                },
                _ => Err(crate::Error::Decode),
            }
        } else {
            match m {
                ValModel::U64(x) => if tag == 128 && rest.len() == 0 {
                    Ok(u64_bytes(x))
                } else {
                    Err(crate::Error::Decode)
                },
                ValModel::Table(es) => if (tag != 128 && tag != 129) || rest.len() < 4 {
                    Err(crate::Error::Decode)
                } else {
                    let klen = u32_of(rest.subrange(0, 4)) as int;
                    if 4 + klen > rest.len() {
                        Err(crate::Error::Decode)
                    } else {
                        let key = rest.subrange(4, 4 + klen);
                        if tag == 128 {
                            if 4 + klen == rest.len() {
                                Ok(u64_bytes(tbl_get(es, key)))
                            } else {
                                Err(crate::Error::Decode)
                            }
                        } else {
                            spec_query(
                                ValModel::U64(tbl_get(es, key)),
                                rest.subrange(4 + klen, rest.len() as int),
                            )
                        }
                    }
                },
                ValModel::Struct(_) => Err(crate::Error::Decode),
            }
        }
    }
}

/// Runs one query envelope against a structured value, read-only: descends
/// through field selectors and answers with the addressed node's encoded
/// result.
#[verifier::loop_isolation(false)]
pub fn query_call(v: &Value, bytes: &Vec<u8>) -> (r: crate::Result<Vec<u8>>)
    ensures
        match spec_query(v@, bytes@) {
            Ok(out) => r matches Ok(o) && o@ == out,
            Err(e) => r == Err::<Vec<u8>, crate::Error>(e),
        },
    decreases bytes@.len(),
{
    if bytes.len() == 0 {
        return Err(crate::Error::Decode);
    }
    let tag = bytes[0];
    let ghost rest_g = bytes@.subrange(1, bytes@.len() as int);
    if tag < 128 {
        match v {
            Value::Struct(cs) => {
                proof {
                    crate::state::lemma_models_of(cs@);
                }
                if (tag as usize) >= cs.len() {
                    return Err(crate::Error::Decode);
                }
                let ghost v0 = *v;
                proof {
                    assert(decreases_to!(v0 => v0->Struct_0));
                    assert(decreases_to!(v0->Struct_0 => v0->Struct_0@));
                    assert(decreases_to!(v0->Struct_0@ => v0->Struct_0@[tag as int]));
                }
                let rest = crate::call::suffix_bytes(bytes, 1);
                query_call(&cs[tag as usize], &rest)
            },
            _ => Err(crate::Error::Decode),
        }
    } else {
        match v {
            Value::U64(x) => {
                if tag == 128 && bytes.len() == 1 {
                    let mut out: Vec<u8> = Vec::new();
                    encode_u64(*x, &mut out);
                    proof {
                        assert(out@ =~= u64_bytes(*x));
                    }
                    Ok(out)
                } else {
                    Err(crate::Error::Decode)
                }
            },
            Value::Table(m) => {
                if tag != 128 && tag != 129 {
                    return Err(crate::Error::Decode);
                }
                let (key, npos) = match decode_bytes(bytes, 1) {
                    Ok(p) => p,
                    Err(_) => {
                        proof {
                            if rest_g.len() >= 4 {
                                assert(rest_g.subrange(0, 4) =~= bytes@.subrange(1, 5));
                                assert(1 + 4 + u32_of(bytes@.subrange(1, 5)) > bytes@.len());
                            }
                        }
                        return Err(crate::Error::Decode);
                    },
                };
                proof {
                    assert(rest_g.subrange(0, 4) =~= bytes@.subrange(1, 5));
                    assert(rest_g.subrange(4, 4 + key@.len() as int) =~= bytes@.subrange(
                        5,
                        npos as int,
                    ));
                }
                if tag == 128 {
                    if npos != bytes.len() {
                        return Err(crate::Error::Decode);
                    }
                    let bal = m.balance(key.as_slice());
                    let mut out: Vec<u8> = Vec::new();
                    encode_u64(bal, &mut out);
                    proof {
                        assert(out@ =~= u64_bytes(bal));
                    }
                    Ok(out)
                } else {
                    // chained: run the nested query against the entry's node
                    let sub = crate::call::suffix_bytes(bytes, npos);
                    proof {
                        assert(sub@ =~= rest_g.subrange(
                            4 + key@.len() as int,
                            rest_g.len() as int,
                        ));
                    }
                    let leaf = Value::U64(m.balance(key.as_slice()));
                    query_call(&leaf, &sub)
                }
            },
            Value::Struct(_) => Err(crate::Error::Decode),
        }
    }
}

/// The queryable surface of a component: one envelope in, the encoded answer
/// out, exactly as the component's `query_step` says, with no effect on the
/// component.
pub trait Query: View {
    /// What one query answers.
    spec fn query_step(pre: Self::V, q: Seq<u8>) -> core::result::Result<Seq<u8>, crate::Error>;

    /// Answers one query envelope.
    fn query(&self, q: &Vec<u8>) -> (r: crate::Result<Vec<u8>>)
        ensures
            match Self::query_step(self@, q@) {
                Ok(out) => r matches Ok(o) && o@ == out,
                Err(e) => r == Err::<Vec<u8>, crate::Error>(e),
            },
    ;
}

impl Query for Value {
    open spec fn query_step(pre: ValModel, q: Seq<u8>) -> core::result::Result<
        Seq<u8>,
        crate::Error,
    > {
        spec_query(pre, q)
    }

    fn query(&self, q: &Vec<u8>) -> (r: crate::Result<Vec<u8>>) {
        query_call(self, q)
    }
}

impl<T: Query> Query for SignerPlugin<T> {
    open spec fn query_step(pre: T::V, q: Seq<u8>) -> core::result::Result<Seq<u8>, crate::Error> {
        T::query_step(pre, q)
    }

    fn query(&self, q: &Vec<u8>) -> (r: crate::Result<Vec<u8>>) {
        self.inner.query(q)
    }
}

} // verus!
