use orga::call::{dispatch_call, Call};
use orga::client::CallBuilder;
use orga::codec::{decode_bytes, decode_u64, encode_bytes, encode_u64};
use orga::context::{Address, Context, Signer};
use orga::query::query_call;
use orga::state::{create, flush, Shape, StateMap, Value};
use orga::store::MapStore;
use orga::Error;

fn ledger_shape() -> Shape {
    Shape::Struct(vec![Shape::U64, Shape::Table])
}

fn ledger(counter: u64, balances: &[(&[u8], u64)]) -> Value {
    let mut table = StateMap::new();
    for (key, amount) in balances {
        table.set_amount(key, *amount);
    }
    Value::Struct(vec![Value::U64(counter), Value::Table(table)])
}

fn parts(v: &Value) -> (u64, &StateMap) {
    match v {
        Value::Struct(children) => {
            let counter = match &children[0] {
                Value::U64(x) => *x,
                _ => panic!("first field should be the counter"),
            };
            let table = match &children[1] {
                Value::Table(m) => m,
                _ => panic!("second field should be the balances"),
            };
            (counter, table)
        },
        _ => panic!("the ledger should be a struct"),
    }
}

#[test]
fn codec_round_trips() {
    let mut out = Vec::new();
    encode_u64(0x0102_0304_0506_0708, &mut out);
    assert_eq!(out, vec![1, 2, 3, 4, 5, 6, 7, 8]);
    assert_eq!(decode_u64(&out, 0).unwrap(), 0x0102_0304_0506_0708);

    let mut framed = Vec::new();
    encode_bytes(&vec![9, 8, 7], &mut framed);
    assert_eq!(framed, vec![0, 0, 0, 3, 9, 8, 7]);
    let (payload, end) = decode_bytes(&framed, 0).unwrap();
    assert_eq!(payload, vec![9, 8, 7]);
    assert_eq!(end, 7);

    // a truncated frame is rejected
    assert_eq!(decode_bytes(&vec![0, 0, 0, 9, 1], 0), Err(Error::Decode));
}

#[test]
fn flush_then_create_round_trips() {
    let value = ledger(42, &[(b"alice", 100), (b"bob", 5)]);
    let mut store = MapStore::new();
    let prefix = Vec::new();
    let encoding = flush(value, &mut store, &prefix).unwrap();

    let rebuilt = create(&ledger_shape(), &store, &prefix, &encoding).unwrap();
    let (counter, balances) = parts(&rebuilt);
    assert_eq!(counter, 42);
    assert_eq!(balances.balance(b"alice"), 100);
    assert_eq!(balances.balance(b"bob"), 5);
    assert!(!balances.has_key(b"carol"));
}

#[test]
fn layout_is_stable() {
    // two structurally identical values, flushed independently, write the
    // same keys and bytes: the committed roots agree, and so do encodings
    let mut store_a = orga::merkle::MerkleStore::new();
    let mut store_b = orga::merkle::MerkleStore::new();
    let prefix = Vec::new();
    let enc_a = flush(ledger(7, &[(b"x", 1), (b"y", 2)]), &mut store_a, &prefix).unwrap();
    let enc_b = flush(ledger(7, &[(b"x", 1), (b"y", 2)]), &mut store_b, &prefix).unwrap();
    assert_eq!(enc_a, enc_b);
    store_a.commit().unwrap();
    store_b.commit().unwrap();
    assert_eq!(store_a.root_hash(), store_b.root_hash());
}

#[test]
fn create_rejects_malformed_encodings() {
    let store = MapStore::new();
    let prefix = Vec::new();
    // an integer leaf must be exactly eight bytes
    assert!(matches!(
        create(&Shape::U64, &store, &prefix, &vec![1, 2, 3]),
        Err(Error::Decode)
    ));
    // a collection encoding must carry every listed key's store entry
    let counted = vec![0, 0, 0, 1];
    assert!(matches!(
        create(&Shape::Table, &store, &prefix, &counted),
        Err(Error::Decode)
    ));
}

fn signed_ctx(address: &[u8; 32]) -> Context {
    let mut ctx = Context::new();
    ctx.add(Signer {
        signer: Some(Address::from_pubkey(&address[..])),
    });
    ctx
}

#[test]
fn dispatch_routes_to_the_addressed_method() {
    let alice = [0xaa; 32];
    let ctx = signed_ctx(&alice);

    // increment the counter field
    let value = ledger(0, &[(&alice[..], 50)]);
    let call = CallBuilder::new().field(0).increment_call();
    let (value, res) = dispatch_call(value, &ctx, &call);
    res.unwrap();
    assert_eq!(parts(&value).0, 1);

    // put a fresh value into the counter field
    let call = CallBuilder::new().field(0).put_call(900);
    let (value, res) = dispatch_call(value, &ctx, &call);
    res.unwrap();
    assert_eq!(parts(&value).0, 900);

    // transfer on the balances field moves exactly the amount
    let call = CallBuilder::new()
        .field(1)
        .transfer_call(&b"bob".to_vec(), 20);
    let (value, res) = dispatch_call(value, &ctx, &call);
    res.unwrap();
    let (counter, balances) = parts(&value);
    assert_eq!(counter, 900);
    assert_eq!(balances.balance(&alice[..]), 30);
    assert_eq!(balances.balance(b"bob"), 20);
}

#[test]
fn dispatch_rejects_unknown_tags() {
    let alice = [0xaa; 32];
    let ctx = signed_ctx(&alice);
    let value = ledger(0, &[(&alice[..], 50)]);

    // an empty envelope
    let (value, res) = dispatch_call(value, &ctx, &Vec::new());
    assert_eq!(res, Err(Error::Decode));
    // a field selector with no matching field
    let (value, res) = dispatch_call(value, &ctx, &vec![9, 128]);
    assert_eq!(res, Err(Error::Decode));
    // a method tag the node does not have
    let (value, res) = dispatch_call(value, &ctx, &vec![0, 131]);
    assert_eq!(res, Err(Error::Decode));
    // a method tag on the struct itself
    let (value, res) = dispatch_call(value, &ctx, &vec![130]);
    assert_eq!(res, Err(Error::Decode));
    // trailing bytes after a full method call
    let (value, res) = dispatch_call(value, &ctx, &vec![0, 128, 1]);
    assert_eq!(res, Err(Error::Decode));
    // and the failed attempts left the state untouched
    let (counter, balances) = parts(&value);
    assert_eq!(counter, 0);
    assert_eq!(balances.balance(&alice[..]), 50);
}

#[test]
fn dispatch_rejects_underfunded_and_unsigned_transfers() {
    let alice = [0xaa; 32];
    let value = ledger(0, &[(&alice[..], 10)]);
    let call = CallBuilder::new()
        .field(1)
        .transfer_call(&b"bob".to_vec(), 11);

    // more than the balance: a domain rule violation
    let ctx = signed_ctx(&alice);
    let (value, res) = dispatch_call(value, &ctx, &call);
    assert_eq!(res, Err(Error::Coins));

    // no authenticated caller: a signer failure, nothing moves
    let unsigned = Context::new();
    let small = CallBuilder::new().field(1).transfer_call(&b"bob".to_vec(), 1);
    let (value, res) = dispatch_call(value, &unsigned, &small);
    assert_eq!(res, Err(Error::Signer));
    let (_, balances) = parts(&value);
    assert_eq!(balances.balance(&alice[..]), 10);
    assert_eq!(balances.balance(b"bob"), 0);
}

#[test]
fn increment_saturates_with_an_error() {
    let ctx = Context::new();
    let value = Value::U64(u64::MAX);
    let (value, res) = dispatch_call(value, &ctx, &vec![128]);
    assert_eq!(res, Err(Error::Coins));
    match value {
        Value::U64(x) => assert_eq!(x, u64::MAX),
        _ => panic!("the value should still be the integer leaf"),
    }
}

#[test]
fn queries_read_without_mutating() {
    let alice = [0xaa; 32];
    let value = ledger(3, &[(&alice[..], 75)]);

    // counter: field 0, query method 0
    let got = query_call(&value, &vec![0, 128]).unwrap();
    assert_eq!(got, vec![0, 0, 0, 0, 0, 0, 0, 3]);

    // balance: field 1, query method 0 with a length-prefixed key
    let mut q = vec![1, 128];
    encode_bytes(&alice.to_vec(), &mut q);
    let got = query_call(&value, &q).unwrap();
    assert_eq!(got, vec![0, 0, 0, 0, 0, 0, 0, 75]);

    // a balance for an absent key reads as zero
    let mut q = vec![1, 128];
    encode_bytes(&b"nobody".to_vec(), &mut q);
    assert_eq!(query_call(&value, &q).unwrap(), vec![0; 8]);

    // unknown query tags are rejected
    assert_eq!(query_call(&value, &vec![129]), Err(Error::Decode));
}

#[test]
fn chained_queries_reach_the_returned_node() {
    let alice = [0xaa; 32];
    let value = ledger(3, &[(&alice[..], 75)]);

    // entry(alice) returns the balance node; the nested query reads it
    let nested = CallBuilder::new().get_query();
    let q = CallBuilder::new()
        .field(1)
        .entry_query(&alice.to_vec(), &nested);
    assert_eq!(query_call(&value, &q).unwrap(), vec![0, 0, 0, 0, 0, 0, 0, 75]);

    // a chained query must carry a nested query
    let empty_nested = CallBuilder::new()
        .field(1)
        .entry_query(&alice.to_vec(), &Vec::new());
    assert_eq!(query_call(&value, &empty_nested), Err(Error::Decode));

    // and the nested query is checked like any other envelope
    let bad = CallBuilder::new()
        .field(1)
        .entry_query(&alice.to_vec(), &vec![7]);
    assert_eq!(query_call(&value, &bad), Err(Error::Decode));
}

#[test]
fn call_trait_applies_and_restores() {
    let alice = [0xaa; 32];
    let mut value = ledger(1, &[(&alice[..], 50)]);
    let mut ctx = signed_ctx(&alice);

    let call = CallBuilder::new().field(0).increment_call();
    value.call(&mut ctx, &call).unwrap();
    assert_eq!(parts(&value).0, 2);

    let bad = vec![77];
    assert_eq!(value.call(&mut ctx, &bad), Err(Error::Decode));
    assert_eq!(parts(&value).0, 2);
}
