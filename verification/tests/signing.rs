use orga::call::Call;
use orga::client::{CallBuilder, RecordingTransport, SignerClient, Transport};
use orga::context::Context;
use orga::math::MathResult;
use orga::query::Query;
use orga::signer::{SignerCall, SignerPlugin};
use orga::state::{StateMap, Value};
use orga::Error;

fn keypair() -> ed25519_dalek::Keypair {
    let secret = ed25519_dalek::SecretKey::from_bytes(&[7; 32]).unwrap();
    let public = ed25519_dalek::PublicKey::from(&secret);
    ed25519_dalek::Keypair { secret, public }
}

fn signed_envelope(kp: &ed25519_dalek::Keypair, call_bytes: Vec<u8>) -> SignerCall {
    let signature = ed25519_dalek::Signer::sign(kp, &call_bytes).to_bytes().to_vec();
    let pubkey = kp.public.to_bytes().to_vec();
    SignerCall {
        signature: Some(signature),
        pubkey: Some(pubkey),
        call_bytes,
    }
}

fn ledger(balances: &[(&[u8], u64)]) -> Value {
    let mut table = StateMap::new();
    for (key, amount) in balances {
        table.set_amount(key, *amount);
    }
    Value::Struct(vec![Value::U64(0), Value::Table(table)])
}

fn balances(v: &SignerPlugin<Value>) -> &StateMap {
    match &v.inner {
        Value::Struct(children) => match &children[1] {
            Value::Table(m) => m,
            _ => panic!("second field should be the balances"),
        },
        _ => panic!("the ledger should be a struct"),
    }
}

fn total_supply(plugin: &SignerPlugin<Value>, keys: &[&[u8]]) -> u64 {
    keys.iter().map(|k| balances(plugin).balance(k)).sum()
}

#[test]
fn verify_accepts_valid_and_rejects_invalid_pairs() {
    let kp = keypair();
    let envelope = signed_envelope(&kp, vec![1, 2, 3]);
    let recovered = envelope.verify().unwrap().unwrap();
    assert_eq!(recovered.bytes(), &kp.public.to_bytes().to_vec());

    // a flipped byte in the signature is rejected before anything else runs
    let mut tampered = signed_envelope(&kp, vec![1, 2, 3]);
    let mut sig = tampered.signature.take().unwrap();
    sig[0] ^= 1;
    tampered.signature = Some(sig);
    assert!(matches!(tampered.verify(), Err(Error::Signer)));

    // both absent is a valid unauthenticated call
    let unsigned = SignerCall {
        signature: None,
        pubkey: None,
        call_bytes: vec![1, 2, 3],
    };
    assert!(unsigned.verify().unwrap().is_none());

    // exactly one of the pair present is malformed
    let mut half = signed_envelope(&kp, vec![1, 2, 3]);
    half.pubkey = None;
    assert!(matches!(half.verify(), Err(Error::Signer)));
    let mut other_half = signed_envelope(&kp, vec![1, 2, 3]);
    other_half.signature = None;
    assert!(matches!(other_half.verify(), Err(Error::Signer)));
}

#[test]
fn signer_envelope_round_trips() {
    let kp = keypair();
    let envelope = signed_envelope(&kp, vec![9, 9, 9]);
    let encoded = envelope.encode();
    let decoded = SignerCall::decode(&encoded).unwrap();
    assert_eq!(decoded.signature, envelope.signature);
    assert_eq!(decoded.pubkey, envelope.pubkey);
    assert_eq!(decoded.call_bytes, vec![9, 9, 9]);

    // a stray option tag is a decode error
    assert!(matches!(SignerCall::decode(&vec![2, 0]), Err(Error::Decode)));
}

#[test]
fn signed_transfer_moves_funds_and_unsigned_fails() {
    let kp = keypair();
    let alice = kp.public.to_bytes();

    // a ledger with one funded address
    let mut app = SignerPlugin::new(ledger(&[(&alice[..], 100)]));
    let mut ctx = Context::new();
    let inner = CallBuilder::new()
        .field(1)
        .transfer_call(&b"bob".to_vec(), 30);

    // the signed call is dispatched to the transfer method
    let signed = signed_envelope(&kp, inner.clone()).encode();
    app.call(&mut ctx, &signed).unwrap();
    assert_eq!(balances(&app).balance(&alice[..]), 70);
    assert_eq!(balances(&app).balance(b"bob"), 30);
    assert_eq!(total_supply(&app, &[&alice[..], b"bob"]), 100);

    // the same call unsigned fails with an authentication error and
    // leaves both balances unchanged
    let unsigned = SignerCall {
        signature: None,
        pubkey: None,
        call_bytes: inner,
    }
    .encode();
    assert_eq!(app.call(&mut ctx, &unsigned), Err(Error::Signer));
    assert_eq!(balances(&app).balance(&alice[..]), 70);
    assert_eq!(balances(&app).balance(b"bob"), 30);
    assert_eq!(total_supply(&app, &[&alice[..], b"bob"]), 100);
}

#[test]
fn tampered_envelope_never_reaches_the_application() {
    let kp = keypair();
    let alice = kp.public.to_bytes();
    let mut app = SignerPlugin::new(ledger(&[(&alice[..], 100)]));
    let mut ctx = Context::new();

    let inner = CallBuilder::new()
        .field(1)
        .transfer_call(&b"bob".to_vec(), 30);
    let mut envelope = signed_envelope(&kp, inner);
    // the attacker redirects more funds inside the signed payload
    let last = envelope.call_bytes.len() - 1;
    envelope.call_bytes[last] = 0xff;
    let bytes = envelope.encode();

    assert_eq!(app.call(&mut ctx, &bytes), Err(Error::Signer));
    assert_eq!(balances(&app).balance(&alice[..]), 100);
    assert_eq!(balances(&app).balance(b"bob"), 0);
}

#[test]
fn client_chain_produces_envelopes_the_server_accepts() {
    let kp = keypair();
    let alice = kp.public.to_bytes();

    // client side: sign and wrap through the middleware chain
    let mut client = SignerClient::new(RecordingTransport::new(), kp.to_bytes().to_vec());
    let inner = CallBuilder::new()
        .field(1)
        .transfer_call(&b"bob".to_vec(), 25);
    client.send(inner).unwrap();
    let wire = client.into_parent();
    assert_eq!(wire.sent().len(), 1);

    // server side: the recorded wire bytes dispatch through the same
    // middleware and move the funds
    let mut app = SignerPlugin::new(ledger(&[(&alice[..], 100)]));
    let mut ctx = Context::new();
    app.call(&mut ctx, &wire.sent()[0]).unwrap();
    assert_eq!(balances(&app).balance(&alice[..]), 75);
    assert_eq!(balances(&app).balance(b"bob"), 25);
}

#[test]
fn queries_pass_through_the_signing_middleware() {
    let alice = [0xaa; 32];
    let app = SignerPlugin::new(ledger(&[(&alice[..], 75)]));
    let mut q = vec![1u8, 128];
    orga::codec::encode_bytes(&alice.to_vec(), &mut q);
    assert_eq!(app.query(&q).unwrap(), vec![0, 0, 0, 0, 0, 0, 0, 75]);
}

#[test]
fn mismatched_keypair_halves_are_caught_by_the_checked_client() {
    // a keypair whose public half is not the one derived from its secret half
    let secret = ed25519_dalek::SecretKey::from_bytes(&[7; 32]).unwrap();
    let other = ed25519_dalek::SecretKey::from_bytes(&[8; 32]).unwrap();
    let public = ed25519_dalek::PublicKey::from(&other);
    let mut mixed = secret.to_bytes().to_vec();
    mixed.extend_from_slice(&public.to_bytes());

    // the checked constructor refuses it and hands the transport back
    assert!(SignerClient::checked_new(RecordingTransport::new(), mixed.clone()).is_err());
    // a consistent keypair passes the same check
    let kp = keypair();
    assert!(SignerClient::checked_new(RecordingTransport::new(), kp.to_bytes().to_vec()).is_ok());

    // an unchecked client signs with the mixed keypair, but the server-side
    // verification rejects every envelope it produces
    let mut client = SignerClient::new(RecordingTransport::new(), mixed);
    let inner = CallBuilder::new()
        .field(1)
        .transfer_call(&b"bob".to_vec(), 1);
    client.send(inner).unwrap();
    let wire = client.into_parent();
    let alice = public.to_bytes();
    let mut app = SignerPlugin::new(ledger(&[(&alice[..], 100)]));
    let mut ctx = Context::new();
    assert_eq!(app.call(&mut ctx, &wire.sent()[0]), Err(Error::Signer));
    assert_eq!(balances(&app).balance(&alice[..]), 100);
}

#[test]
fn math_results_convert_both_ways() {
    let ok: orga::Result<u64> = MathResult::Value(5u64).into();
    assert_eq!(ok, Ok(5));
    let err: orga::Result<u64> = MathResult::Failure(Error::Coins).into();
    assert_eq!(err, Err(Error::Coins));
    let back = MathResult::from(Err::<u64, Error>(Error::Unknown));
    assert!(!back.is_ok());
    let round = MathResult::from(Ok::<u64, Error>(9));
    assert!(round.is_ok());
}
