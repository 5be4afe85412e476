//! The signing middleware. The server side unwraps a signed envelope,
//! verifies the signature over the inner call bytes, publishes the recovered
//! address in the execution context, and forwards the inner bytes to the
//! wrapped component; an envelope with a bad signature, or with exactly one
//! of signature and public key present, is rejected before the inner
//! component sees anything. The client side signs outgoing call bytes and
//! wraps them in the same envelope.

use vstd::prelude::*;

use crate::call::Call;
use crate::state::Value;
use crate::codec::append_bytes;
use crate::context::{Address, Context, Signer};

verus! {

/// Whether a 64-byte signature passes strict EdDSA verification over a
/// message under a 32-byte public key. Relies on `ed25519_dalek`: the outcome
/// is a function of the three byte strings alone.
pub uninterp spec fn sig_valid(pubkey: Seq<u8>, msg: Seq<u8>, sig: Seq<u8>) -> bool;

/// Relies on `ed25519_dalek::PublicKey::from_bytes`,
/// `ed25519_dalek::Signature::from_bytes` and
/// `ed25519_dalek::PublicKey::verify_strict`: strict verification of `sig`
/// over `msg` under `pubkey`, rejecting malformed keys and signatures; the
/// outcome depends on the three byte strings alone.
#[verifier::external_body]
fn ed25519_verify(pubkey: &Vec<u8>, msg: &Vec<u8>, sig: &Vec<u8>) -> (r: bool)
    requires
        pubkey@.len() == 32,
        sig@.len() == 64,
    ensures
        r == sig_valid(pubkey@, msg@, sig@),
{
    let pk = match ed25519_dalek::PublicKey::from_bytes(pubkey.as_slice()) {
        Ok(pk) => pk,
        Err(_) => return false,
    };
    let sg = match ed25519_dalek::Signature::from_bytes(sig.as_slice()) {
        Ok(sg) => sg,
        Err(_) => return false,
    };
    pk.verify_strict(msg.as_slice(), &sg).is_ok()
}

/// The signature the local key produces over a message. Relies on
/// `ed25519_dalek::Keypair::sign`: EdDSA signing is deterministic, so the
/// signature is a function of the 64 keypair bytes and the message alone.
pub uninterp spec fn sig_of(keypair: Seq<u8>, msg: Seq<u8>) -> Seq<u8>;

/// Whether 64 bytes are a well-formed keypair. Relies on
/// `ed25519_dalek::Keypair::from_bytes`: acceptance is a function of the
/// bytes alone.
pub uninterp spec fn keypair_well_formed(keypair: Seq<u8>) -> bool;

/// Whether the 64 keypair bytes hold a public half that is exactly the one
/// derived from the secret half. Relies on
/// `ed25519_dalek::PublicKey::from(&SecretKey)`: the derivation is a function
/// of the bytes alone. Only such a keypair signs messages that verify under
/// its public half; `Keypair::from_bytes` itself accepts mismatched halves.
pub uninterp spec fn keypair_matches(keypair: Seq<u8>) -> bool;

/// Relies on `ed25519_dalek::SecretKey::from_bytes`,
/// `PublicKey::from(&SecretKey)` and `PublicKey::from_bytes`: checks that the
/// bytes are one accepted keypair whose public half is derived from its
/// secret half; the outcome is a function of the bytes alone.
#[verifier::external_body]
pub(crate) fn keypair_check(keypair: &Vec<u8>) -> (r: bool)
    ensures
        r == (keypair@.len() == 64 && keypair_matches(keypair@)),
{
    let kp = match ed25519_dalek::Keypair::from_bytes(keypair.as_slice()) {
        Ok(kp) => kp,
        Err(_) => return false,
    };
    let derived = ed25519_dalek::PublicKey::from(&kp.secret);
    derived.to_bytes() == kp.public.to_bytes()
}

/// Relies on `ed25519_dalek::Keypair::{from_bytes, sign}` and
/// `PublicKey::verify_strict`: a keypair is rebuilt from its 64 bytes (the
/// secret key, then the public key), signing is deterministic, and the
/// signature is 64 bytes. The last clause is the crate's documented signing
/// round trip — a signature over a keypair whose public half is the one
/// derived from its secret half passes strict verification under that public
/// half; it says nothing of a keypair with mismatched halves, which
/// `Keypair::from_bytes` also accepts.
#[verifier::external_body]
pub(crate) fn sign_message(keypair: &Vec<u8>, msg: &Vec<u8>) -> (r: crate::Result<Vec<u8>>)
    ensures
        (r is Ok) == (keypair@.len() == 64 && keypair_well_formed(keypair@)),
        r matches Err(e) ==> e == crate::Error::Signer,
        r matches Ok(s) ==> s@ == sig_of(keypair@, msg@) && s@.len() == 64,
        r matches Ok(s) ==> keypair_matches(keypair@) ==> sig_valid(
            keypair@.subrange(32, 64),
            msg@,
            s@,
        ),
{
    let kp = match ed25519_dalek::Keypair::from_bytes(keypair.as_slice()) {
        Ok(kp) => kp,
        Err(_) => return Err(crate::Error::Signer),
    };
    Ok(ed25519_dalek::Signer::sign(&kp, msg.as_slice()).to_bytes().to_vec())
}

/// The byte an option tag takes on the wire, then the payload where present.
pub open spec fn opt_enc(b: Option<Seq<u8>>) -> Seq<u8> {
    match b {
        None => seq![0u8],
        Some(p) => seq![1u8] + p,
    }
}

/// The wire form of a signed envelope: the optional 64-byte signature, the
/// optional 32-byte public key, then the inner call bytes as they stand.
pub open spec fn signer_call_enc(
    sig: Option<Seq<u8>>,
    pubkey: Option<Seq<u8>>,
    call_bytes: Seq<u8>,
) -> Seq<u8> {
    opt_enc(sig) + opt_enc(pubkey) + call_bytes
}

/// Reads one optional fixed-width field at `pos`: a zero tag for absent, a
/// one tag and `width` payload bytes for present; anything else is malformed.
pub open spec fn parse_opt(bytes: Seq<u8>, pos: int, width: int) -> Option<(Option<Seq<u8>>, int)> {
    if pos >= bytes.len() {
        None
    } else if bytes[pos] == 0 {
        Some((None, pos + 1))
    } else if bytes[pos] == 1 && pos + 1 + width <= bytes.len() {
        Some((Some(bytes.subrange(pos + 1, pos + 1 + width)), pos + 1 + width))
    } else {
        None
    }
}

/// What decoding a signed envelope yields: the optional signature, the
/// optional public key, and the inner call bytes.
pub open spec fn parse_signer_call(bytes: Seq<u8>) -> Option<
    (Option<Seq<u8>>, Option<Seq<u8>>, Seq<u8>),
> {
    match parse_opt(bytes, 0, 64) {
        None => None,
        Some((sig, p1)) => match parse_opt(bytes, p1, 32) {
            None => None,
            Some((pubkey, p2)) => Some((sig, pubkey, bytes.subrange(p2, bytes.len() as int))),
        },
    }
}

/// The signer-validity rule: a present signature and public key must verify
/// over the inner call bytes and name the caller; both absent is a valid
/// unauthenticated call; any other combination is malformed.
pub open spec fn spec_verify(
    sig: Option<Seq<u8>>,
    pubkey: Option<Seq<u8>>,
    call_bytes: Seq<u8>,
) -> core::result::Result<Option<Seq<u8>>, crate::Error> {
    match (pubkey, sig) {
        (Some(p), Some(s)) => if sig_valid(p, call_bytes, s) {
            Ok(Some(p))
        } else {
            Err(crate::Error::Signer)
        },
        (None, None) => Ok(None),
        _ => Err(crate::Error::Signer),
    }
}

/// A signed envelope: an optional detached signature and public key over the
/// inner call bytes.
pub struct SignerCall {
    pub signature: Option<Vec<u8>>,
    pub pubkey: Option<Vec<u8>>,
    pub call_bytes: Vec<u8>,
}

impl SignerCall {
    /// The signature is 64 bytes and the public key 32 where present.
    pub open spec fn wf(&self) -> bool {
        &&& match self.signature {
            Some(s) => s@.len() == 64,
            None => true,
        }
        &&& match self.pubkey {
            Some(p) => p@.len() == 32,
            None => true,
        }
    }

    /// The signature's view, where present.
    pub open spec fn sig_view(&self) -> Option<Seq<u8>> {
        match self.signature {
            Some(s) => Some(s@),
            None => None,
        }
    }

    /// The public key's view, where present.
    pub open spec fn pubkey_view(&self) -> Option<Seq<u8>> {
        match self.pubkey {
            Some(p) => Some(p@),
            None => None,
        }
    }

    /// Checks the signature rule and recovers the caller's address: the
    /// public key where a valid pair is present, nothing where both are
    /// absent, and a signer error anywhere else — before any inner effect.
    pub fn verify(&self) -> (r: crate::Result<Option<Address>>)
        requires
            self.wf(),
        ensures
            match spec_verify(self.sig_view(), self.pubkey_view(), self.call_bytes@) {
                Ok(a) => r matches Ok(ra) && (match ra {
                    Some(addr) => a matches Some(ab) && addr@ == ab && addr.wf(),
                    None => a is None,
                }),
                Err(e) => r == Err::<Option<Address>, crate::Error>(e),
            },
    {
        match (&self.pubkey, &self.signature) {
            (Some(pk), Some(sig)) => {
                if ed25519_verify(pk, &self.call_bytes, sig) {
                    Ok(Some(Address::from_pubkey(pk.as_slice())))
                } else {
                    Err(crate::Error::Signer)
                }
            },
            (None, None) => Ok(None),
            _ => Err(crate::Error::Signer),
        }
    }

    /// The envelope's wire encoding.
    pub fn encode(&self) -> (r: Vec<u8>)
        requires
            self.wf(),
        ensures
            r@ == signer_call_enc(self.sig_view(), self.pubkey_view(), self.call_bytes@),
    {
        let mut out: Vec<u8> = Vec::new();
        match &self.signature {
            Some(s) => {
                out.push(1);
                append_bytes(&mut out, s.as_slice());
            },
            None => {
                out.push(0);
            },
        }
        let ghost sig_part = out@;
        proof {
            assert(sig_part =~= opt_enc(self.sig_view()));
        }
        match &self.pubkey {
            Some(p) => {
                out.push(1);
                proof {
                    assert(out@ =~= sig_part + seq![1u8]);
                }
                append_bytes(&mut out, p.as_slice());
            },
            None => {
                out.push(0);
            },
        }
        proof {
            assert(out@ =~= opt_enc(self.sig_view()) + opt_enc(self.pubkey_view()));
        }
        append_bytes(&mut out, self.call_bytes.as_slice());
        proof {
            assert(out@ =~= signer_call_enc(
                self.sig_view(),
                self.pubkey_view(),
                self.call_bytes@,
            ));
        }
        out
    }

    /// Decodes a signed envelope; fails with a decode error, and only with
    /// one, on a malformed option tag or a truncated field.
    pub fn decode(bytes: &Vec<u8>) -> (r: crate::Result<SignerCall>)
        ensures
            match parse_signer_call(bytes@) {
                Some(parts) => r matches Ok(sc) && sc.wf() && sc.sig_view() == parts.0
                    && sc.pubkey_view() == parts.1 && sc.call_bytes@ == parts.2,
                None => r == Err::<SignerCall, crate::Error>(crate::Error::Decode),
            },
    {
        let (signature, p1) = match Self::decode_opt(bytes, 0, 64) {
            Ok(p) => p,
            Err(e) => {
                return Err(e);
            },
        };
        let (pubkey, p2) = match Self::decode_opt(bytes, p1, 32) {
            Ok(p) => p,
            Err(e) => {
                return Err(e);
            },
        };
        let call_bytes = crate::call::suffix_bytes(bytes, p2);
        Ok(SignerCall { signature, pubkey, call_bytes })
    }

    /// Reads one optional fixed-width field.
    fn decode_opt(bytes: &Vec<u8>, pos: usize, width: usize) -> (r: crate::Result<
        (Option<Vec<u8>>, usize),
    >)
        ensures
            match parse_opt(bytes@, pos as int, width as int) {
                Some(parts) => r matches Ok(p) && p.1 == parts.1 && pos <= p.1 <= bytes@.len() && (
                match &p.0 {
                    Some(v) => parts.0 matches Some(pv) && v@ == pv && v@.len() == width,
                    None => parts.0 is None,
                }),
                None => r == Err::<(Option<Vec<u8>>, usize), crate::Error>(crate::Error::Decode),
            },
    {
        if pos >= bytes.len() {
            return Err(crate::Error::Decode);
        }
        let tag = bytes[pos];
        if tag == 0 {
            Ok((None, pos + 1))
        } else if tag == 1 {
            if bytes.len() - pos - 1 < width {
                return Err(crate::Error::Decode);
            }
            let mut field: Vec<u8> = Vec::new();
            let mut i: usize = pos + 1;
            let end = pos + 1 + width;
            while i < end
                invariant
                    pos + 1 <= i <= end <= bytes@.len(),
                    field@ == bytes@.subrange(pos + 1, i as int),
                decreases end - i,
            {
                field.push(bytes[i]);
                i += 1;
                assert(field@ =~= bytes@.subrange(pos + 1, i as int));
            }
            Ok((Some(field), end))
        } else {
            Err(crate::Error::Decode)
        }
    }
}

/// The signing middleware around an inner component: verifies and strips the
/// signed envelope, publishes the caller in the context, and forwards the
/// inner call bytes.
pub struct SignerPlugin<T> {
    pub inner: T,
}

impl<T: View> View for SignerPlugin<T> {
    type V = T::V;

    open spec fn view(&self) -> T::V {
        self.inner.view()
    }
}

impl<T> SignerPlugin<T> {
    /// Wraps an inner component.
    pub fn new(inner: T) -> (r: SignerPlugin<T>)
        ensures
            r.inner == inner,
    {
        SignerPlugin { inner }
    }

    /// Unwraps the middleware, returning the inner component.
    pub fn into_inner(self) -> (r: T)
        ensures
            r == self.inner,
    {
        self.inner
    }
}

/// What the signing middleware does to the wrapped component's state: decode
/// the envelope, apply the signer rule, and run the inner step under the
/// recovered caller. A decode or signer failure stops everything before the
/// inner component is reached.
pub open spec fn signer_step<T: Call>(
    pre: T::V,
    bytes: Seq<u8>,
) -> core::result::Result<T::V, crate::Error> {
    match parse_signer_call(bytes) {
        None => Err(crate::Error::Decode),
        Some((sig, pubkey, call_bytes)) => match spec_verify(sig, pubkey, call_bytes) {
            Err(e) => Err(e),
            Ok(signer) => T::step(pre, signer, call_bytes),
        },
    }
}

impl<T: Call> Call for SignerPlugin<T> {
    open spec fn inv(&self) -> bool {
        self.inner.inv()
    }

    open spec fn step(pre: T::V, signer: Option<Seq<u8>>, call: Seq<u8>) -> core::result::Result<
        T::V,
        crate::Error,
    > {
        signer_step::<T>(pre, call)
    }

    fn call(&mut self, ctx: &mut Context, call: &Vec<u8>) -> (r: crate::Result<()>) {
        ctx.remove();
        let sc = match SignerCall::decode(call) {
            Ok(sc) => sc,
            Err(e) => {
                return Err(e);
            },
        };
        let signer = match sc.verify() {
            Ok(s) => s,
            Err(e) => {
                return Err(e);
            },
        };
        ctx.add(Signer { signer });
        self.inner.call(ctx, &sc.call_bytes)
    }
}


/// Round trip of the signed envelope: decoding what the client encodes gives
/// the same signature, public key and inner call bytes back, so client and
/// server agree on the envelope without negotiation.
pub proof fn lemma_signer_call_round_trip(
    sig: Option<Seq<u8>>,
    pubkey: Option<Seq<u8>>,
    call_bytes: Seq<u8>,
)
    requires
        sig matches Some(s) ==> s.len() == 64,
        pubkey matches Some(p) ==> p.len() == 32,
    ensures
        parse_signer_call(signer_call_enc(sig, pubkey, call_bytes)) == Some(
            (sig, pubkey, call_bytes),
        ),
{
    let b = signer_call_enc(sig, pubkey, call_bytes);
    let sig_len: int = match sig {
        Some(_) => 65,
        None => 1,
    };
    let pk_len: int = match pubkey {
        Some(_) => 33,
        None => 1,
    };
    assert(b.len() == sig_len + pk_len + call_bytes.len());
    match sig {
        Some(s) => {
            assert(b[0] == 1);
            assert(b.subrange(1, 65) =~= s);
        },
        None => {
            assert(b[0] == 0);
        },
    }
    assert(parse_opt(b, 0, 64) == Some((sig, sig_len)));
    match pubkey {
        Some(p) => {
            assert(b[sig_len] == 1);
            assert(b.subrange(sig_len + 1, sig_len + 33) =~= p);
        },
        None => {
            assert(b[sig_len] == 0);
        },
    }
    assert(parse_opt(b, sig_len, 32) == Some((pubkey, sig_len + pk_len)));
    assert(b.subrange(sig_len + pk_len, b.len() as int) =~= call_bytes);
}


impl SignerPlugin<Value> {
    /// Builds the middleware stack from the store: structural delegation of
    /// value construction to the wrapped application state.
    pub fn create<S: crate::store::Read>(
        shape: &crate::state::Shape,
        store: &S,
        prefix: &Vec<u8>,
        enc: &Vec<u8>,
    ) -> (r: crate::Result<SignerPlugin<Value>>)
        requires
            crate::state::shape_wf(*shape),
        ensures
            match crate::state::parse_value(*shape, store.contents(), prefix@, enc@) {
                Some(m) => r matches Ok(p) && p.inner@ == m,
                None => r matches Err(e) && e == crate::Error::Decode,
            },
    {
        match crate::state::create(shape, store, prefix, enc) {
            Ok(value) => Ok(SignerPlugin { inner: value }),
            Err(e) => Err(e),
        }
    }

    /// Persists the wrapped application state: structural delegation of the
    /// flush to the inner value.
    pub fn flush<S: crate::store::Store>(self, store: &mut S, prefix: &Vec<u8>) -> (r:
        crate::Result<Vec<u8>>)
        requires
            crate::state::model_wf(self.inner@),
        ensures
            r is Ok,
            r matches Ok(enc) ==> enc@ == crate::state::enc_of(self.inner@),
            final(store).contents() == old(store).contents().union_prefer_right(
                crate::state::writes_of(self.inner@, prefix@),
            ),
    {
        crate::state::flush(self.inner, store, prefix)
    }
}

} // verus!
