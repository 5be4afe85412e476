//! The client proxy layer: building call envelopes for a remote structure
//! and sending them through a pluggable transport. A builder descends through
//! field selectors exactly as the server-side dispatcher will, then packages
//! one method call; the signing client wraps outgoing bytes in a signed
//! envelope before handing them to its own parent transport, mirroring the
//! server-side middleware in reverse.

use vstd::prelude::*;

use crate::codec::{bytes_enc, encode_bytes, encode_u64, u64_bytes};
use crate::signer::{
    keypair_matches, keypair_well_formed, sig_of, signer_call_enc, spec_verify, SignerCall,
};
use crate::store::clone_bytes;

verus! {

/// The bytes that address `payload` at the node reached by the field indices
/// of `path`: each level wraps the rest in its own field-selector envelope.
pub open spec fn call_bytes_for(path: Seq<u8>, payload: Seq<u8>) -> Seq<u8>
    decreases path,
{
    if path.len() == 0 {
        payload
    } else {
        seq![path[0]] + call_bytes_for(path.skip(1), payload)
    }
}

/// Nested field envelopes are the path laid out in front of the payload.
pub proof fn lemma_call_bytes_concat(path: Seq<u8>, payload: Seq<u8>)
    ensures
        call_bytes_for(path, payload) == path + payload,
    decreases path,
{
    if path.len() == 0 {
        assert(call_bytes_for(path, payload) =~= path + payload);
    } else {
        lemma_call_bytes_concat(path.skip(1), payload);
        assert(call_bytes_for(path, payload) =~= path + payload);
    }
}

/// A channel that delivers encoded call bytes: in-process dispatch, a remote
/// connection, or a middleware layer that transforms the bytes on the way.
/// `log` is the history of wire messages delivered so far; `wire_form` is
/// what one message looks like by the time this channel delivers it.
pub trait Transport: Sized {
    /// The wire messages delivered through this channel so far.
    spec fn log(&self) -> Seq<Seq<u8>>;

    /// The delivered form of one outgoing message.
    spec fn wire_form(&self, msg: Seq<u8>) -> Seq<u8>;

    /// Delivers one message; a failure delivers nothing.
    fn send(&mut self, msg: Vec<u8>) -> (r: crate::Result<()>)
        ensures
            r is Ok ==> final(self).log() == old(self).log().push(old(self).wire_form(msg@))
                && (forall|m: Seq<u8>| final(self).wire_form(m) == old(self).wire_form(m)),
            r is Err ==> final(self).log() == old(self).log() && (forall|m: Seq<u8>|
                final(self).wire_form(m) == old(self).wire_form(m)),
    ;
}

/// A transport that records what it is asked to deliver: the terminal end of
/// a client-side middleware chain in tests and local runs.
pub struct RecordingTransport {
    sent: Vec<Vec<u8>>,
}

impl RecordingTransport {
    /// A transport that has delivered nothing yet.
    pub fn new() -> (r: RecordingTransport)
        ensures
            r.log() == Seq::<Seq<u8>>::empty(),
    {
        let t = RecordingTransport { sent: Vec::new() };
        proof {
            assert(t.log() =~= Seq::<Seq<u8>>::empty());
        }
        t
    }

    /// The messages delivered so far, oldest first.
    pub fn sent(&self) -> (r: &Vec<Vec<u8>>)
        ensures
            r.deep_view() == self.log(),
    {
        &self.sent
    }
}

impl Transport for RecordingTransport {
    closed spec fn log(&self) -> Seq<Seq<u8>> {
        self.sent.deep_view()
    }

    open spec fn wire_form(&self, msg: Seq<u8>) -> Seq<u8> {
        msg
    }

    fn send(&mut self, msg: Vec<u8>) -> (r: crate::Result<()>)
        ensures
            r is Ok,
    {
        let ghost pre = self.sent@;
        let ghost m = msg@;
        self.sent.push(msg);
        proof {
            assert forall|j: int|
                0 <= j < self.sent.deep_view().len() implies #[trigger] self.sent.deep_view()[j]
                == old(self).sent.deep_view().push(m)[j] by {
                assert(self.sent.deep_view()[j] == (#[trigger] self.sent@[j])@);
                if j < pre.len() {
                    assert(self.sent@[j] == pre[j]);
                    assert(old(self).sent.deep_view()[j] == pre[j]@);
                }
            }
            assert(self.sent.deep_view() =~= old(self).sent.deep_view().push(m));
        }
        Ok(())
    }
}

/// A proxy handle for one node of a remote structure: the field path walked
/// so far. Descending into a field extends the path; calling a method
/// packages the arguments into the matching call envelope, addressed through
/// every field selector on the path.
pub struct CallBuilder {
    path: Vec<u8>,
}

impl CallBuilder {
    /// The field indices walked so far, outermost first.
    pub closed spec fn path_view(&self) -> Seq<u8> {
        self.path@
    }

    /// A proxy for the root of the structure.
    pub fn new() -> (r: CallBuilder)
        ensures
            r.path_view() == Seq::<u8>::empty(),
    {
        let b = CallBuilder { path: Vec::new() };
        proof {
            assert(b.path_view() =~= Seq::<u8>::empty());
        }
        b
    }

    /// The proxy for the structural field at the given declared position.
    pub fn field(self, index: u8) -> (r: CallBuilder)
        requires
            index < 128,
        ensures
            r.path_view() == self.path_view().push(index),
    {
        let mut path = self.path;
        path.push(index);
        CallBuilder { path }
    }

    /// The call bytes that invoke `increment` on the addressed integer leaf.
    pub fn increment_call(&self) -> (r: Vec<u8>)
        ensures
            r@ == call_bytes_for(self.path_view(), seq![128u8]),
    {
        let mut out = clone_bytes(self.path.as_slice());
        out.push(128);
        proof {
            lemma_call_bytes_concat(self.path_view(), seq![128u8]);
            assert(out@ =~= self.path_view() + seq![128u8]);
        }
        out
    }

    /// The call bytes that invoke `put` with the given value on the addressed
    /// integer leaf.
    pub fn put_call(&self, value: u64) -> (r: Vec<u8>)
        ensures
            r@ == call_bytes_for(self.path_view(), seq![129u8] + u64_bytes(value)),
    {
        let mut out = clone_bytes(self.path.as_slice());
        out.push(129);
        encode_u64(value, &mut out);
        proof {
            lemma_call_bytes_concat(self.path_view(), seq![129u8] + u64_bytes(value));
            assert(out@ =~= self.path_view() + (seq![129u8] + u64_bytes(value)));
        }
        out
    }

    /// The call bytes that invoke `transfer` of the given amount to the given
    /// recipient on the addressed collection leaf.
    pub fn transfer_call(&self, to: &Vec<u8>, amount: u64) -> (r: Vec<u8>)
        requires
            to@.len() <= u32::MAX,
        ensures
            r@ == call_bytes_for(
                self.path_view(),
                seq![128u8] + bytes_enc(to@) + u64_bytes(amount),
            ),
    {
        let mut out = clone_bytes(self.path.as_slice());
        out.push(128);
        encode_bytes(to, &mut out);
        encode_u64(amount, &mut out);
        proof {
            lemma_call_bytes_concat(
                self.path_view(),
                seq![128u8] + bytes_enc(to@) + u64_bytes(amount),
            );
            assert(out@ =~= self.path_view() + (seq![128u8] + bytes_enc(to@) + u64_bytes(
                amount,
            )));
        }
        out
    }
}

impl CallBuilder {
    /// The query bytes that read the addressed integer leaf.
    pub fn get_query(&self) -> (r: Vec<u8>)
        ensures
            r@ == call_bytes_for(self.path_view(), seq![128u8]),
    {
        let mut out = clone_bytes(self.path.as_slice());
        out.push(128);
        proof {
            lemma_call_bytes_concat(self.path_view(), seq![128u8]);
            assert(out@ =~= self.path_view() + seq![128u8]);
        }
        out
    }

    /// The query bytes that read the balance the addressed collection leaf
    /// holds for a key.
    pub fn balance_query(&self, key: &Vec<u8>) -> (r: Vec<u8>)
        requires
            key@.len() <= u32::MAX,
        ensures
            r@ == call_bytes_for(self.path_view(), seq![128u8] + bytes_enc(key@)),
    {
        let mut out = clone_bytes(self.path.as_slice());
        out.push(128);
        encode_bytes(key, &mut out);
        proof {
            lemma_call_bytes_concat(self.path_view(), seq![128u8] + bytes_enc(key@));
            assert(out@ =~= self.path_view() + (seq![128u8] + bytes_enc(key@)));
        }
        out
    }

    /// The query bytes for a chained query: address a collection entry by
    /// key, then run the nested query against the node it holds — the lazy
    /// composition of a query on a query method's returned value.
    pub fn entry_query(&self, key: &Vec<u8>, nested: &Vec<u8>) -> (r: Vec<u8>)
        requires
            key@.len() <= u32::MAX,
        ensures
            r@ == call_bytes_for(self.path_view(), seq![129u8] + bytes_enc(key@) + nested@),
    {
        let mut out = clone_bytes(self.path.as_slice());
        out.push(129);
        encode_bytes(key, &mut out);
        crate::codec::append_bytes(&mut out, nested.as_slice());
        proof {
            lemma_call_bytes_concat(self.path_view(), seq![129u8] + bytes_enc(key@) + nested@);
            assert(out@ =~= self.path_view() + (seq![129u8] + bytes_enc(key@) + nested@));
        }
        out
    }
}

/// The client half of the signing middleware: signs each outgoing message
/// with the local keypair and wraps it in a signed envelope before handing it
/// to the parent transport, the mirror image of the server-side plugin.
pub struct SignerClient<U> {
    parent: U,
    keypair: Vec<u8>,
}

impl<U: Transport> SignerClient<U> {
    /// The 64 bytes of the local keypair.
    pub closed spec fn keypair_view(&self) -> Seq<u8> {
        self.keypair@
    }

    /// The parent transport the signed envelopes go to.
    pub closed spec fn parent_view(&self) -> U {
        self.parent
    }

    /// Wraps a parent transport with a signing layer around the given
    /// keypair: the 32-byte secret key followed by the 32-byte public key.
    pub fn new(parent: U, keypair: Vec<u8>) -> (r: SignerClient<U>)
        requires
            keypair@.len() == 64,
        ensures
            r.parent_view() == parent,
            r.keypair_view() == keypair@,
    {
        SignerClient { parent, keypair }
    }

    /// Wraps a parent transport with a signing layer, first checking that the
    /// keypair's public half is the one derived from its secret half: only
    /// such a keypair produces envelopes the server-side verification
    /// accepts. Hands the transport back where the check fails.
    pub fn checked_new(parent: U, keypair: Vec<u8>) -> (r: core::result::Result<SignerClient<U>, U>)
        ensures
            match r {
                Ok(c) => {
                    &&& c.parent_view() == parent
                    &&& c.keypair_view() == keypair@
                    &&& keypair@.len() == 64
                    &&& keypair_matches(keypair@)
                },
                Err(p) => p == parent && !(keypair@.len() == 64 && keypair_matches(keypair@)),
            },
    {
        if crate::signer::keypair_check(&keypair) {
            Ok(SignerClient { parent, keypair })
        } else {
            Err(parent)
        }
    }

    /// Unwraps the signing layer, returning the parent transport.
    pub fn into_parent(self) -> (r: U)
        ensures
            r == self.parent_view(),
    {
        self.parent
    }
}

impl<U: Transport> Transport for SignerClient<U> {
    closed spec fn log(&self) -> Seq<Seq<u8>> {
        self.parent.log()
    }

    closed spec fn wire_form(&self, msg: Seq<u8>) -> Seq<u8> {
        self.parent.wire_form(
            signer_call_enc(
                Some(sig_of(self.keypair@, msg)),
                Some(self.keypair@.subrange(32, 64)),
                msg,
            ),
        )
    }

    fn send(&mut self, msg: Vec<u8>) -> (r: crate::Result<()>)
        ensures
            final(self).keypair_view() == old(self).keypair_view(),
            !(old(self).keypair_view().len() == 64 && keypair_well_formed(
                old(self).keypair_view(),
            )) ==> r == Err::<(), crate::Error>(crate::Error::Signer) && final(self).log() == old(
                self,
            ).log(),
            r is Ok && keypair_matches(old(self).keypair_view()) ==> spec_verify(
                Some(sig_of(old(self).keypair_view(), msg@)),
                Some(old(self).keypair_view().subrange(32, 64)),
                msg@,
            ) == Ok::<Option<Seq<u8>>, crate::Error>(
                Some(old(self).keypair_view().subrange(32, 64)),
            ),
    {
        let signature = match crate::signer::sign_message(&self.keypair, &msg) {
            Ok(s) => s,
            Err(e) => {
                return Err(e);
            },
        };
        let pubkey = crate::call::suffix_bytes(&self.keypair, 32);
        let envelope = SignerCall {
            signature: Some(signature),
            pubkey: Some(pubkey),
            call_bytes: msg,
        };
        let encoded = envelope.encode();
        self.parent.send(encoded)
    }
}

/// What the signing client's closed channel model says, spelled out for
/// outside callers: its delivery log is its parent's, and the wire form of a
/// message is the parent's wire form of the signed envelope around it.
pub proof fn lemma_signer_client_wire<U: Transport>(c: &SignerClient<U>, msg: Seq<u8>)
    ensures
        c.log() == c.parent_view().log(),
        c.wire_form(msg) == c.parent_view().wire_form(
            signer_call_enc(
                Some(sig_of(c.keypair_view(), msg)),
                Some(c.keypair_view().subrange(32, 64)),
                msg,
            ),
        ),
{
}

} // verus!
