//! A framework for deterministic, consensus-replicated state machines:
//! hierarchical key/value state addressing, a binary call/query dispatch
//! protocol, client-side call building with signing middleware, and
//! read-tracking proof construction for verifiable queries.

use vstd::prelude::*;

pub mod call;
pub mod client;
pub mod codec;
pub mod context;
pub mod math;
pub mod merkle;
pub mod query;
pub mod roundtrip;
pub mod signer;
pub mod state;
pub mod state_machine;
pub mod store;

verus! {

/// The error kinds that can arise while processing one envelope.
/// Every layer forwards the first failure unchanged; no layer retries.
#[derive(Clone, Debug, PartialEq, Eq, Structural)]
pub enum Error {
    /// Malformed binary input: unknown tag, truncated payload, trailing bytes.
    Decode,
    /// Bad signature, or an invalid combination of signature/pubkey fields.
    Signer,
    /// A domain rule was violated (e.g. insufficient balance).
    Coins,
    /// A requested key or field index does not exist.
    Store,
    /// A proof could not be constructed or checked against the root.
    Proof,
    /// An error injected by a caller-supplied step function.
    Test,
    /// An otherwise unclassified failure.
    Unknown,
}

pub type Result<T> = core::result::Result<T, Error>;

/// The view of a byte vector is the same sequence whichever way it is taken.
pub broadcast proof fn lemma_bytes_deep_view(v: Vec<u8>)
    ensures
        #[trigger] v.deep_view() == v@,
{
    assert(v.deep_view() =~= v@);
}

} // verus!
