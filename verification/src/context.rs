//! The execution context: request-scoped ambient values (the authenticated
//! caller) passed explicitly through dispatch rather than held in any global
//! table. A middleware layer fills the slot before forwarding a call; method
//! bodies resolve it.

use vstd::prelude::*;

use crate::store::clone_bytes;

verus! {

/// The identity an authenticated caller acts as: the 32 bytes of the public
/// key the call was signed with.
pub struct Address {
    bytes: Vec<u8>,
}

impl View for Address {
    type V = Seq<u8>;

    closed spec fn view(&self) -> Seq<u8> {
        self.bytes@
    }
}

impl Address {
    /// An address is the full public key: exactly 32 bytes.
    pub open spec fn wf(&self) -> bool {
        self@.len() == 32
    }

    /// The address a 32-byte public key stands for.
    pub fn from_pubkey(bytes: &[u8]) -> (r: Address)
        requires
            bytes@.len() == 32,
        ensures
            r@ == bytes@,
            r.wf(),
    {
        Address { bytes: clone_bytes(bytes) }
    }

    /// The bytes of the address.
    pub fn bytes(&self) -> (r: &Vec<u8>)
        ensures
            r@ == self@,
    {
        &self.bytes
    }

    /// A copy of the address.
    pub fn duplicate(&self) -> (r: Address)
        ensures
            r@ == self@,
    {
        Address { bytes: clone_bytes(self.bytes.as_slice()) }
    }
}

/// The signer slot's value: the authenticated caller's address, or nothing
/// for an envelope that arrived without a signature.
pub struct Signer {
    pub signer: Option<Address>,
}

impl View for Signer {
    type V = Option<Seq<u8>>;

    open spec fn view(&self) -> Option<Seq<u8>> {
        match self.signer {
            Some(a) => Some(a@),
            None => None,
        }
    }
}

/// The per-call context: a slot for each kind of ambient value (here, the
/// signer). Re-filled at the start of each envelope; last writer wins.
pub struct Context {
    slot: Option<Signer>,
}

impl View for Context {
    type V = Option<Option<Seq<u8>>>;

    closed spec fn view(&self) -> Option<Option<Seq<u8>>> {
        match self.slot {
            Some(s) => Some(s@),
            None => None,
        }
    }
}

impl Context {
    /// The address of the authenticated caller, if one is set.
    pub open spec fn signer_addr(&self) -> Option<Seq<u8>> {
        match self@ {
            Some(s) => s,
            None => None,
        }
    }

    /// A context with no ambient values set.
    pub fn new() -> (r: Context)
        ensures
            r@ == None::<Option<Seq<u8>>>,
    {
        Context { slot: None }
    }

    /// Inserts or replaces the signer slot.
    pub fn add(&mut self, ctx: Signer)
        ensures
            final(self)@ == Some(ctx@),
    {
        self.slot = Some(ctx);
    }

    /// The current signer slot, if set.
    pub fn resolve(&self) -> (r: Option<&Signer>)
        ensures
            match r {
                Some(s) => self@ == Some(s@),
                None => self@ is None,
            },
    {
        match &self.slot {
            Some(s) => Some(s),
            None => None,
        }
    }

    /// Clears the signer slot.
    pub fn remove(&mut self)
        ensures
            final(self)@ == None::<Option<Seq<u8>>>,
    {
        self.slot = None;
    }
}

/// Access to the ambient per-call context from inside a method body.
pub trait GetContext {
    /// The context's abstract state: the signer slot, if set.
    spec fn ctx_view(&self) -> Option<Option<Seq<u8>>>;

    /// Resolves the signer slot of the ambient context.
    fn context(&self) -> (r: Option<&Signer>)
        ensures
            match r {
                Some(s) => self.ctx_view() == Some(s@),
                None => self.ctx_view() is None,
            },
    ;
}

impl GetContext for Context {
    open spec fn ctx_view(&self) -> Option<Option<Seq<u8>>> {
        self@
    }

    fn context(&self) -> (r: Option<&Signer>) {
        self.resolve()
    }
}

} // verus!
