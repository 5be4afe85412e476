//! Runs one step of state machine logic atomically: the step function works
//! against a write buffer, and the buffer is applied to the underlying store
//! only when the whole step succeeds. A failing step leaves the store's
//! observable contents exactly as they were.

use vstd::prelude::*;

use crate::store::{apply_changes, BufStore, Read, Store};

verus! {

/// Whether a buffer is a fresh wrapping of a store with the given contents.
pub open spec fn fresh_buffer<S: Store>(b: BufStore<S>, base: Map<Seq<u8>, Seq<u8>>) -> bool {
    b.buffered() == Map::<Seq<u8>, Option<Seq<u8>>>::empty() && b.base() == base
}

/// Runs `f` against a write buffer over `store`. On success the buffered
/// writes are applied to the store as one unit; on failure they are all
/// discarded, so the store's contents after the attempt equal its contents
/// before the attempt, whatever `f` buffered before failing.
///
/// The second precondition holds of any step function that touches the store
/// only through the buffer's own read and write operations, which keep the
/// wrapped store untouched.
pub fn step_atomic<S, F, I, O>(f: F, store: S, input: I) -> (r: (S, crate::Result<O>))
    where
        S: Store,
        F: FnOnce(BufStore<S>, I) -> (BufStore<S>, crate::Result<O>),
    requires
        forall|b: BufStore<S>|
            fresh_buffer(b, store.contents()) ==> #[trigger] call_requires(f, (b, input)),
        forall|b: BufStore<S>, ret: (BufStore<S>, crate::Result<O>)|
            fresh_buffer(b, store.contents()) && #[trigger] call_ensures(f, (b, input), ret)
                ==> ret.0.base() == store.contents(),
    ensures
        exists|b: BufStore<S>, ret: (BufStore<S>, crate::Result<O>)|
            fresh_buffer(b, store.contents()) && #[trigger] call_ensures(f, (b, input), ret)
                && ret.1 == r.1,
        r.1 is Err ==> r.0.contents() == store.contents(),
        r.1 is Ok ==> exists|b: BufStore<S>, ret: (BufStore<S>, crate::Result<O>)|
            fresh_buffer(b, store.contents()) && #[trigger] call_ensures(f, (b, input), ret)
                && ret.1 == r.1 && r.0.contents() == apply_changes(
                store.contents(),
                ret.0.buffered(),
            ),
{
    let ghost base = store.contents();
    let buffered = BufStore::wrap(store);
    let (buffered, res) = f(buffered, input);
    match res {
        Ok(out) => {
            let committed = buffered.commit();
            (committed, Ok(out))
        },
        Err(e) => {
            let untouched = buffered.into_inner();
            (untouched, Err(e))
        },
    }
}

} // verus!
