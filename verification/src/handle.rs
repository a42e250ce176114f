//! Shared, heap-pinned handles whose identity is the address of their
//! backing allocation.

use std::collections::HashMap;
use std::sync::Arc;
use vstd::prelude::*;
use vstd::std_specs::cmp::PartialEqSpec;

verus! {

/// A reference-counted handle to a heap-allocated value.
///
/// The value lives in a shared `Arc` slot, so it never moves for as long
/// as any handle to it is alive. The handle's identity is the numeric
/// address of that slot, recorded once at creation: it never changes, and
/// it is independent of the wrapped value's own notion of equality.
#[derive(Debug)]
pub struct PinNode<T> {
    addr: usize,
    inner: Arc<T>,
}

/// Relies on std's `Arc::as_ptr`: the address of the shared heap
/// allocation. The allocation never moves while any clone of the `Arc`
/// is alive, so the address stays fixed for the handle's whole lifetime
/// and differs from the address of every other live allocation.
#[verifier::external_body]
fn slot_addr<T>(slot: &Arc<T>) -> usize {
    Arc::as_ptr(slot) as usize
}

impl<T> PinNode<T> {
    /// The handle's identity: the address of its backing slot.
    pub closed spec fn id(self) -> usize {
        self.addr
    }

    /// The handle wraps the value `t`.
    pub closed spec fn wraps(self, t: T) -> bool {
        self.inner == t
    }

    /// Create a handle owning a fresh heap slot that holds `v`.
    pub fn new(v: T) -> (n: Self)
        ensures
            n.wraps(v),
    {
        let inner = Arc::new(v);
        let addr = slot_addr(&inner);
        PinNode { addr, inner }
    }

    /// Create a handle owning a fresh heap slot that holds `v`, with an
    /// identity under which `taken` files no handle.
    ///
    /// Relies on std's `Arc::new` and `Arc::as_ptr`: a fresh shared
    /// allocation lies at an address that differs from the address of
    /// every live allocation. Each value of `taken` is an owning handle
    /// that keeps its own allocation alive at the recorded identity, and
    /// the requires ties every key to such a value, so the fresh address
    /// equals no key.
    #[verifier::external_body]
    pub(crate) fn new_distinct_from(v: T, taken: &HashMap<usize, PinNode<T>>) -> (n: Self)
        requires
            forall|k: usize| #[trigger] taken@.contains_key(k) ==> taken@[k].id() == k,
        ensures
            n.wraps(v),
            !taken@.contains_key(n.id()),
    {
        let inner = Arc::new(v);
        let addr = Arc::as_ptr(&inner) as usize;
        PinNode { addr, inner }
    }

    /// Borrow the wrapped value.
    pub fn value(&self) -> (r: &T)
        ensures
            self.wraps(*r),
    {
        &*self.inner
    }

    /// The identity key under which the tree's maps file this handle.
    pub(crate) fn key(&self) -> (k: usize)
        ensures
            k == self.id(),
    {
        self.addr
    }
}

impl<T> Clone for PinNode<T> {
    /// A clone shares the backing slot: it has the same identity and
    /// wraps the same value.
    fn clone(&self) -> (r: Self)
        ensures
            r == *self,
    {
        PinNode { addr: self.addr, inner: self.inner.clone() }
    }
}

impl<T> PartialEq for PinNode<T> {
    /// Handles are compared by identity alone; the wrapped values are
    /// never consulted.
    fn eq(&self, other: &Self) -> (r: bool) {
        self.addr == other.addr
    }
}

impl<T> Eq for PinNode<T> {}

impl<T> vstd::std_specs::cmp::PartialEqSpecImpl for PinNode<T> {
    open spec fn obeys_eq_spec() -> bool {
        true
    }

    open spec fn eq_spec(&self, other: &Self) -> bool {
        self.id() == other.id()
    }
}

/// Equality between handles is identity, never value: `a == b` holds
/// exactly when the two handles share one backing slot, whatever the
/// wrapped values are.
pub proof fn lemma_eq_is_identity<T>(a: PinNode<T>, b: PinNode<T>)
    ensures
        a.eq_spec(&b) <==> a.id() == b.id(),
{
}

/// A handle wraps exactly one value: the contents of its slot.
pub proof fn lemma_wraps_functional<T>(n: PinNode<T>, t1: T, t2: T)
    requires
        n.wraps(t1),
        n.wraps(t2),
    ensures
        t1 == t2,
{
}

} // verus!
