//! Handles to assets: the address an asset is defined under, the opaque
//! reference that names one entry of the registry, and the typed reference
//! that users hold.
use vstd::prelude::*;
use std::marker::PhantomData;

use crate::asset_reg::{ref_names, AssetReg};


verus! {

/// The identity of an asset definition, as hashed from the recipe that
/// defines it.
#[derive(Clone, Copy, PartialEq, Eq, Hash, Debug, Structural)]
pub struct SnoozyIdentityHash(pub u64);

/// The address under which the registry finds a definition: its identity and
/// the type of what it builds.
#[derive(Clone, Copy, PartialEq, Eq, Hash, Debug, Structural)]
pub struct OpaqueSnoozyAddr {
    pub identity_hash: SnoozyIdentityHash,
    pub type_id: u64,
}

impl OpaqueSnoozyAddr {
    /// The address of the definition `identity_hash` of an asset of type `Res`.
    pub fn new<Res: 'static>(identity_hash: SnoozyIdentityHash) -> (addr: Self)
        ensures
            addr.identity_hash == identity_hash,
    {
        Self { identity_hash, type_id: crate::get_type_hash::<Res>() }
    }
}

/// One node of an evaluation path: the asset being evaluated.
#[derive(Clone, Copy, PartialEq, Eq, Hash, Debug, Structural)]
pub struct EvaluationPathNode(pub usize);

impl EvaluationPathNode {
    pub fn into_raw(self) -> (raw: usize)
        ensures
            raw == self.0,
    {
        self.0
    }
}

/// Whether `path` holds `node`.
pub fn path_contains(path: &Vec<EvaluationPathNode>, node: EvaluationPathNode) -> (r: bool)
    ensures
        r == path@.contains(node),
{
    let mut i: usize = 0;
    while i < path.len()
        invariant
            i <= path.len(),
            forall|k: int| 0 <= k < i ==> path@[k] != node,
        decreases path.len() - i,
    {
        if path[i] == node {
            assert(path@[i as int] == node);
            return true;
        }
        i = i + 1;
    }
    false
}

/// A strong reference to one entry of the registry. `inner` is the entry's
/// slot; `use_prev` asks for the result of the previous build.
#[derive(Clone, Copy, PartialEq, Eq, Hash, Debug, Structural)]
pub struct OpaqueSnoozyRef {
    pub inner: usize,
    pub addr: OpaqueSnoozyAddr,
    pub use_prev: bool,
}

impl OpaqueSnoozyRef {
    /// An id of the referenced entry that stays fixed while the entry lives.
    pub fn get_transient_op_id(&self) -> (id: usize)
        ensures
            id == self.inner,
    {
        self.inner
    }

    /// The node that stands for the referenced asset on an evaluation path.
    pub fn to_evaluation_path_node(&self) -> (node: EvaluationPathNode)
        ensures
            node == EvaluationPathNode(self.inner),
    {
        EvaluationPathNode(self.inner)
    }
}

/// A typed reference to an asset that builds a `Res`.
pub struct SnoozyRef<Res> {
    pub opaque: OpaqueSnoozyRef,
    /// Whether this handle owns an isolated copy of its definition, the only
    /// kind of handle that may be rebound.
    pub isolated: bool,
    pub phantom: PhantomData<Res>,
}

impl<Res> SnoozyRef<Res> {
    pub fn new(opaque: OpaqueSnoozyRef) -> (r: Self)
        ensures
            r.opaque == opaque,
            !r.isolated,
    {
        Self { opaque, isolated: false, phantom: PhantomData }
    }

    pub fn identity_hash(&self) -> (h: SnoozyIdentityHash)
        ensures
            h == self.opaque.addr.identity_hash,
    {
        self.opaque.addr.identity_hash
    }

    /// A handle to the same asset that reads the result of its previous build.
    pub fn prev(&self) -> (r: Self)
        ensures
            r.opaque == (OpaqueSnoozyRef { use_prev: true, ..self.opaque }),
            !r.isolated,
    {
        let mut res = self.clone();
        res.opaque.use_prev = true;
        res
    }

    /// Replaces this handle by a handle to a fresh, isolated copy of its
    /// asset, which may then be rebound without touching the original.
    pub fn isolate<R: Clone, A>(self, reg: &mut AssetReg<R, A>) -> (r: Self)
        requires
            old(reg).wf(),
            self.opaque.inner < old(reg).entries.len(),
            old(reg).entries[self.opaque.inner as int] is Some,
            old(reg).entries[self.opaque.inner as int]->0.handle_count > 0,
        ensures
            old(reg).isolated_into(self.opaque, *final(reg), r.opaque),
            r.isolated,
    {
        let opaque = reg.isolate_entry(self.opaque);
        SnoozyRef { opaque, isolated: true, phantom: PhantomData }
    }

    /// Gives this handle's asset the recipe of `other`, whose asset is freed.
    /// Only an isolated handle may be rebound, and `other` must be the only
    /// reference to its asset. When the recipes differ, the asset and every
    /// asset built from it will be rebuilt at the next snapshot.
    pub fn rebind<R, A>(&mut self, other: Self, reg: &mut AssetReg<R, A>)
        requires
            old(self).isolated,
            old(reg).wf(),
            ref_names(old(reg).entries@, old(self).opaque),
            old(reg).entries[old(self).opaque.inner as int] is Some,
            other.opaque.inner != old(self).opaque.inner,
            old(reg).sole_reference(other.opaque.inner),
        ensures
            *final(self) == *old(self),
            old(reg).rebound(old(self).opaque, other.opaque.inner, *final(reg)),
    {
        reg.rebind_entry(self.opaque, other.opaque.inner);
    }

    pub fn into_opaque(self) -> (r: OpaqueSnoozyRef)
        ensures
            r == self.opaque,
    {
        self.opaque
    }
}

impl<Res> Clone for SnoozyRef<Res> {
    /// A copy of the handle; the copy is never isolated, only the handle that
    /// `isolate` returned is.
    fn clone(&self) -> (r: Self)
        ensures
            r.opaque == self.opaque,
            !r.isolated,
    {
        SnoozyRef { opaque: self.opaque, isolated: false, phantom: PhantomData }
    }
}

} // verus!
