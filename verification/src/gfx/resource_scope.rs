use vstd::prelude::*;
use std::rc::Rc;
use crate::gfx::resources::{release_fold, GlObject, ResourceTables};

verus! {

/// Unique identifier for a graphics resource scope.
#[derive(Copy, Clone, Debug, Hash, PartialEq, Eq, Structural)]
pub struct ResourceScopeID(pub usize);

/// `Rc::strong_count`: the number of strong pointers to the allocation. `rc` is one of
/// them, so it is at least 1; how many more there are depends on the rest of the program,
/// and nothing more is claimed.
#[verifier::external_body]
fn strong_count(rc: &Rc<()>) -> (r: usize)
    ensures
        r >= 1,
{
    Rc::strong_count(rc)
}

/// `Rc::clone`: one more strong reference to the same count.
#[verifier::external_body]
fn clone_count(rc: &Rc<()>) -> Rc<()> {
    Rc::clone(rc)
}

/// A reference counted token associated with a resource scope; the scope's resources
/// are released once no clone of the token remains outside the graphics system.
#[derive(Clone, Debug)]
pub struct ResourceScopeToken {
    ref_count: Rc<()>,
    id: ResourceScopeID,
}

impl View for ResourceScopeToken {
    type V = ResourceScopeID;

    closed spec fn view(&self) -> ResourceScopeID {
        self.id
    }
}

impl ResourceScopeToken {
    pub fn new(id: ResourceScopeID) -> (t: ResourceScopeToken)
        ensures
            t@ == id,
    {
        ResourceScopeToken { ref_count: Rc::new(()), id }
    }

    pub fn id(&self) -> (r: ResourceScopeID)
        ensures
            r == self@,
    {
        self.id
    }

    /// Another token of the same scope.
    pub fn share(&self) -> (t: ResourceScopeToken)
        ensures
            t@ == self@,
    {
        ResourceScopeToken { ref_count: clone_count(&self.ref_count), id: self.id }
    }
}

/// A GL object or a slot of the resource tables that a scope owns. Table slots are named
/// by their key's bits.
#[derive(Copy, Clone, Debug, PartialEq, Eq, Structural)]
pub enum ScopedResourceHandle {
    Buffer { handle: u32 },
    Vao { handle: u32 },
    Query { handle: u32 },
    Texture { key: u64 },
    Framebuffer { key: u64 },
}

/// The resources to be destroyed once every token of the scope is gone. Dropping the
/// scope destroys nothing: the owner releases them with `destroy_owned_resources`.
pub struct ResourceScope {
    resources: Vec<ScopedResourceHandle>,
    token: ResourceScopeToken,
}

impl ResourceScope {
    pub closed spec fn spec_resources(self) -> Seq<ScopedResourceHandle> {
        self.resources@
    }

    pub closed spec fn spec_id(self) -> ResourceScopeID {
        self.token@
    }

    pub fn new(token: ResourceScopeToken) -> (s: ResourceScope)
        ensures
            s.spec_resources() == Seq::<ScopedResourceHandle>::empty(),
            s.spec_id() == token@,
    {
        ResourceScope { resources: Vec::new(), token }
    }

    pub fn id(&self) -> (r: ResourceScopeID)
        ensures
            r == self.spec_id(),
    {
        self.token.id()
    }

    /// How many tokens of the scope are alive, the scope's own included, so at least one.
    pub fn ref_count(&self) -> (r: usize)
        ensures
            r >= 1,
    {
        strong_count(&self.token.ref_count)
    }

    pub fn insert(&mut self, handle: ScopedResourceHandle)
        ensures
            final(self).spec_resources() == old(self).spec_resources().push(handle),
            final(self).spec_id() == old(self).spec_id(),
    {
        self.resources.push(handle);
    }

    /// Hands over every owned resource, oldest first, for destruction; the scope is left
    /// owning nothing.
    pub fn take_resources(&mut self) -> (r: Vec<ScopedResourceHandle>)
        ensures
            r@ == old(self).spec_resources(),
            final(self).spec_resources() == Seq::<ScopedResourceHandle>::empty(),
            final(self).spec_id() == old(self).spec_id(),
    {
        let mut r: Vec<ScopedResourceHandle> = Vec::new();
        std::mem::swap(&mut r, &mut self.resources);
        r
    }

    /// Destroys every owned resource, oldest first: its textures and framebuffers leave the
    /// tables, and every GL object to delete is given back in order. The scope is left owning
    /// nothing. Each texture and framebuffer it owns must still be in its table.
    pub fn destroy_owned_resources(&mut self, tables: &mut ResourceTables) -> (r: Vec<GlObject>)
        requires
            old(tables).wf(),
            release_fold(old(self).spec_resources(), old(tables).textures(), old(tables).framebuffers()) is Some,
        ensures
            final(tables).wf(),
            release_fold(old(self).spec_resources(), old(tables).textures(), old(tables).framebuffers())
                == Some((r@, final(tables).textures(), final(tables).framebuffers())),
            final(self).spec_resources() == Seq::<ScopedResourceHandle>::empty(),
            final(self).spec_id() == old(self).spec_id(),
    {
        let handles = self.take_resources();
        tables.release(&handles)
    }
}

} // verus!
