use vstd::prelude::*;
use slotmap::{DefaultKey, Key, KeyData, SlotMap};
use crate::gfx::resource_scope::ScopedResourceHandle;

verus! {

/// Whether the bits of a key carry an odd version, as every key of a live slot does.
pub open spec fn live_key_bits(bits: u64) -> bool {
    (bits / 4294967296u64) % 2 == 1
}

/// The textures of the graphics system, in a slot map, each with its GL texture and
/// sampler objects.
///
/// A slot map with its key type cannot be declared to Verus (the key bound is an outside
/// trait), so the map is held here, out of Verus's sight, and reached only through the
/// functions below.
#[verifier::external_body]
pub struct TextureTable {
    slots: SlotMap<DefaultKey, (u32, u32)>,
}

/// The framebuffers of the graphics system, in a slot map, each with its GL framebuffer
/// object; held out of Verus's sight for the same reason as `TextureTable`.
#[verifier::external_body]
pub struct FramebufferTable {
    slots: SlotMap<DefaultKey, u32>,
}

/// What a texture table holds, by the bits of the keys (`KeyData::as_ffi`):
/// `(texture object, sampler object)`.
pub uninterp spec fn texture_slots(t: TextureTable) -> Map<u64, (u32, u32)>;

/// What a framebuffer table holds, by the bits of the keys: the framebuffer object.
pub uninterp spec fn framebuffer_slots(t: FramebufferTable) -> Map<u64, u32>;

/// `SlotMap::new`: an empty texture table.
#[verifier::external_body]
fn new_texture_table() -> (r: TextureTable)
    ensures
        texture_slots(r).dom() == Set::<u64>::empty(),
{
    TextureTable { slots: SlotMap::new() }
}

/// `SlotMap::new`: an empty framebuffer table.
#[verifier::external_body]
fn new_framebuffer_table() -> (r: FramebufferTable)
    ensures
        framebuffer_slots(r).dom() == Set::<u64>::empty(),
{
    FramebufferTable { slots: SlotMap::new() }
}

/// `SlotMap::insert`: stores a texture in a vacant slot and returns its key's bits, which
/// no stored texture has and which carry an odd version. The slot map panics when it is
/// full, which the bound on its size rules out.
#[verifier::external_body]
fn insert_texture_slot(t: &mut TextureTable, v: (u32, u32)) -> (r: u64)
    requires
        texture_slots(*old(t)).dom().finite(),
        texture_slots(*old(t)).len() + 2 < u32::MAX,
    ensures
        !texture_slots(*old(t)).dom().contains(r),
        live_key_bits(r),
        texture_slots(*final(t)) == texture_slots(*old(t)).insert(r, v),
{
    t.slots.insert(v).data().as_ffi()
}

/// `SlotMap::insert` for a framebuffer, as `insert_texture_slot`.
#[verifier::external_body]
fn insert_framebuffer_slot(t: &mut FramebufferTable, v: u32) -> (r: u64)
    requires
        framebuffer_slots(*old(t)).dom().finite(),
        framebuffer_slots(*old(t)).len() + 2 < u32::MAX,
    ensures
        !framebuffer_slots(*old(t)).dom().contains(r),
        live_key_bits(r),
        framebuffer_slots(*final(t)) == framebuffer_slots(*old(t)).insert(r, v),
{
    t.slots.insert(v).data().as_ffi()
}

/// `SlotMap::contains_key` for a key with an odd version (`KeyData::from_ffi` keeps such
/// bits as they are).
#[verifier::external_body]
fn texture_slot_exists(t: &TextureTable, bits: u64) -> (r: bool)
    requires
        live_key_bits(bits),
    ensures
        r == texture_slots(*t).dom().contains(bits),
{
    t.slots.contains_key(KeyData::from_ffi(bits).into())
}

/// `SlotMap::contains_key` for a framebuffer key with an odd version.
#[verifier::external_body]
fn framebuffer_slot_exists(t: &FramebufferTable, bits: u64) -> (r: bool)
    requires
        live_key_bits(bits),
    ensures
        r == framebuffer_slots(*t).dom().contains(bits),
{
    t.slots.contains_key(KeyData::from_ffi(bits).into())
}

/// `SlotMap::remove` of a stored texture: gives back its objects.
#[verifier::external_body]
fn remove_texture_slot(t: &mut TextureTable, bits: u64) -> (r: Option<(u32, u32)>)
    requires
        texture_slots(*old(t)).dom().contains(bits),
    ensures
        r == Some(texture_slots(*old(t))[bits]),
        texture_slots(*final(t)) == texture_slots(*old(t)).remove(bits),
{
    t.slots.remove(KeyData::from_ffi(bits).into())
}

/// `SlotMap::remove` of a stored framebuffer: gives back its object.
#[verifier::external_body]
fn remove_framebuffer_slot(t: &mut FramebufferTable, bits: u64) -> (r: Option<u32>)
    requires
        framebuffer_slots(*old(t)).dom().contains(bits),
    ensures
        r == Some(framebuffer_slots(*old(t))[bits]),
        framebuffer_slots(*final(t)) == framebuffer_slots(*old(t)).remove(bits),
{
    t.slots.remove(KeyData::from_ffi(bits).into())
}

/// A GL object to delete.
#[derive(Copy, Clone, Debug, PartialEq, Eq, Structural)]
pub enum GlObject {
    Buffer(u32),
    VertexArray(u32),
    Query(u32),
    Sampler(u32),
    Texture(u32),
    Framebuffer(u32),
}

/// Releasing `handles` in order from the tables `tex` and `fb`: the GL objects to delete,
/// and the tables left. A texture goes with its sampler, then its texture object; a texture
/// or framebuffer no longer in its table stops the release (`None`).
pub open spec fn release_fold(
    handles: Seq<ScopedResourceHandle>,
    tex: Map<u64, (u32, u32)>,
    fb: Map<u64, u32>,
) -> Option<(Seq<GlObject>, Map<u64, (u32, u32)>, Map<u64, u32>)>
    decreases handles.len(),
{
    if handles.len() == 0 {
        Some((Seq::empty(), tex, fb))
    } else {
        match release_fold(handles.drop_last(), tex, fb) {
            None => None,
            Some((objs, t, f)) => match handles.last() {
                ScopedResourceHandle::Buffer { handle } => Some((objs.push(GlObject::Buffer(handle)), t, f)),
                ScopedResourceHandle::Vao { handle } => Some((objs.push(GlObject::VertexArray(handle)), t, f)),
                ScopedResourceHandle::Query { handle } => Some((objs.push(GlObject::Query(handle)), t, f)),
                ScopedResourceHandle::Texture { key } => if t.dom().contains(key) {
                    Some((objs.push(GlObject::Sampler(t[key].1)).push(GlObject::Texture(t[key].0)), t.remove(key), f))
                } else {
                    None
                },
                ScopedResourceHandle::Framebuffer { key } => if f.dom().contains(key) {
                    Some((objs.push(GlObject::Framebuffer(f[key])), t, f.remove(key)))
                } else {
                    None
                },
            },
        }
    }
}

/// The texture and framebuffer tables of the graphics system.
pub struct ResourceTables {
    textures: TextureTable,
    framebuffers: FramebufferTable,
}

impl ResourceTables {
    /// The textures, by key bits: `(texture object, sampler object)`.
    pub closed spec fn textures(self) -> Map<u64, (u32, u32)> {
        texture_slots(self.textures)
    }

    /// The framebuffers, by key bits.
    pub closed spec fn framebuffers(self) -> Map<u64, u32> {
        framebuffer_slots(self.framebuffers)
    }

    /// Both tables are finite and every key in them carries an odd version.
    pub open spec fn wf(self) -> bool {
        &&& self.textures().dom().finite()
        &&& self.framebuffers().dom().finite()
        &&& forall|k: u64| #[trigger] self.textures().dom().contains(k) ==> live_key_bits(k)
        &&& forall|k: u64| #[trigger] self.framebuffers().dom().contains(k) ==> live_key_bits(k)
    }

    pub fn new() -> (r: ResourceTables)
        ensures
            r.wf(),
            r.textures() == Map::<u64, (u32, u32)>::empty(),
            r.framebuffers() == Map::<u64, u32>::empty(),
    {
        let r = ResourceTables { textures: new_texture_table(), framebuffers: new_framebuffer_table() };
        assert(r.textures() =~= Map::<u64, (u32, u32)>::empty());
        assert(r.framebuffers() =~= Map::<u64, u32>::empty());
        r
    }

    /// Stores a texture's objects and returns its key's bits.
    pub fn insert_texture(&mut self, texture_handle: u32, sampler_handle: u32) -> (key: u64)
        requires
            old(self).wf(),
            old(self).textures().len() + 2 < u32::MAX,
        ensures
            final(self).wf(),
            !old(self).textures().dom().contains(key),
            final(self).textures() == old(self).textures().insert(key, (texture_handle, sampler_handle)),
            final(self).framebuffers() == old(self).framebuffers(),
    {
        insert_texture_slot(&mut self.textures, (texture_handle, sampler_handle))
    }

    /// Stores a framebuffer's object and returns its key's bits.
    pub fn insert_framebuffer(&mut self, handle: u32) -> (key: u64)
        requires
            old(self).wf(),
            old(self).framebuffers().len() + 2 < u32::MAX,
        ensures
            final(self).wf(),
            !old(self).framebuffers().dom().contains(key),
            final(self).framebuffers() == old(self).framebuffers().insert(key, handle),
            final(self).textures() == old(self).textures(),
    {
        insert_framebuffer_slot(&mut self.framebuffers, handle)
    }

    /// Whether every texture and framebuffer among `handles` is still in its table, and
    /// none comes twice: whether `release` can take them.
    pub fn can_release(&self, handles: &Vec<ScopedResourceHandle>) -> (r: bool)
        requires
            self.wf(),
        ensures
            r == (release_fold(handles@, self.textures(), self.framebuffers()) is Some),
    {
        let ghost tex = self.textures();
        let ghost fb = self.framebuffers();
        let mut gone_textures: Vec<u64> = Vec::new();
        let mut gone_framebuffers: Vec<u64> = Vec::new();
        let mut i: usize = 0;
        while i < handles.len()
            invariant
                self.wf(),
                tex == self.textures(),
                fb == self.framebuffers(),
                i <= handles@.len(),
                release_fold(handles@.take(i as int), tex, fb) matches Some((_, t, f)) && {
                    &&& forall|k: u64| #[trigger] t.dom().contains(k) <==> (tex.dom().contains(k) && !gone_textures@.contains(k))
                    &&& forall|k: u64| #[trigger] f.dom().contains(k) <==> (fb.dom().contains(k) && !gone_framebuffers@.contains(k))
                    &&& forall|k: u64| #[trigger] t.dom().contains(k) ==> t[k] == tex[k]
                    &&& forall|k: u64| #[trigger] f.dom().contains(k) ==> f[k] == fb[k]
                },
            decreases handles@.len() - i,
        {
            let ghost pre = release_fold(handles@.take(i as int), tex, fb);
            proof {
                assert(handles@.take(i + 1).drop_last() =~= handles@.take(i as int));
                assert(handles@.take(i + 1).last() == handles@[i as int]);
            }
            match handles[i] {
                ScopedResourceHandle::Texture { key } => {
                    if key / 4294967296u64 % 2 != 1 {
                        proof {
                            let t = pre.unwrap().1;
                            assert(!tex.dom().contains(key));
                            assert(!t.dom().contains(key));
                            lemma_release_stops(handles@, tex, fb, i as int + 1);
                        }
                        return false;
                    }
                    if !texture_slot_exists(&self.textures, key) || vec_has(&gone_textures, key) {
                        proof {
                            let t = pre.unwrap().1;
                            assert(!t.dom().contains(key));
                            lemma_release_stops(handles@, tex, fb, i as int + 1);
                        }
                        return false;
                    }
                    let ghost g0 = gone_textures@;
                    gone_textures.push(key);
                    proof {
                        let t = pre.unwrap().1;
                        assert(t.dom().contains(key));
                        assert forall|k: u64| #[trigger] gone_textures@.contains(k) <==> (g0.contains(k) || k == key) by {
                            if gone_textures@.contains(k) {
                                let j = choose|j: int| 0 <= j < gone_textures@.len() && gone_textures@[j] == k;
                                if j < g0.len() { assert(g0[j] == k); }
                            }
                            if g0.contains(k) {
                                let j = choose|j: int| 0 <= j < g0.len() && g0[j] == k;
                                assert(gone_textures@[j] == k);
                            }
                            if k == key { assert(gone_textures@[g0.len() as int] == k); }
                        }
                    }
                },
                ScopedResourceHandle::Framebuffer { key } => {
                    if key / 4294967296u64 % 2 != 1 {
                        proof {
                            let f = pre.unwrap().2;
                            assert(!fb.dom().contains(key));
                            assert(!f.dom().contains(key));
                            lemma_release_stops(handles@, tex, fb, i as int + 1);
                        }
                        return false;
                    }
                    if !framebuffer_slot_exists(&self.framebuffers, key) || vec_has(&gone_framebuffers, key) {
                        proof {
                            let f = pre.unwrap().2;
                            assert(!f.dom().contains(key));
                            lemma_release_stops(handles@, tex, fb, i as int + 1);
                        }
                        return false;
                    }
                    let ghost g0 = gone_framebuffers@;
                    gone_framebuffers.push(key);
                    proof {
                        let f = pre.unwrap().2;
                        assert(f.dom().contains(key));
                        assert forall|k: u64| #[trigger] gone_framebuffers@.contains(k) <==> (g0.contains(k) || k == key) by {
                            if gone_framebuffers@.contains(k) {
                                let j = choose|j: int| 0 <= j < gone_framebuffers@.len() && gone_framebuffers@[j] == k;
                                if j < g0.len() { assert(g0[j] == k); }
                            }
                            if g0.contains(k) {
                                let j = choose|j: int| 0 <= j < g0.len() && g0[j] == k;
                                assert(gone_framebuffers@[j] == k);
                            }
                            if k == key { assert(gone_framebuffers@[g0.len() as int] == k); }
                        }
                    }
                },
                _ => {},
            }
            i = i + 1;
        }
        proof {
            assert(handles@.take(handles@.len() as int) =~= handles@);
        }
        true
    }

    /// Takes out of the tables the textures and framebuffers among `handles`, in order, and
    /// gives every GL object to delete: each buffer, vertex array and query, each texture's
    /// sampler and texture objects, each framebuffer's object.
    pub fn release(&mut self, handles: &Vec<ScopedResourceHandle>) -> (r: Vec<GlObject>)
        requires
            old(self).wf(),
            release_fold(handles@, old(self).textures(), old(self).framebuffers()) is Some,
        ensures
            final(self).wf(),
            release_fold(handles@, old(self).textures(), old(self).framebuffers())
                == Some((r@, final(self).textures(), final(self).framebuffers())),
    {
        let ghost tex = self.textures();
        let ghost fb = self.framebuffers();
        let mut r: Vec<GlObject> = Vec::new();
        let mut i: usize = 0;
        while i < handles.len()
            invariant
                self.wf(),
                i <= handles@.len(),
                release_fold(handles@, tex, fb) is Some,
                release_fold(handles@.take(i as int), tex, fb) == Some((r@, self.textures(), self.framebuffers())),
            decreases handles@.len() - i,
        {
            proof {
                assert(handles@.take(i + 1).drop_last() =~= handles@.take(i as int));
                assert(handles@.take(i + 1).last() == handles@[i as int]);
                lemma_release_prefix(handles@, tex, fb, i as int + 1);
            }
            match handles[i] {
                ScopedResourceHandle::Buffer { handle } => r.push(GlObject::Buffer(handle)),
                ScopedResourceHandle::Vao { handle } => r.push(GlObject::VertexArray(handle)),
                ScopedResourceHandle::Query { handle } => r.push(GlObject::Query(handle)),
                ScopedResourceHandle::Texture { key } => {
                    let objects = remove_texture_slot(&mut self.textures, key);
                    let (texture, sampler) = match objects {
                        Some(o) => o,
                        None => (0, 0),
                    };
                    r.push(GlObject::Sampler(sampler));
                    r.push(GlObject::Texture(texture));
                },
                ScopedResourceHandle::Framebuffer { key } => {
                    let object = match remove_framebuffer_slot(&mut self.framebuffers, key) {
                        Some(o) => o,
                        None => 0,
                    };
                    r.push(GlObject::Framebuffer(object));
                },
            }
            i = i + 1;
        }
        proof {
            assert(handles@.take(handles@.len() as int) =~= handles@);
        }
        r
    }
}

/// Whether `x` is in `v`.
fn vec_has(v: &Vec<u64>, x: u64) -> (r: bool)
    ensures
        r == v@.contains(x),
{
    let mut i: usize = 0;
    while i < v.len()
        invariant
            i <= v@.len(),
            forall|j: int| 0 <= j < i ==> v@[j] != x,
        decreases v@.len() - i,
    {
        if v[i] == x {
            return true;
        }
        i = i + 1;
    }
    false
}

/// A release that stops at a prefix stops for the whole sequence.
proof fn lemma_release_stops(handles: Seq<ScopedResourceHandle>, tex: Map<u64, (u32, u32)>, fb: Map<u64, u32>, n: int)
    requires
        0 <= n <= handles.len(),
        release_fold(handles.take(n), tex, fb) is None,
    ensures
        release_fold(handles, tex, fb) is None,
    decreases handles.len() - n,
{
    if n < handles.len() {
        assert(handles.take(n + 1).drop_last() =~= handles.take(n));
        lemma_release_stops(handles, tex, fb, n + 1);
    } else {
        assert(handles.take(n) =~= handles);
    }
}

/// A release that goes through goes through every prefix.
proof fn lemma_release_prefix(handles: Seq<ScopedResourceHandle>, tex: Map<u64, (u32, u32)>, fb: Map<u64, u32>, n: int)
    requires
        0 <= n <= handles.len(),
        release_fold(handles, tex, fb) is Some,
    ensures
        release_fold(handles.take(n), tex, fb) is Some,
{
    if release_fold(handles.take(n), tex, fb) is None {
        lemma_release_stops(handles, tex, fb, n);
    }
}

} // verus!
