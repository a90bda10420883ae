use vstd::prelude::*;
use crate::gfx::buffer::Buffer;
use crate::gfx::vertex::{Vertex, Attribute, Descriptor};

verus! {

/// One GL call that sets up a vertex array object.
#[derive(Copy, Clone, Debug, PartialEq, Eq, Structural)]
pub enum VaoCommand {
    /// `glVertexArrayElementBuffer`.
    ElementBuffer { vao: u32, buffer: u32 },
    /// `glEnableVertexArrayAttrib`, `glVertexArrayAttribBinding` and
    /// `glVertexArrayAttribFormat` for attribute `index`.
    Attribute { vao: u32, index: u32, binding: u32, attribute: Attribute },
    /// `glVertexArrayVertexBuffer` from offset 0 with the given stride.
    VertexBuffer { vao: u32, binding: u32, buffer: u32, stride: u32 },
}

/// A GL vertex array object.
#[derive(Copy, Clone, Debug)]
pub struct Vao {
    handle: u32,
}

/// The setup of attribute `i` of `attrs` in `vao`, from binding slot `binding`.
pub open spec fn attribute_setup(vao: u32, binding: u32, attrs: Seq<Attribute>, i: int) -> VaoCommand {
    VaoCommand::Attribute { vao, index: i as u32, binding, attribute: attrs[i] }
}

impl Vao {
    pub closed spec fn spec_handle(self) -> u32 {
        self.handle
    }

    pub fn new(handle: u32) -> (v: Vao)
        ensures
            v.spec_handle() == handle,
    {
        Vao { handle }
    }

    pub fn handle(&self) -> (r: u32)
        ensures
            r == self.spec_handle(),
    {
        self.handle
    }

    pub fn bind_index_buffer(&mut self, index_buffer: Buffer<u16>) -> (cmd: VaoCommand)
        ensures
            *final(self) == *old(self),
            cmd == (VaoCommand::ElementBuffer { vao: old(self).spec_handle(), buffer: index_buffer.spec_handle() }),
    {
        VaoCommand::ElementBuffer { vao: self.handle, buffer: index_buffer.handle() }
    }

    /// The calls that describe `V`'s attributes to the vertex array and bind
    /// `vertex_buffer` to slot `binding`. They follow from whatever `V::descriptor` gives:
    /// see `vertex_setup_commands`.
    pub fn bind_vertex_buffer<V: Vertex>(&mut self, binding: u32, vertex_buffer: Buffer<V>) -> (cmds: Vec<VaoCommand>)
        ensures
            *final(self) == *old(self),
            exists|d: Descriptor| #![trigger vertex_setup(old(self).spec_handle(), binding, d.attributes@, d.size_bytes, vertex_buffer.spec_handle())]
                cmds@ == vertex_setup(old(self).spec_handle(), binding, d.attributes@, d.size_bytes, vertex_buffer.spec_handle()),
    {
        let descriptor = V::descriptor();
        let cmds = vertex_setup_commands(self.handle, binding, &descriptor, vertex_buffer.handle());
        assert(cmds@ == vertex_setup(old(self).spec_handle(), binding, descriptor.attributes@, descriptor.size_bytes, vertex_buffer.spec_handle()));
        cmds
    }
}

/// The setup calls for a vertex layout: one per attribute, in order, then the binding of
/// `buffer` to slot `binding` with the vertex size as stride.
pub fn vertex_setup_commands(vao: u32, binding: u32, descriptor: &Descriptor, buffer: u32) -> (cmds: Vec<VaoCommand>)
    ensures
        cmds@ == vertex_setup(vao, binding, descriptor.attributes@, descriptor.size_bytes, buffer),
{
    let attrs = descriptor.attributes;
    let mut cmds: Vec<VaoCommand> = Vec::new();
    let mut i: usize = 0;
    while i < attrs.len()
        invariant
            i <= attrs@.len(),
            cmds@.len() == i,
            forall|k: int| 0 <= k < i ==> cmds@[k] == #[trigger] attribute_setup(vao, binding, attrs@, k),
        decreases attrs@.len() - i,
    {
        cmds.push(VaoCommand::Attribute { vao, index: i as u32, binding, attribute: attrs[i] });
        i = i + 1;
    }
    cmds.push(VaoCommand::VertexBuffer { vao, binding, buffer, stride: descriptor.size_bytes });
    assert(cmds@ =~= vertex_setup(vao, binding, attrs@, descriptor.size_bytes, buffer));
    cmds
}

/// The setup calls for a vertex type with attributes `attrs` and size `size`: the attribute
/// setups in order, then the binding of `buffer` with that size as stride.
pub open spec fn vertex_setup(vao: u32, binding: u32, attrs: Seq<Attribute>, size: u32, buffer: u32) -> Seq<VaoCommand> {
    Seq::new(attrs.len(), |i: int| attribute_setup(vao, binding, attrs, i)).push(
        VaoCommand::VertexBuffer { vao, binding, buffer, stride: size })
}

} // verus!
