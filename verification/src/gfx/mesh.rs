use vstd::prelude::*;
use crate::gfx::buffer::{Buffer, BufferUsage, BufferUpload, upload_for};
use crate::gfx::draw::{DrawContext, DrawMode, IndexedDrawParams, indexed_draw, arrays_draw, instanced_draw, DrawCommand};
use crate::gfx::vao::{Vao, VaoCommand, vertex_setup};
use crate::gfx::vertex::{Vertex, Descriptor};

verus! {

/// The GL objects, freshly created, that a mesh is built on.
#[derive(Copy, Clone, Debug, PartialEq, Eq, Structural)]
pub struct MeshHandles {
    pub vao: u32,
    pub vertex_buffer: u32,
    pub index_buffer: u32,
}

/// The GL objects, freshly created, that a basic mesh is built on.
#[derive(Copy, Clone, Debug, PartialEq, Eq, Structural)]
pub struct BasicMeshHandles {
    pub vao: u32,
    pub vertex_buffer: u32,
}

/// The uploads that refreshing a mesh asks for, vertices first.
#[derive(Copy, Clone, Debug, PartialEq, Eq, Structural)]
pub struct MeshUpload {
    pub vertices: Option<BufferUpload>,
    pub indices: Option<BufferUpload>,
}

/// The setup of a vertex array that reads vertex buffer `vb` from slot 0 with some layout
/// of the vertex type, then indices from `ib`.
pub open spec fn mesh_setup(vao: u32, vb: u32, ib: u32, cmds: Seq<VaoCommand>) -> bool {
    exists|d: Descriptor| #![trigger vertex_setup(vao, 0, d.attributes@, d.size_bytes, vb)]
        cmds == vertex_setup(vao, 0, d.attributes@, d.size_bytes, vb).push(
            VaoCommand::ElementBuffer { vao, buffer: ib })
}

/// The setup of a vertex array that reads vertex buffer `vb` from slot 0.
pub open spec fn basic_mesh_setup(vao: u32, vb: u32, cmds: Seq<VaoCommand>) -> bool {
    exists|d: Descriptor| #![trigger vertex_setup(vao, 0, d.attributes@, d.size_bytes, vb)]
        cmds == vertex_setup(vao, 0, d.attributes@, d.size_bytes, vb)
}

/// A vertex array with a vertex buffer and a 16 bit index buffer, for indexed geometry.
pub struct Mesh<V: Vertex> {
    pub vao: Vao,
    pub vertex_buffer: Buffer<V>,
    pub index_buffer: Buffer<u16>,
}

impl<V: Vertex> Mesh<V> {
    /// The mesh holds the given objects, with empty buffers of the given usage.
    pub open spec fn built_on(self, handles: MeshHandles, usage: BufferUsage) -> bool {
        &&& self.vao.spec_handle() == handles.vao
        &&& self.vertex_buffer.spec_handle() == handles.vertex_buffer
        &&& self.index_buffer.spec_handle() == handles.index_buffer
        &&& self.vertex_buffer.spec_usage() == usage
        &&& self.index_buffer.spec_usage() == usage
    }

    /// Builds a mesh on fresh GL objects; the returned calls set up its vertex array.
    pub fn with_buffer_usage(handles: MeshHandles, buffer_usage: BufferUsage) -> (r: (Mesh<V>, Vec<VaoCommand>))
        ensures
            r.0.built_on(handles, buffer_usage),
            r.0.vertex_buffer.spec_len() == 0,
            r.0.index_buffer.spec_len() == 0,
            mesh_setup(handles.vao, handles.vertex_buffer, handles.index_buffer, r.1@),
    {
        let mut vao = Vao::new(handles.vao);
        let vertex_buffer: Buffer<V> = Buffer::from_raw(handles.vertex_buffer, buffer_usage);
        let index_buffer: Buffer<u16> = Buffer::from_raw(handles.index_buffer, buffer_usage);
        let mut cmds = vao.bind_vertex_buffer(0, vertex_buffer);
        let ghost setup = cmds@;
        let bind = vao.bind_index_buffer(index_buffer);
        cmds.push(bind);
        let ghost d = choose|d: Descriptor| #![trigger vertex_setup(handles.vao, 0, d.attributes@, d.size_bytes, handles.vertex_buffer)]
            setup == vertex_setup(handles.vao, 0, d.attributes@, d.size_bytes, handles.vertex_buffer);
        assert(cmds@ == vertex_setup(handles.vao, 0, d.attributes@, d.size_bytes, handles.vertex_buffer).push(
            VaoCommand::ElementBuffer { vao: handles.vao, buffer: handles.index_buffer }));
        (Mesh { vao, vertex_buffer, index_buffer }, cmds)
    }

    /// A mesh meant to be refreshed often.
    pub fn new(handles: MeshHandles) -> (r: (Mesh<V>, Vec<VaoCommand>))
        ensures
            r.0.built_on(handles, BufferUsage::Stream),
            r.0.vertex_buffer.spec_len() == 0,
            r.0.index_buffer.spec_len() == 0,
            mesh_setup(handles.vao, handles.vertex_buffer, handles.index_buffer, r.1@),
    {
        Mesh::with_buffer_usage(handles, BufferUsage::Stream)
    }

    /// A mesh that holds `mesh_data` and is not meant to change.
    pub fn from_mesh_data(handles: MeshHandles, mesh_data: &MeshData<V>) -> (r: (Mesh<V>, Vec<VaoCommand>, MeshUpload))
        ensures
            r.0.built_on(handles, BufferUsage::Static),
            r.0.vertex_buffer.spec_len() == mesh_data.vertices@.len() as u32,
            r.0.index_buffer.spec_len() == mesh_data.indices@.len() as u32,
            mesh_setup(handles.vao, handles.vertex_buffer, handles.index_buffer, r.1@),
            r.2 == (MeshUpload {
                vertices: upload_for(handles.vertex_buffer, BufferUsage::Static, mesh_data.vertices@.len()),
                indices: upload_for(handles.index_buffer, BufferUsage::Static, mesh_data.indices@.len()),
            }),
    {
        let (mut mesh, cmds) = Mesh::with_buffer_usage(handles, BufferUsage::Static);
        let up = mesh.upload(mesh_data);
        (mesh, cmds, up)
    }

    /// Binds the vertex array and draws all uploaded indices.
    pub fn draw(&self, gfx: &mut DrawContext, draw_mode: DrawMode)
        ensures
            final(gfx).spec_commands() == old(gfx).spec_commands()
                .push(DrawCommand::BindVao { vao: self.vao.spec_handle() })
                + indexed_draw(draw_mode, IndexedDrawParams {
                    num_elements: self.index_buffer.spec_len(),
                    element_offset: 0,
                    base_vertex: 0,
                }),
    {
        gfx.bind_vao(self.vao);
        gfx.draw_indexed(draw_mode, IndexedDrawParams::from_count(self.index_buffer.len()));
    }

    /// Binds the vertex array and draws all uploaded indices `num_instances` times.
    pub fn draw_instanced(&self, gfx: &mut DrawContext, draw_mode: DrawMode, num_instances: u32)
        ensures
            final(gfx).spec_commands() == old(gfx).spec_commands()
                .push(DrawCommand::BindVao { vao: self.vao.spec_handle() })
                + instanced_draw(draw_mode, self.index_buffer.spec_len(), num_instances),
    {
        gfx.bind_vao(self.vao);
        gfx.draw_instances_indexed(draw_mode, self.index_buffer.len(), num_instances);
    }

    pub fn upload(&mut self, mesh_data: &MeshData<V>) -> (up: MeshUpload)
        ensures
            final(self).vao == old(self).vao,
            final(self).vertex_buffer.spec_handle() == old(self).vertex_buffer.spec_handle(),
            final(self).vertex_buffer.spec_usage() == old(self).vertex_buffer.spec_usage(),
            final(self).index_buffer.spec_handle() == old(self).index_buffer.spec_handle(),
            final(self).index_buffer.spec_usage() == old(self).index_buffer.spec_usage(),
            final(self).vertex_buffer.spec_len() == mesh_data.vertices@.len() as u32,
            final(self).index_buffer.spec_len() == mesh_data.indices@.len() as u32,
            up == (MeshUpload {
                vertices: upload_for(old(self).vertex_buffer.spec_handle(), old(self).vertex_buffer.spec_usage(), mesh_data.vertices@.len()),
                indices: upload_for(old(self).index_buffer.spec_handle(), old(self).index_buffer.spec_usage(), mesh_data.indices@.len()),
            }),
    {
        let vertices = self.vertex_buffer.upload(mesh_data.vertices.as_slice());
        let indices = self.index_buffer.upload(mesh_data.indices.as_slice());
        MeshUpload { vertices, indices }
    }

    pub fn upload_separate(&mut self, vertices: &[V], indices: &[u16]) -> (up: MeshUpload)
        ensures
            final(self).vao == old(self).vao,
            final(self).vertex_buffer.spec_handle() == old(self).vertex_buffer.spec_handle(),
            final(self).vertex_buffer.spec_usage() == old(self).vertex_buffer.spec_usage(),
            final(self).index_buffer.spec_handle() == old(self).index_buffer.spec_handle(),
            final(self).index_buffer.spec_usage() == old(self).index_buffer.spec_usage(),
            final(self).vertex_buffer.spec_len() == vertices@.len() as u32,
            final(self).index_buffer.spec_len() == indices@.len() as u32,
            up == (MeshUpload {
                vertices: upload_for(old(self).vertex_buffer.spec_handle(), old(self).vertex_buffer.spec_usage(), vertices@.len()),
                indices: upload_for(old(self).index_buffer.spec_handle(), old(self).index_buffer.spec_usage(), indices@.len()),
            }),
    {
        let v = self.vertex_buffer.upload(vertices);
        let i = self.index_buffer.upload(indices);
        MeshUpload { vertices: v, indices: i }
    }
}

/// A vertex array with a vertex buffer, for geometry drawn without indices.
pub struct BasicMesh<V: Vertex> {
    pub vao: Vao,
    pub vertex_buffer: Buffer<V>,
}

impl<V: Vertex> BasicMesh<V> {
    /// Builds a mesh on fresh GL objects; the returned calls set up its vertex array.
    pub fn with_buffer_usage(handles: BasicMeshHandles, buffer_usage: BufferUsage) -> (r: (BasicMesh<V>, Vec<VaoCommand>))
        ensures
            r.0.vao.spec_handle() == handles.vao,
            r.0.vertex_buffer.spec_handle() == handles.vertex_buffer,
            r.0.vertex_buffer.spec_usage() == buffer_usage,
            r.0.vertex_buffer.spec_len() == 0,
            basic_mesh_setup(handles.vao, handles.vertex_buffer, r.1@),
    {
        let mut vao = Vao::new(handles.vao);
        let vertex_buffer: Buffer<V> = Buffer::from_raw(handles.vertex_buffer, buffer_usage);
        let cmds = vao.bind_vertex_buffer(0, vertex_buffer);
        (BasicMesh { vao, vertex_buffer }, cmds)
    }

    /// A mesh meant to be refreshed often.
    pub fn new(handles: BasicMeshHandles) -> (r: (BasicMesh<V>, Vec<VaoCommand>))
        ensures
            r.0.vao.spec_handle() == handles.vao,
            r.0.vertex_buffer.spec_handle() == handles.vertex_buffer,
            r.0.vertex_buffer.spec_usage() == BufferUsage::Stream,
            r.0.vertex_buffer.spec_len() == 0,
            basic_mesh_setup(handles.vao, handles.vertex_buffer, r.1@),
    {
        BasicMesh::with_buffer_usage(handles, BufferUsage::Stream)
    }

    /// A mesh that holds `vertices` and is not meant to change.
    pub fn from_vertices(handles: BasicMeshHandles, vertices: &[V]) -> (r: (BasicMesh<V>, Vec<VaoCommand>, Option<BufferUpload>))
        ensures
            r.0.vao.spec_handle() == handles.vao,
            r.0.vertex_buffer.spec_handle() == handles.vertex_buffer,
            r.0.vertex_buffer.spec_usage() == BufferUsage::Static,
            r.0.vertex_buffer.spec_len() == vertices@.len() as u32,
            basic_mesh_setup(handles.vao, handles.vertex_buffer, r.1@),
            r.2 == upload_for(handles.vertex_buffer, BufferUsage::Static, vertices@.len()),
    {
        let (mut mesh, cmds) = BasicMesh::with_buffer_usage(handles, BufferUsage::Static);
        let up = mesh.upload(vertices);
        (mesh, cmds, up)
    }

    /// Binds the vertex array and draws all uploaded vertices.
    pub fn draw(&self, gfx: &mut DrawContext, draw_mode: DrawMode)
        ensures
            final(gfx).spec_commands() == old(gfx).spec_commands()
                .push(DrawCommand::BindVao { vao: self.vao.spec_handle() })
                + arrays_draw(draw_mode, self.vertex_buffer.spec_len()),
    {
        gfx.bind_vao(self.vao);
        gfx.draw_arrays(draw_mode, self.vertex_buffer.len());
    }

    pub fn upload(&mut self, vertices: &[V]) -> (up: Option<BufferUpload>)
        ensures
            final(self).vao == old(self).vao,
            final(self).vertex_buffer.spec_handle() == old(self).vertex_buffer.spec_handle(),
            final(self).vertex_buffer.spec_usage() == old(self).vertex_buffer.spec_usage(),
            final(self).vertex_buffer.spec_len() == vertices@.len() as u32,
            up == upload_for(old(self).vertex_buffer.spec_handle(), old(self).vertex_buffer.spec_usage(), vertices@.len()),
    {
        self.vertex_buffer.upload(vertices)
    }
}

/// `is`, shifted by `start` (taken modulo 2^16).
pub open spec fn shifted_indices(is: Seq<u16>, start: u16) -> Seq<u16> {
    is.map_values(|i: u16| (start + i) as u16)
}

/// Geometry data to be uploaded to a mesh.
pub struct MeshData<V: Vertex> {
    pub vertices: Vec<V>,
    pub indices: Vec<u16>,
}

impl<V: Vertex> MeshData<V> {
    pub fn new() -> (m: MeshData<V>)
        ensures
            m.vertices@ == Seq::<V>::empty(),
            m.indices@ == Seq::<u16>::empty(),
    {
        MeshData { vertices: Vec::new(), indices: Vec::new() }
    }

    pub fn clear(&mut self)
        ensures
            final(self).vertices@ == Seq::<V>::empty(),
            final(self).indices@ == Seq::<u16>::empty(),
    {
        self.vertices.clear();
        self.indices.clear();
    }

    /// Appends vertices, and indices that count from the first of them. The index offset
    /// is the old vertex count taken modulo 2^16; shifted indices must fit in 16 bits.
    pub fn extend(&mut self, vs: &[V], is: &[u16])
        requires
            forall|k: int| 0 <= k < is@.len() ==>
                (old(self).vertices@.len() as u16) + #[trigger] is@[k] <= u16::MAX,
        ensures
            final(self).vertices@ == old(self).vertices@ + vs@,
            final(self).indices@ == old(self).indices@ + shifted_indices(is@, old(self).vertices@.len() as u16),
    {
        let index_start = self.vertices.len() as u16;
        let ghost v0 = self.vertices@;
        let ghost i0 = self.indices@;
        let mut k: usize = 0;
        while k < vs.len()
            invariant
                k <= vs@.len(),
                self.vertices@ == v0 + vs@.take(k as int),
                self.indices@ == i0,
            decreases vs@.len() - k,
        {
            self.vertices.push(vs[k]);
            k = k + 1;
            assert(self.vertices@ =~= v0 + vs@.take(k as int));
        }
        assert(vs@.take(vs@.len() as int) =~= vs@);
        let mut k: usize = 0;
        while k < is.len()
            invariant
                k <= is@.len(),
                index_start == v0.len() as u16,
                forall|j: int| 0 <= j < is@.len() ==> index_start + #[trigger] is@[j] <= u16::MAX,
                self.vertices@ == v0 + vs@,
                self.indices@ == i0 + shifted_indices(is@.take(k as int), index_start),
            decreases is@.len() - k,
        {
            let x = is[k];
            self.indices.push(index_start + x);
            k = k + 1;
            assert(self.indices@ =~= i0 + shifted_indices(is@.take(k as int), index_start));
        }
        assert(is@.take(is@.len() as int) =~= is@);
    }
}


/// The number of vertices that a fan uses: indices are 16 bit, so at most `u16::MAX - 2`.
pub open spec fn fan_vertex_count(num_vertices: usize) -> int {
    if num_vertices < 65533 { num_vertices as int } else { 65533 }
}

/// Index `k` of a triangle fan around vertex 0: triangle `k / 3` is `0, t + 1, t + 2`.
pub open spec fn fan_index(k: int) -> u16 {
    if k % 3 == 0 {
        0
    } else if k % 3 == 1 {
        (k / 3 + 1) as u16
    } else {
        (k / 3 + 2) as u16
    }
}

/// The indices of a triangle fan over `num_vertices` vertices (none below three).
pub open spec fn fan_indices(num_vertices: usize) -> Seq<u16> {
    if num_vertices < 3 {
        Seq::empty()
    } else {
        Seq::new((3 * (fan_vertex_count(num_vertices) - 2)) as nat, |k: int| fan_index(k))
    }
}

/// The indices of a fan closed by a last triangle from the last vertex back to the first
/// outer one.
pub open spec fn closed_fan_indices(num_vertices: usize) -> Seq<u16> {
    if num_vertices < 3 {
        Seq::empty()
    } else {
        fan_indices(num_vertices) + seq![0u16, (fan_vertex_count(num_vertices) - 1) as u16, 1u16]
    }
}

/// The indices of a triangle fan around the first vertex, for a convex polygon of
/// `num_vertices` vertices. Vertices past what 16 bit indices reach are silently left out.
pub fn iter_fan_indices(num_vertices: usize) -> (r: Vec<u16>)
    ensures
        r@ == fan_indices(num_vertices),
{
    let mut r: Vec<u16> = Vec::new();
    if num_vertices < 3 {
        assert(r@ =~= fan_indices(num_vertices));
        return r;
    }
    let n: u16 = if num_vertices < 65533 { num_vertices as u16 } else { 65533 };
    let mut i: u16 = 0;
    while i < n - 2
        invariant
            3 <= n <= 65533,
            n == fan_vertex_count(num_vertices),
            i <= n - 2,
            r@.len() == 3 * i,
            forall|k: int| 0 <= k < r@.len() ==> r@[k] == #[trigger] fan_index(k),
        decreases n - 2 - i,
    {
        r.push(0);
        r.push(i + 1);
        r.push(i + 2);
        proof {
            let b = 3 * (i as int);
            assert(b % 3 == 0 && (b + 1) % 3 == 1 && (b + 2) % 3 == 2);
            assert(b / 3 == i && (b + 1) / 3 == i && (b + 2) / 3 == i);
            assert(r@[b] == fan_index(b));
            assert(r@[b + 1] == fan_index(b + 1));
            assert(r@[b + 2] == fan_index(b + 2));
        }
        i = i + 1;
    }
    assert(r@ =~= fan_indices(num_vertices));
    r
}

/// As `iter_fan_indices`, with one more triangle that closes the fan: `0, n - 1, 1`.
pub fn iter_closed_fan_indices(num_vertices: usize) -> (r: Vec<u16>)
    ensures
        r@ == closed_fan_indices(num_vertices),
{
    let mut r = iter_fan_indices(num_vertices);
    if num_vertices < 3 {
        return r;
    }
    let n: u16 = if num_vertices < 65533 { num_vertices as u16 } else { 65533 };
    r.push(0);
    r.push(n - 1);
    r.push(1);
    assert(r@ =~= closed_fan_indices(num_vertices));
    r
}

/// A fan of `n` vertices has `n - 2` triangles (as far as 16 bit indices reach), and every
/// index names one of its vertices.
pub proof fn lemma_fan_indices(num_vertices: usize)
    ensures
        num_vertices >= 3 ==> fan_indices(num_vertices).len() == 3 * (fan_vertex_count(num_vertices) - 2),
        forall|k: int| 0 <= k < fan_indices(num_vertices).len() ==>
            (#[trigger] fan_indices(num_vertices)[k]) < fan_vertex_count(num_vertices),
        forall|k: int| 0 <= k < closed_fan_indices(num_vertices).len() ==>
            (#[trigger] closed_fan_indices(num_vertices)[k]) < fan_vertex_count(num_vertices),
{
    if num_vertices >= 3 {
        let c = fan_vertex_count(num_vertices);
        assert forall|k: int| 0 <= k < fan_indices(num_vertices).len() implies
            (#[trigger] fan_indices(num_vertices)[k]) < c by {
            assert(k / 3 < c - 2);
        }
        assert forall|k: int| 0 <= k < closed_fan_indices(num_vertices).len() implies
            (#[trigger] closed_fan_indices(num_vertices)[k]) < c by {
            if k < fan_indices(num_vertices).len() {
                assert(closed_fan_indices(num_vertices)[k] == fan_indices(num_vertices)[k]);
                assert(k / 3 < c - 2);
            }
        }
    }
}

/// A fan over `n >= 3` vertices is `min(n, 65533) - 2` triangles, and triangle `t` is
/// `0, t + 1, t + 2`: every triangle starts at vertex 0 and the next triangle moves on by
/// one vertex. Fewer than three vertices give no triangle.
pub proof fn lemma_fan_triangles(num_vertices: usize)
    ensures
        num_vertices < 3 ==> fan_indices(num_vertices).len() == 0,
        num_vertices >= 3 ==> fan_indices(num_vertices).len()
            == 3 * ((if num_vertices < 65533 { num_vertices as int } else { 65533 }) - 2),
        forall|k: int| 0 <= k < fan_indices(num_vertices).len() && k % 3 == 0 ==> {
            &&& #[trigger] fan_indices(num_vertices)[k] == 0
            &&& k + 2 < fan_indices(num_vertices).len()
            &&& fan_indices(num_vertices)[k + 1] == k / 3 + 1
            &&& fan_indices(num_vertices)[k + 2] == k / 3 + 2
        },
{
    if num_vertices >= 3 {
        let c = fan_vertex_count(num_vertices);
        let f = fan_indices(num_vertices);
        assert forall|k: int| 0 <= k < f.len() && k % 3 == 0 implies {
            &&& #[trigger] f[k] == 0
            &&& k + 2 < f.len()
            &&& f[k + 1] == k / 3 + 1
            &&& f[k + 2] == k / 3 + 2
        } by {
            assert((k + 1) % 3 == 1 && (k + 2) % 3 == 2);
            assert((k + 1) / 3 == k / 3 && (k + 2) / 3 == k / 3);
            assert(k / 3 < c - 2);
            assert(k + 2 < f.len());
        }
    }
}

} // verus!
