use std::hash::{DefaultHasher, Hasher};
use toybox::gfx::buffer::{Buffer, BufferUpload, BufferUsage, STATIC_DRAW, STREAM_DRAW, DYNAMIC_DRAW};
use toybox::gfx::draw::{DrawCommand, DrawContext, DrawMode, IndexedDrawParams, POINTS, LINES, TRIANGLES};
use toybox::gfx::mesh::{iter_closed_fan_indices, iter_fan_indices, BasicMesh, BasicMeshHandles, Mesh, MeshData, MeshHandles, MeshUpload};
use toybox::gfx::resource_scope::{ResourceScopeID, ResourceScopeToken, ScopedResourceHandle, ResourceScope};
use toybox::gfx::scopes::ResourceScopes;
use toybox::gfx::resources::{GlObject, ResourceTables};
use toybox::gfx::debug_message::{describe_gl_message, GlReport, GlSeverity, GlSource, GlType};
use toybox::gfx::shader::{add_dependent_scopes, hash_shader_sources, resolve_imports, try_resolve_imports, ImportTable, Shader, ShaderLookup, ShaderManager};
use toybox::gfx::vao::{Vao, VaoCommand};
use toybox::gfx::vertex::{Attribute, AttributeType, Descriptor, Vertex, FLOAT, UNSIGNED_BYTE};

#[derive(Copy, Clone, Debug)]
struct Pos2 {
    _x: f32,
    _y: f32,
}

impl Vertex for Pos2 {
    fn descriptor() -> Descriptor {
        Descriptor {
            attributes: &[Attribute { offset_bytes: 0, num_elements: 2, gl_type: FLOAT, normalized: false }],
            size_bytes: 8,
        }
    }
}

fn pos(x: f32, y: f32) -> Pos2 {
    Pos2 { _x: x, _y: y }
}

#[test]
fn usage_and_mode_enums() {
    assert_eq!(BufferUsage::Static.into_gl(), 0x88E4);
    assert_eq!(BufferUsage::Stream.into_gl(), 0x88E0);
    assert_eq!(BufferUsage::Dynamic.into_gl(), 0x88E8);
    assert_eq!((STATIC_DRAW, STREAM_DRAW, DYNAMIC_DRAW), (0x88E4, 0x88E0, 0x88E8));
    assert_eq!(DrawMode::Points.into_gl(), POINTS);
    assert_eq!(DrawMode::Lines.into_gl(), 1);
    assert_eq!(DrawMode::Triangles.into_gl(), 4);
    assert_eq!((LINES, TRIANGLES), (1, 4));
}

#[test]
fn attribute_types() {
    assert_eq!(AttributeType::Vec3.into_gl(), (FLOAT, 3));
    assert_eq!(AttributeType::Unorm8(4).into_gl(), (UNSIGNED_BYTE, 4));
    assert!(AttributeType::Unorm8(4).is_normalized());
    assert!(!AttributeType::Float.is_normalized());
    assert_eq!(
        Attribute::new(12, AttributeType::Vec4),
        Attribute { offset_bytes: 12, num_elements: 4, gl_type: FLOAT, normalized: false }
    );
}

#[test]
fn buffer_tracks_its_length() {
    let mut b: Buffer<u16> = Buffer::from_raw(5, BufferUsage::Static);
    assert_eq!(b.len(), 0);
    assert!(b.is_empty());
    assert_eq!(b.handle(), 5);
    assert_eq!(b.upload(&[1, 2, 3]), Some(BufferUpload { handle: 5, usage: STATIC_DRAW, count: 3 }));
    assert_eq!(b.len(), 3);
    assert!(!b.is_empty());
    // An empty upload asks for nothing but empties the buffer.
    assert_eq!(b.upload(&[]), None);
    assert!(b.is_empty());
    assert_eq!(b.upload_single(&9), BufferUpload { handle: 5, usage: STATIC_DRAW, count: 1 });
    assert_eq!(b.len(), 1);
}

#[test]
fn draw_context_skips_empty_draws() {
    let mut ctx = DrawContext::new();
    ctx.draw_arrays(DrawMode::Lines, 0);
    ctx.draw_indexed(DrawMode::Triangles, IndexedDrawParams::from_count(0));
    ctx.draw_instances_indexed(DrawMode::Triangles, 6, 0);
    assert!(ctx.commands().is_empty());
    ctx.draw_arrays(DrawMode::Lines, 4);
    let params = IndexedDrawParams::from_count(6).with_offset(3).with_base_vertex(10);
    assert_eq!(params, IndexedDrawParams { num_elements: 6, element_offset: 3, base_vertex: 10 });
    ctx.draw_indexed(DrawMode::Triangles, params);
    ctx.draw_instances_indexed(DrawMode::Points, 6, 2);
    assert_eq!(ctx.commands(), &vec![
        DrawCommand::DrawArrays { mode: LINES, num_vertices: 4 },
        DrawCommand::DrawElements { mode: TRIANGLES, num_elements: 6, offset_bytes: 6, base_vertex: 10 },
        DrawCommand::DrawElementsInstanced { mode: POINTS, num_elements: 6, num_instances: 2 },
    ]);
}

#[test]
fn vertex_array_setup() {
    let mut vao = Vao::new(7);
    let vb: Buffer<Pos2> = Buffer::from_raw(8, BufferUsage::Stream);
    let ib: Buffer<u16> = Buffer::from_raw(9, BufferUsage::Stream);
    assert_eq!(vao.bind_index_buffer(ib), VaoCommand::ElementBuffer { vao: 7, buffer: 9 });
    assert_eq!(vao.bind_vertex_buffer(2, vb), vec![
        VaoCommand::Attribute { vao: 7, index: 0, binding: 2, attribute: Attribute { offset_bytes: 0, num_elements: 2, gl_type: FLOAT, normalized: false } },
        VaoCommand::VertexBuffer { vao: 7, binding: 2, buffer: 8, stride: 8 },
    ]);
}

#[test]
fn mesh_setup_upload_and_draw() {
    let handles = MeshHandles { vao: 1, vertex_buffer: 2, index_buffer: 3 };
    let (mut mesh, setup) = Mesh::<Pos2>::new(handles);
    assert_eq!(setup.len(), 3);
    assert_eq!(setup[2], VaoCommand::ElementBuffer { vao: 1, buffer: 3 });
    let mut data = MeshData::new();
    data.extend(&[pos(0.0, 0.0), pos(1.0, 0.0), pos(0.0, 1.0)], &[0, 1, 2]);
    let up = mesh.upload(&data);
    assert_eq!(up, MeshUpload {
        vertices: Some(BufferUpload { handle: 2, usage: STREAM_DRAW, count: 3 }),
        indices: Some(BufferUpload { handle: 3, usage: STREAM_DRAW, count: 3 }),
    });
    let mut ctx = DrawContext::new();
    mesh.draw(&mut ctx, DrawMode::Triangles);
    mesh.draw_instanced(&mut ctx, DrawMode::Triangles, 5);
    assert_eq!(ctx.commands(), &vec![
        DrawCommand::BindVao { vao: 1 },
        DrawCommand::DrawElements { mode: TRIANGLES, num_elements: 3, offset_bytes: 0, base_vertex: 0 },
        DrawCommand::BindVao { vao: 1 },
        DrawCommand::DrawElementsInstanced { mode: TRIANGLES, num_elements: 3, num_instances: 5 },
    ]);
    let up = mesh.upload_separate(&[], &[]);
    assert_eq!(up, MeshUpload { vertices: None, indices: None });
    let mut ctx = DrawContext::new();
    mesh.draw(&mut ctx, DrawMode::Triangles);
    assert_eq!(ctx.commands(), &vec![DrawCommand::BindVao { vao: 1 }]);
}

#[test]
fn static_mesh_from_data() {
    let mut data = MeshData::new();
    data.extend(&[pos(0.0, 0.0)], &[0]);
    let (mesh, _, up) = Mesh::from_mesh_data(MeshHandles { vao: 4, vertex_buffer: 5, index_buffer: 6 }, &data);
    assert_eq!(mesh.index_buffer.len(), 1);
    assert_eq!(up.indices, Some(BufferUpload { handle: 6, usage: STATIC_DRAW, count: 1 }));
    let (basic, setup, up) = BasicMesh::from_vertices(BasicMeshHandles { vao: 7, vertex_buffer: 8 }, &[pos(0.0, 0.0), pos(1.0, 1.0)]);
    assert_eq!(setup.len(), 2);
    assert_eq!(up, Some(BufferUpload { handle: 8, usage: STATIC_DRAW, count: 2 }));
    let mut ctx = DrawContext::new();
    basic.draw(&mut ctx, DrawMode::Lines);
    assert_eq!(ctx.commands(), &vec![DrawCommand::BindVao { vao: 7 }, DrawCommand::DrawArrays { mode: LINES, num_vertices: 2 }]);
    let (mut stream, _) = BasicMesh::<Pos2>::new(BasicMeshHandles { vao: 1, vertex_buffer: 2 });
    assert_eq!(stream.upload(&[pos(1.0, 2.0)]), Some(BufferUpload { handle: 2, usage: STREAM_DRAW, count: 1 }));
}

#[test]
fn mesh_data_shifts_indices_of_later_geometry() {
    let mut data = MeshData::new();
    data.extend(&[pos(0.0, 0.0), pos(1.0, 0.0), pos(0.0, 1.0)], &[0, 1, 2]);
    data.extend(&[pos(2.0, 0.0), pos(3.0, 0.0)], &[0, 1, 0]);
    assert_eq!(data.vertices.len(), 5);
    assert_eq!(data.indices, vec![0, 1, 2, 3, 4, 3]);
    data.clear();
    assert!(data.vertices.is_empty() && data.indices.is_empty());
}

#[test]
fn fan_indices() {
    assert!(iter_fan_indices(2).is_empty());
    assert!(iter_closed_fan_indices(0).is_empty());
    assert_eq!(iter_fan_indices(3), vec![0, 1, 2]);
    assert_eq!(iter_fan_indices(5), vec![0, 1, 2, 0, 2, 3, 0, 3, 4]);
    assert_eq!(iter_closed_fan_indices(5), vec![0, 1, 2, 0, 2, 3, 0, 3, 4, 0, 4, 1]);
    // Past what 16 bit indices reach, vertices are left out.
    let big = iter_fan_indices(100_000);
    assert_eq!(big.len(), 3 * (65533 - 2));
    assert_eq!(*big.iter().max().unwrap(), 65532);
}

fn table() -> ImportTable {
    let mut t = ImportTable::new();
    t.insert("common", "float x;\n".to_string(), ResourceScopeID(1));
    t.insert("lighting", "vec3 light;\n".to_string(), ResourceScopeID(2));
    t
}

#[test]
fn imports_are_spliced_in() {
    let src = "#version 450\n#import common\n#import   lighting  \nvoid main() {}\n";
    let r = resolve_imports(src, &table());
    assert_eq!(r.resolved_source, "#version 450\nfloat x;\nvec3 light;\nvoid main() {}\n");
    assert_eq!(r.dependent_resource_scopes, vec![ResourceScopeID(1), ResourceScopeID(2)]);
}

#[test]
fn repeated_imports_count_their_scope_once() {
    let r = resolve_imports("#import common\n#import common\n", &table());
    assert_eq!(r.resolved_source, "float x;\nfloat x;\n");
    assert_eq!(r.dependent_resource_scopes, vec![ResourceScopeID(1)]);
}

#[test]
fn unicode_whitespace_around_import_names_is_trimmed() {
    let r = resolve_imports("a#import\u{3000}common\u{a0}\nb", &table());
    assert_eq!(r.resolved_source, "afloat x;\nb");
}

#[test]
fn source_without_imports_is_unchanged() {
    let r = resolve_imports("void main() {}", &table());
    assert_eq!(r.resolved_source, "void main() {}");
    assert!(r.dependent_resource_scopes.is_empty());
    assert_eq!(resolve_imports("", &table()).resolved_source, "");
}

#[test]
fn unresolvable_imports() {
    assert!(try_resolve_imports("#import nothing\n", &table()).is_none());
    assert!(try_resolve_imports("#import common", &table()).is_none());
    assert!(try_resolve_imports("x\n#import common\n", &ImportTable::new()).is_none());
}

#[test]
fn import_table_lookup() {
    let t = table();
    assert!(t.contains("common"));
    assert!(!t.contains("comm"));
    let mut t = t;
    t.remove_scope(ResourceScopeID(1));
    assert!(!t.contains("common"));
    assert!(t.contains("lighting"));
}

#[test]
fn shader_hash_is_default_hasher_over_stage_types_and_sources() {
    let stages: [(u32, &str); 2] = [(0x8B31, "vs"), (0x8B30, "fs")];
    let mut h = DefaultHasher::new();
    h.write(&0x8B31u32.to_le_bytes());
    h.write("vs".as_bytes());
    h.write(&0x8B30u32.to_le_bytes());
    h.write("fs".as_bytes());
    assert_eq!(hash_shader_sources(&stages), h.finish());
    assert_ne!(hash_shader_sources(&stages), hash_shader_sources(&[(0x8B31, "vs")]));
}

#[test]
fn shader_cache_lifecycle() {
    let mut m = ShaderManager::new();
    m.add_import("common", "float x;\n".to_string(), ResourceScopeID(1));
    assert!(m.imports().contains("common"));
    let stages: [(u32, &str); 1] = [(0x8B31, "#import common\nvoid main() {}\n")];
    let hash = match m.get_shader(&stages) {
        ShaderLookup::Missing(h) => h,
        ShaderLookup::Cached(_) => panic!("nothing compiled yet"),
    };
    assert_eq!(hash, hash_shader_sources(&stages));
    let deps = resolve_imports(stages[0].1, m.imports()).dependent_resource_scopes;
    m.insert_compiled(hash, Shader(5), &deps);
    assert_eq!(m.get_shader(&stages), ShaderLookup::Cached(Shader(5)));
    assert_eq!(m.lookup_shader(hash), ShaderLookup::Cached(Shader(5)));
    // An unrelated scope leaves the program alone.
    assert!(m.invalidate_shaders_dependent_on_scope(ResourceScopeID(2)).is_empty());
    assert_eq!(m.get_shader(&stages), ShaderLookup::Cached(Shader(5)));
    assert_eq!(m.invalidate_shaders_dependent_on_scope(ResourceScopeID(1)), vec![Shader(5)]);
    assert_eq!(m.get_shader(&stages), ShaderLookup::Missing(hash));
    assert!(!m.imports().contains("common"));
}

#[test]
fn scope_tokens_and_resources() {
    let token = ResourceScopeToken::new(ResourceScopeID(3));
    assert_eq!(token.id(), ResourceScopeID(3));
    assert_eq!(token.share().id(), ResourceScopeID(3));
    let mut scope = ResourceScope::new(token.share());
    assert_eq!(scope.id(), ResourceScopeID(3));
    assert_eq!(scope.ref_count(), 2);
    scope.insert(ScopedResourceHandle::Buffer { handle: 1 });
    scope.insert(ScopedResourceHandle::Texture { key: 99 });
    assert_eq!(scope.take_resources(), vec![
        ScopedResourceHandle::Buffer { handle: 1 },
        ScopedResourceHandle::Texture { key: 99 },
    ]);
    assert!(scope.take_resources().is_empty());
    drop(token);
    assert_eq!(scope.ref_count(), 1);
}

#[test]
fn registry_frees_scopes_nobody_holds() {
    let mut scopes = ResourceScopes::new();
    let a = scopes.new_resource_scope();
    let b = scopes.new_resource_scope();
    assert_eq!((a.id(), b.id()), (ResourceScopeID(1), ResourceScopeID(2)));
    scopes.insert_resource(Some(a.id()), ScopedResourceHandle::Buffer { handle: 10 });
    scopes.insert_resource(Some(b.id()), ScopedResourceHandle::Vao { handle: 11 });
    scopes.insert_resource(None, ScopedResourceHandle::Query { handle: 12 });
    assert_eq!(scopes.ref_counts(), vec![2, 2, 2]);
    assert!(scopes.cleanup_resources().is_empty());
    drop(b);
    assert_eq!(scopes.cleanup_resources(), vec![ScopedResourceHandle::Vao { handle: 11 }]);
    assert_eq!(scopes.ref_counts(), vec![2, 2]);
    drop(a);
    assert_eq!(scopes.cleanup_resources(), vec![ScopedResourceHandle::Buffer { handle: 10 }]);
    // The global scope outlives every cleanup.
    assert!(scopes.cleanup_resources().is_empty());
    assert_eq!(scopes.cleanup_with_counts(&vec![1]), vec![ScopedResourceHandle::Query { handle: 12 }]);
}

#[test]
fn compilation_error_report() {
    let e = toybox::gfx::shader::CompilationError::new("shader link", "missing main");
    assert_eq!(e.what, "shader link");
    assert_eq!(e.description, "missing main");
    let m = e.message();
    assert!(m.starts_with("shader link failed\nmissing main\n"));
    assert!(m.ends_with('\n'));
}

#[test]
fn destroying_a_scope_takes_its_textures_and_framebuffers_out_of_the_tables() {
    let mut tables = ResourceTables::new();
    let tex = tables.insert_texture(7, 8);
    let other = tables.insert_texture(9, 10);
    let fb = tables.insert_framebuffer(20);
    let mut scope = ResourceScope::new(ResourceScopeToken::new(ResourceScopeID(1)));
    scope.insert(ScopedResourceHandle::Texture { key: tex });
    scope.insert(ScopedResourceHandle::Buffer { handle: 3 });
    scope.insert(ScopedResourceHandle::Framebuffer { key: fb });
    scope.insert(ScopedResourceHandle::Query { handle: 4 });
    assert_eq!(scope.destroy_owned_resources(&mut tables), vec![
        GlObject::Sampler(8),
        GlObject::Texture(7),
        GlObject::Buffer(3),
        GlObject::Framebuffer(20),
        GlObject::Query(4),
    ]);
    assert!(scope.take_resources().is_empty());
    // What was released is gone; the other texture stays.
    let again = vec![ScopedResourceHandle::Texture { key: tex }];
    assert!(!tables.can_release(&again));
    assert!(!tables.can_release(&vec![ScopedResourceHandle::Framebuffer { key: fb }]));
    let keep = vec![ScopedResourceHandle::Texture { key: other }];
    assert!(tables.can_release(&keep));
    assert!(!tables.can_release(&vec![ScopedResourceHandle::Texture { key: other }, ScopedResourceHandle::Texture { key: other }]));
    assert_eq!(tables.release(&keep), vec![GlObject::Sampler(10), GlObject::Texture(9)]);
    assert!(!tables.can_release(&keep));
    assert!(tables.can_release(&vec![ScopedResourceHandle::Vao { handle: 1 }]));
}

#[test]
fn gl_debug_messages_are_read_severity_first() {
    assert_eq!(describe_gl_message(0x8246, 0x824C, 0x9146),
        GlReport::Report(GlSource::Api, GlType::Error, GlSeverity::High));
    assert_eq!(describe_gl_message(0x824B, 0x8250, 0x9148),
        GlReport::Report(GlSource::Other, GlType::Performance, GlSeverity::Low));
    // Notifications are skipped whatever their type and source.
    assert_eq!(describe_gl_message(1, 2, 0x826B), GlReport::Skip);
    assert_eq!(describe_gl_message(1, 2, 3), GlReport::UnknownSeverity);
    assert_eq!(describe_gl_message(1, 2, 0x9147), GlReport::UnknownType);
    assert_eq!(describe_gl_message(1, 0x8251, 0x9147), GlReport::UnknownSource);
    assert!(GlSeverity::High.aborts() && GlSeverity::Medium.aborts() && !GlSeverity::Low.aborts());
    assert_eq!(GlType::DeprecatedBehavior.name(), "deprecated behaviour");
    assert_eq!(GlSource::ShaderCompiler.name(), "shader compiler");
    assert_eq!(GlSeverity::Medium.name(), "medium");
}

#[test]
fn dependent_scopes_are_gathered_once_each() {
    let mut scopes = vec![ResourceScopeID(2)];
    add_dependent_scopes(&mut scopes, &vec![ResourceScopeID(5), ResourceScopeID(2), ResourceScopeID(5), ResourceScopeID(1)]);
    assert_eq!(scopes, vec![ResourceScopeID(2), ResourceScopeID(5), ResourceScopeID(1)]);
}
