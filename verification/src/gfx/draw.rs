use vstd::prelude::*;
use crate::gfx::vao::Vao;

verus! {

/// `GL_POINTS`.
pub const POINTS: u32 = 0x0000;
/// `GL_LINES`.
pub const LINES: u32 = 0x0001;
/// `GL_TRIANGLES`.
pub const TRIANGLES: u32 = 0x0004;

/// The primitive that a draw call assembles.
#[derive(Copy, Clone, Debug, PartialEq, Eq, Structural)]
pub enum DrawMode {
    Points,
    Lines,
    Triangles,
}

pub open spec fn draw_mode_gl(mode: DrawMode) -> u32 {
    match mode {
        DrawMode::Points => POINTS,
        DrawMode::Lines => LINES,
        DrawMode::Triangles => TRIANGLES,
    }
}

impl DrawMode {
    pub fn into_gl(self) -> (r: u32)
        ensures
            r == draw_mode_gl(self),
    {
        match self {
            DrawMode::Points => POINTS,
            DrawMode::Lines => LINES,
            DrawMode::Triangles => TRIANGLES,
        }
    }
}

/// Which elements of the bound index buffer an indexed draw reads, and the value added to
/// each index.
#[derive(Copy, Clone, Debug, PartialEq, Eq, Structural)]
pub struct IndexedDrawParams {
    pub num_elements: u32,
    pub element_offset: u32,
    pub base_vertex: u32,
}

impl IndexedDrawParams {
    pub fn with_offset(self, element_offset: u32) -> (r: IndexedDrawParams)
        ensures
            r == (IndexedDrawParams { element_offset, ..self }),
    {
        IndexedDrawParams { element_offset, ..self }
    }

    pub fn with_base_vertex(self, base_vertex: u32) -> (r: IndexedDrawParams)
        ensures
            r == (IndexedDrawParams { base_vertex, ..self }),
    {
        IndexedDrawParams { base_vertex, ..self }
    }

    /// All of the first `num_elements` indices, unshifted.
    pub fn from_count(num_elements: u32) -> (r: IndexedDrawParams)
        ensures
            r == (IndexedDrawParams { num_elements, element_offset: 0, base_vertex: 0 }),
    {
        IndexedDrawParams { num_elements, element_offset: 0, base_vertex: 0 }
    }
}

/// One GL call of the draw stage, with the GL enum of its primitive.
#[derive(Copy, Clone, Debug, PartialEq, Eq, Structural)]
pub enum DrawCommand {
    BindVao { vao: u32 },
    /// `glDrawArrays` from vertex 0.
    DrawArrays { mode: u32, num_vertices: u32 },
    /// `glDrawElementsBaseVertex` on 16 bit indices; `offset_bytes` is where the first
    /// index lies in the index buffer.
    DrawElements { mode: u32, num_elements: u32, offset_bytes: u64, base_vertex: u32 },
    /// `glDrawElementsInstanced` on 16 bit indices from the start of the index buffer.
    DrawElementsInstanced { mode: u32, num_elements: u32, num_instances: u32 },
}

/// The call of an array draw: none when there is nothing to draw.
pub open spec fn arrays_draw(mode: DrawMode, num_vertices: u32) -> Seq<DrawCommand> {
    if num_vertices == 0 {
        Seq::empty()
    } else {
        seq![DrawCommand::DrawArrays { mode: draw_mode_gl(mode), num_vertices }]
    }
}

/// The call of an indexed draw: none when there is nothing to draw. The offset is counted
/// in bytes of 16 bit indices.
pub open spec fn indexed_draw(mode: DrawMode, params: IndexedDrawParams) -> Seq<DrawCommand> {
    if params.num_elements == 0 {
        Seq::empty()
    } else {
        seq![DrawCommand::DrawElements {
            mode: draw_mode_gl(mode),
            num_elements: params.num_elements,
            offset_bytes: (params.element_offset * 2) as u64,
            base_vertex: params.base_vertex,
        }]
    }
}

/// The call of an instanced indexed draw: none when there is nothing to draw.
pub open spec fn instanced_draw(mode: DrawMode, num_elements: u32, num_instances: u32) -> Seq<DrawCommand> {
    if num_elements == 0 || num_instances == 0 {
        Seq::empty()
    } else {
        seq![DrawCommand::DrawElementsInstanced { mode: draw_mode_gl(mode), num_elements, num_instances }]
    }
}

/// Records the draw calls of a frame, in order, for the GL context to perform.
/// Calls that would draw nothing are not recorded.
pub struct DrawContext {
    commands: Vec<DrawCommand>,
}

impl DrawContext {
    pub closed spec fn spec_commands(self) -> Seq<DrawCommand> {
        self.commands@
    }

    pub fn new() -> (c: DrawContext)
        ensures
            c.spec_commands() == Seq::<DrawCommand>::empty(),
    {
        DrawContext { commands: Vec::new() }
    }

    pub fn commands(&self) -> (r: &Vec<DrawCommand>)
        ensures
            r@ == self.spec_commands(),
    {
        &self.commands
    }

    pub fn bind_vao(&mut self, vao: Vao)
        ensures
            final(self).spec_commands() == old(self).spec_commands().push(
                DrawCommand::BindVao { vao: vao.spec_handle() }),
    {
        self.commands.push(DrawCommand::BindVao { vao: vao.handle() });
    }

    pub fn draw_arrays(&mut self, draw_mode: DrawMode, num_vertices: u32)
        ensures
            final(self).spec_commands() == old(self).spec_commands() + arrays_draw(draw_mode, num_vertices),
    {
        let ghost before = self.commands@;
        if num_vertices == 0 {
            assert(before + arrays_draw(draw_mode, num_vertices) =~= before);
            return;
        }
        self.commands.push(DrawCommand::DrawArrays { mode: draw_mode.into_gl(), num_vertices });
        assert(self.commands@ =~= before + arrays_draw(draw_mode, num_vertices));
    }

    pub fn draw_indexed(&mut self, draw_mode: DrawMode, params: IndexedDrawParams)
        ensures
            final(self).spec_commands() == old(self).spec_commands() + indexed_draw(draw_mode, params),
    {
        let ghost before = self.commands@;
        if params.num_elements == 0 {
            assert(before + indexed_draw(draw_mode, params) =~= before);
            return;
        }
        let offset_bytes = params.element_offset as u64 * 2;
        self.commands.push(DrawCommand::DrawElements {
            mode: draw_mode.into_gl(),
            num_elements: params.num_elements,
            offset_bytes,
            base_vertex: params.base_vertex,
        });
        assert(self.commands@ =~= before + indexed_draw(draw_mode, params));
    }

    pub fn draw_instances_indexed(&mut self, draw_mode: DrawMode, num_elements: u32, num_instances: u32)
        ensures
            final(self).spec_commands() == old(self).spec_commands() + instanced_draw(draw_mode, num_elements, num_instances),
    {
        let ghost before = self.commands@;
        if num_elements == 0 || num_instances == 0 {
            assert(before + instanced_draw(draw_mode, num_elements, num_instances) =~= before);
            return;
        }
        self.commands.push(DrawCommand::DrawElementsInstanced {
            mode: draw_mode.into_gl(),
            num_elements,
            num_instances,
        });
        assert(self.commands@ =~= before + instanced_draw(draw_mode, num_elements, num_instances));
    }
}

} // verus!
