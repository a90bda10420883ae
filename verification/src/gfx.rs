pub mod buffer;
pub mod draw;
pub mod vertex;
pub mod vao;
pub mod mesh;
pub mod resource_scope;
pub mod shader;
pub mod scopes;
pub mod resources;
pub mod debug_message;
