use vstd::prelude::*;

verus! {

/// `GL_FLOAT`.
pub const FLOAT: u32 = 0x1406;
/// `GL_UNSIGNED_BYTE`.
pub const UNSIGNED_BYTE: u32 = 0x1401;

/// Marks and describes a type that can be used as the vertex type of a mesh.
///
/// Types that implement this trait must also be `#[repr(C)]`, as they are handed to GL as
/// raw memory.
pub trait Vertex: Copy {
    fn descriptor() -> Descriptor;
}

/// The layout of a vertex type: its attributes and its size in bytes.
#[derive(Copy, Clone, Debug)]
pub struct Descriptor {
    pub attributes: &'static [Attribute],
    pub size_bytes: u32,
}

/// One attribute of a vertex: where it lies, how many components it has, their GL type and
/// whether integer components are normalised to `[0, 1]`.
#[derive(Copy, Clone, Debug, PartialEq, Eq, Structural)]
pub struct Attribute {
    pub offset_bytes: u32,
    pub num_elements: u32,
    pub gl_type: u32,
    pub normalized: bool,
}

/// The shapes an attribute can take.
#[derive(Copy, Clone, Debug, PartialEq, Eq, Structural)]
pub enum AttributeType {
    Float,
    Vec2,
    Vec3,
    Vec4,
    /// The given number of unsigned bytes, normalised.
    Unorm8(u32),
}

/// The GL type and component count of an attribute type.
pub open spec fn attribute_gl(t: AttributeType) -> (u32, u32) {
    match t {
        AttributeType::Float => (FLOAT, 1),
        AttributeType::Vec2 => (FLOAT, 2),
        AttributeType::Vec3 => (FLOAT, 3),
        AttributeType::Vec4 => (FLOAT, 4),
        AttributeType::Unorm8(components) => (UNSIGNED_BYTE, components),
    }
}

impl AttributeType {
    pub fn into_gl(self) -> (r: (u32, u32))
        ensures
            r == attribute_gl(self),
    {
        let gl_type = match self {
            AttributeType::Float => FLOAT,
            AttributeType::Vec2 => FLOAT,
            AttributeType::Vec3 => FLOAT,
            AttributeType::Vec4 => FLOAT,
            AttributeType::Unorm8(_) => UNSIGNED_BYTE,
        };
        let num_elements = match self {
            AttributeType::Float => 1,
            AttributeType::Vec2 => 2,
            AttributeType::Vec3 => 3,
            AttributeType::Vec4 => 4,
            AttributeType::Unorm8(components) => components,
        };
        (gl_type, num_elements)
    }

    pub fn is_normalized(self) -> (r: bool)
        ensures
            r == (self is Unorm8),
    {
        match self {
            AttributeType::Unorm8(_) => true,
            _ => false,
        }
    }
}

impl Attribute {
    pub fn new(offset_bytes: u32, attribute_type: AttributeType) -> (a: Attribute)
        ensures
            a == (Attribute {
                offset_bytes,
                num_elements: attribute_gl(attribute_type).1,
                gl_type: attribute_gl(attribute_type).0,
                normalized: attribute_type is Unorm8,
            }),
    {
        let (gl_type, num_elements) = attribute_type.into_gl();
        let normalized = attribute_type.is_normalized();
        Attribute { offset_bytes, num_elements, gl_type, normalized }
    }
}

} // verus!
