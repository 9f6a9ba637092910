use vstd::prelude::*;

verus! {

/// The kind of one attribute of a vertex, as a buffer lays it out.
#[derive(Clone, Copy, Debug, PartialEq, Eq, Structural)]
pub enum VertexAttribute {
    Float,
    Int,
    UInt,
    Color,
    Vec2F,
    Vec3F,
    Vec4F,
    Vec2U,
    Vec3U,
    Vec4U,
    Vec2I,
    Vec3I,
    Vec4I,
}

impl VertexAttribute {
    /// The number of bytes the attribute takes: four per component, and
    /// four components for a colour.
    pub open spec fn size_spec(&self) -> usize {
        match self {
            VertexAttribute::Float | VertexAttribute::UInt | VertexAttribute::Int => 4,
            VertexAttribute::Vec2F | VertexAttribute::Vec2U | VertexAttribute::Vec2I => 8,
            VertexAttribute::Vec3F | VertexAttribute::Vec3U | VertexAttribute::Vec3I => 12,
            VertexAttribute::Vec4F
            | VertexAttribute::Vec4U
            | VertexAttribute::Vec4I
            | VertexAttribute::Color => 16,
        }
    }

    pub fn size(&self) -> (r: usize)
        ensures
            r == self.size_spec(),
    {
        match self {
            VertexAttribute::Float | VertexAttribute::UInt | VertexAttribute::Int => 4,
            VertexAttribute::Vec2F | VertexAttribute::Vec2U | VertexAttribute::Vec2I => 8,
            VertexAttribute::Vec3F | VertexAttribute::Vec3U | VertexAttribute::Vec3I => 12,
            VertexAttribute::Vec4F
            | VertexAttribute::Vec4U
            | VertexAttribute::Vec4I
            | VertexAttribute::Color => 16,
        }
    }
}

/// The width of the indices of an index buffer.
#[derive(Clone, Copy, Debug, PartialEq, Eq, Structural)]
pub enum IndexFormat {
    U16,
    U32,
}

/// What a buffer holds.
#[derive(Clone, Copy, Debug, PartialEq, Eq, Structural)]
pub enum BufferKind {
    Index,
    Vertex,
    Uniform,
    Storage,
}

/// The ways a buffer may be used, one bit each.
#[derive(Clone, Copy, Debug, PartialEq, Eq, Structural, Hash)]
pub struct BufferFlags(pub u8);

/// The buffer may be mapped for reading.
pub const MAP_READ: u8 = 1;

/// The buffer may be mapped for writing.
pub const MAP_WRITE: u8 = 2;

/// The buffer may be the source of a copy.
pub const COPY_SRC: u8 = 4;

/// The buffer may be the destination of a copy.
pub const COPY_DST: u8 = 8;

/// The buffer may hold indirect draw arguments.
pub const INDIRECT: u8 = 16;

/// The buffer may receive resolved queries.
pub const QUERY_RESOLVE: u8 = 32;

/// All the flags that have a meaning.
pub const ALL_FLAGS: u8 = 63;

impl BufferFlags {
    /// No flag set.
    pub fn empty() -> (r: Self)
        ensures
            r.0 == 0,
    {
        BufferFlags(0)
    }

    /// The flags among `bits` that have a meaning; the others are dropped.
    pub fn from_bits_truncate(bits: u8) -> (r: Self)
        ensures
            r.0 == bits & ALL_FLAGS,
    {
        BufferFlags(bits & ALL_FLAGS)
    }

    pub fn bits(&self) -> (r: u8)
        ensures
            r == self.0,
    {
        self.0
    }

    /// Every flag of `bits` is set.
    pub fn contains(&self, bits: u8) -> (r: bool)
        ensures
            r == (self.0 & bits == bits),
    {
        self.0 & bits == bits
    }

    /// These flags and those of `bits`.
    pub fn union(self, bits: u8) -> (r: Self)
        ensures
            r.0 == self.0 | bits,
    {
        BufferFlags(self.0 | bits)
    }

    /// The buffer may be written from the host: it may be mapped for
    /// writing or be the destination of a copy.
    pub fn is_write(&self) -> (r: bool)
        ensures
            r == (self.0 & MAP_WRITE == MAP_WRITE || self.0 & COPY_DST == COPY_DST),
    {
        self.contains(MAP_WRITE) || self.contains(COPY_DST)
    }
}

/// Flags joined in are then contained, and the others stay as they were.
pub proof fn law_contains_after_union(flags: BufferFlags, bits: u8, other: u8)
    ensures
        (flags.0 | bits) & bits == bits,
        flags.0 & other == other ==> (flags.0 | bits) & other == other,
{
    let f = flags.0;
    assert((f | bits) & bits == bits) by (bit_vector);
    assert(f & other == other ==> (f | bits) & other == other) by (bit_vector);
}

} // verus!
