use ulid::Ulid;
use vstd::prelude::*;
use vstd::string::StringExecFns;

verus! {

/// The kind of a value that flows between the slots of a shader.
#[derive(Clone, Copy, Debug, PartialEq, Eq, Structural, Hash)]
pub enum ShaderValue {
    Float,
    UInt,
    SInt,
    Vec2F,
    Vec3F,
    Vec4F,
    Vec2U,
    Vec3U,
    Vec4U,
    Vec2I,
    Vec3I,
    Vec4I,
    Mat2,
    Mat3,
    Mat4,
    Color,
    Bool,
    Texture2D,
    Texture2DArray,
    Texture3D,
    Texture3DArray,
    Cubemap,
    Sampler,
}

/// A named input of a shader and the kind of its value.
pub struct ShaderInput {
    name: String,
    value: ShaderValue,
}

impl ShaderInput {
    pub closed spec fn spec_name(&self) -> Seq<char> {
        self.name@
    }

    pub closed spec fn spec_value(&self) -> ShaderValue {
        self.value
    }

    pub fn new(name: &str, value: ShaderValue) -> (r: Self)
        ensures
            r.spec_name() == name@,
            r.spec_value() == value,
    {
        ShaderInput { name: name.to_owned(), value }
    }

    pub fn name(&self) -> (r: &str)
        ensures
            r@ == self.spec_name(),
    {
        self.name.as_str()
    }

    pub fn value(&self) -> (r: ShaderValue)
        ensures
            r == self.spec_value(),
    {
        self.value
    }
}

/// A named output of a shader, which has the same parts as an input.
pub type ShaderOutput = ShaderInput;

/// A named value handed to a node of a shader.
pub struct ShaderNodeInput {
    name: String,
    value: ShaderValue,
}

impl ShaderNodeInput {
    pub closed spec fn spec_name(&self) -> Seq<char> {
        self.name@
    }

    pub closed spec fn spec_value(&self) -> ShaderValue {
        self.value
    }

    pub fn new(name: &str, value: ShaderValue) -> (r: Self)
        ensures
            r.spec_name() == name@,
            r.spec_value() == value,
    {
        ShaderNodeInput { name: name.to_owned(), value }
    }

    pub fn name(&self) -> (r: &str)
        ensures
            r@ == self.spec_name(),
    {
        self.name.as_str()
    }

    pub fn value(&self) -> (r: ShaderValue)
        ensures
            r == self.spec_value(),
    {
        self.value
    }
}

/// The digits of Crockford's base 32, in order of value.
pub open spec fn crockford_digits() -> Seq<char> {
    seq![
        '0', '1', '2', '3', '4', '5', '6', '7', '8', '9', 'A', 'B', 'C', 'D', 'E', 'F', 'G', 'H',
        'J', 'K', 'M', 'N', 'P', 'Q', 'R', 'S', 'T', 'V', 'W', 'X', 'Y', 'Z',
    ]
}

/// The 26 digits of `value` in Crockford's base 32, the most significant
/// first.
pub open spec fn crockford(value: u128) -> Seq<char> {
    Seq::new(
        26,
        |i: int| crockford_digits()[((value >> ((5 * (25 - i)) as u128)) & 31u128) as int],
    )
}

/// `Ulid::new()`, the value of a fresh id. Nothing is stated of it: it is
/// made from the time and from random bits.
#[verifier::external_body]
fn fresh_ulid() -> u128 {
    Ulid::new().0
}

/// `Ulid(value).to_string()`: the text of an id, its value in Crockford's
/// base 32 over 26 digits.
#[verifier::external_body]
fn ulid_text(value: u128) -> (r: String)
    ensures
        r@ == crockford(value),
{
    Ulid(value).to_string()
}

/// A node that samples a two-dimensional texture.
pub struct SampleTexture2D {
    name: String,
}

/// The slot of the texture among the inputs of a sampling node.
pub const TEXTURE: usize = 0;

/// The slot of the texture coordinates among the inputs of a sampling node.
pub const UV: usize = 1;

/// The slot of the sampler among the inputs of a sampling node.
pub const SAMPLER: usize = 2;

impl SampleTexture2D {
    pub closed spec fn spec_name(&self) -> Seq<char> {
        self.name@
    }

    pub fn new(name: &str) -> (r: Self)
        ensures
            r.spec_name() == name@,
    {
        SampleTexture2D { name: name.to_owned() }
    }

    /// A node named after a fresh id.
    pub fn create() -> (r: Self)
        ensures
            exists|id: u128| r.spec_name() == "sample_texture2d_"@ + crockford(id),
    {
        let id = fresh_ulid();
        let text = ulid_text(id);
        let name = String::from_str("sample_texture2d_").concat(text.as_str());
        SampleTexture2D { name }
    }

    pub fn name(&self) -> (r: &str)
        ensures
            r@ == self.spec_name(),
    {
        self.name.as_str()
    }

    /// The kinds of the inputs, by slot.
    pub fn inputs(&self) -> (r: Vec<ShaderValue>)
        ensures
            r@ == seq![ShaderValue::Texture2D, ShaderValue::Vec2F, ShaderValue::Sampler],
    {
        vec![ShaderValue::Texture2D, ShaderValue::Vec2F, ShaderValue::Sampler]
    }

    /// The kinds of the outputs, by slot: the colour, then its four channels.
    pub fn outputs(&self) -> (r: Vec<ShaderValue>)
        ensures
            r@ == seq![
                ShaderValue::Color,
                ShaderValue::Float,
                ShaderValue::Float,
                ShaderValue::Float,
                ShaderValue::Float,
            ],
    {
        vec![
            ShaderValue::Color,
            ShaderValue::Float,
            ShaderValue::Float,
            ShaderValue::Float,
            ShaderValue::Float,
        ]
    }
}

/// A slot of a shader: a numbered slot of a named node, or a named input or
/// output of the shader.
#[derive(Clone, Debug, PartialEq, Eq)]
pub enum SlotType {
    Node { name: String, slot: usize },
    Input { name: String },
    Output { name: String },
}

impl SlotType {
    /// The name that the slot refers to.
    pub open spec fn spec_name(&self) -> Seq<char> {
        match self {
            SlotType::Node { name, .. } => name@,
            SlotType::Input { name } => name@,
            SlotType::Output { name } => name@,
        }
    }

    pub fn node(name: &str, slot: usize) -> (r: Self)
        ensures
            r is Node,
            r.spec_name() == name@,
            r->slot == slot,
    {
        SlotType::Node { name: name.to_owned(), slot }
    }

    pub fn input(name: &str) -> (r: Self)
        ensures
            r is Input,
            r.spec_name() == name@,
    {
        SlotType::Input { name: name.to_owned() }
    }

    pub fn output(name: &str) -> (r: Self)
        ensures
            r is Output,
            r.spec_name() == name@,
    {
        SlotType::Output { name: name.to_owned() }
    }

    pub fn name(&self) -> (r: &str)
        ensures
            r@ == self.spec_name(),
    {
        match self {
            SlotType::Node { name, .. } => name.as_str(),
            SlotType::Input { name } => name.as_str(),
            SlotType::Output { name } => name.as_str(),
        }
    }

    /// The number of the slot, for a slot of a node.
    pub fn slot(&self) -> (r: Option<usize>)
        ensures
            r == match self {
                SlotType::Node { slot, .. } => Some(*slot),
                _ => None::<usize>,
            },
    {
        match self {
            SlotType::Node { slot, .. } => Some(*slot),
            SlotType::Input { .. } => None,
            SlotType::Output { .. } => None,
        }
    }
}

/// A connection from one slot of a shader to another.
#[derive(Clone, Debug, PartialEq, Eq)]
pub struct ShaderEdge {
    from: SlotType,
    to: SlotType,
}

impl ShaderEdge {
    pub closed spec fn spec_from(&self) -> SlotType {
        self.from
    }

    pub closed spec fn spec_to(&self) -> SlotType {
        self.to
    }

    pub fn new(from: SlotType, to: SlotType) -> (r: Self)
        ensures
            r.spec_from() == from,
            r.spec_to() == to,
    {
        ShaderEdge { from, to }
    }

    pub fn from(&self) -> (r: &SlotType)
        ensures
            *r == self.spec_from(),
    {
        &self.from
    }

    pub fn to(&self) -> (r: &SlotType)
        ensures
            *r == self.spec_to(),
    {
        &self.to
    }
}

} // verus!
