use shadow::buffer::{BufferFlags, VertexAttribute, COPY_DST, MAP_READ, MAP_WRITE};
use shadow::shader::{
    SampleTexture2D, ShaderEdge, ShaderInput, ShaderNodeInput, ShaderValue, SlotType, SAMPLER,
    TEXTURE, UV,
};

#[test]
fn created_node_is_named_after_a_fresh_id() {
    let a = SampleTexture2D::create();
    let b = SampleTexture2D::create();
    let prefix = "sample_texture2d_";
    assert!(a.name().starts_with(prefix));
    let id = &a.name()[prefix.len()..];
    assert_eq!(id.len(), 26);
    assert!(id.chars().all(|c| "0123456789ABCDEFGHJKMNPQRSTVWXYZ".contains(c)));
    assert_ne!(a.name(), b.name());
}

#[test]
fn sampling_node_slots() {
    let node = SampleTexture2D::new("main_sampler");
    assert_eq!(node.name(), "main_sampler");
    assert_eq!((TEXTURE, UV, SAMPLER), (0, 1, 2));
    assert_eq!(node.inputs()[TEXTURE], ShaderValue::Texture2D);
    assert_eq!(node.inputs()[UV], ShaderValue::Vec2F);
    assert_eq!(node.inputs()[SAMPLER], ShaderValue::Sampler);
    assert_eq!(node.outputs().len(), 5);
    assert_eq!(node.outputs()[0], ShaderValue::Color);
}

#[test]
fn slots_and_edges() {
    let from = SlotType::input("main_texture");
    let to = SlotType::node("main_sampler", TEXTURE);
    assert_eq!(from.name(), "main_texture");
    assert_eq!(from.slot(), None);
    assert_eq!(to.name(), "main_sampler");
    assert_eq!(to.slot(), Some(0));
    assert_eq!(SlotType::output("color").name(), "color");
    let edge = ShaderEdge::new(from.clone(), to.clone());
    assert_eq!(edge.from(), &from);
    assert_eq!(edge.to(), &to);
}

#[test]
fn named_inputs_keep_name_and_kind() {
    let input = ShaderInput::new("main_texture", ShaderValue::Texture2D);
    assert_eq!(input.name(), "main_texture");
    assert_eq!(input.value(), ShaderValue::Texture2D);
    let node_input = ShaderNodeInput::new("uv", ShaderValue::Vec2F);
    assert_eq!(node_input.name(), "uv");
    assert_eq!(node_input.value(), ShaderValue::Vec2F);
}


#[test]
fn vertex_attribute_sizes() {
    assert_eq!(VertexAttribute::Float.size(), 4);
    assert_eq!(VertexAttribute::Vec2I.size(), 8);
    assert_eq!(VertexAttribute::Vec3U.size(), 12);
    assert_eq!(VertexAttribute::Color.size(), 16);
    assert_eq!(VertexAttribute::Vec4F.size(), 16);
}

#[test]
fn buffer_flags_tell_writable_buffers() {
    assert!(!BufferFlags::empty().is_write());
    assert!(!BufferFlags(MAP_READ).is_write());
    assert!(BufferFlags(MAP_WRITE).is_write());
    assert!(BufferFlags::empty().union(COPY_DST).is_write());
    assert!(BufferFlags(MAP_READ).union(COPY_DST).contains(MAP_READ | COPY_DST));
    assert_eq!(BufferFlags::from_bits_truncate(0xFF).bits(), 63);
}
