use vstd::prelude::*;

pub mod key;
pub mod storage;
pub mod common;
pub mod ids;
pub mod entity;
pub mod archetype;
pub mod event;
pub mod world;
pub mod resource;
pub mod schedule;
pub mod phases;
pub mod scene;
pub mod window;
pub mod shader;
pub mod buffer;
pub mod game;
pub mod render_graph;
pub mod system;
