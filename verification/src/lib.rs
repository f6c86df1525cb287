//! A small game engine's scene, geometry and text bookkeeping.
pub mod color;
pub mod dimension;
pub mod entity;
pub mod frame;
pub mod geometry;
pub mod gesture;
pub mod id_order;
pub mod lifecycle;
pub mod model;
pub mod renderer;
pub mod scene;
pub mod text;

pub use color::Color;
pub use dimension::{Dimension, Mode, ThreeD, TwoD};
pub use entity::{Entity, EntityContext};
pub use geometry::Mesh;
