//! Marker types that keep 2D and 3D content apart at compile time.
use vstd::prelude::*;

verus! {

/// A rendering dimension: `TwoD` or `ThreeD`.
pub trait Dimension {
}

/// Flat content drawn with an orthographic camera.
pub struct TwoD;

/// Spatial content drawn with a perspective camera.
pub struct ThreeD;

impl Dimension for TwoD {
}

impl Dimension for ThreeD {
}

/// The mode an engine runs in.
pub enum Mode {
    Mode2D,
    Mode3D,
}

} // verus!
