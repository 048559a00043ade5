use vstd::prelude::*;

pub mod indices;
pub mod joints;
pub mod scene;
pub mod shader;

verus! {

/// Marker for a mesh that carries animation-joint data. The joint hierarchy
/// itself is not resolved.
#[derive(Default, Clone, Copy, PartialEq, Eq, Structural)]
pub struct Skin {}

/// Command-line options of the viewer.
pub struct Args {
    /// Path to the glTF/GLB file to be rendered.
    pub gltf: String,
}

} // verus!
