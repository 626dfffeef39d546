//! Descriptors for handing vertex data to a shader program.

use vstd::prelude::*;

verus! {

/// Specifies how to pass one stream of vertex data to the vertex shaders.
pub struct AttribData<'a> {
    /// Corresponds to the shader's input variable.
    pub name: &'a str,
    /// The size (in floats) of this attribute.
    pub size: usize,
}

} // verus!
