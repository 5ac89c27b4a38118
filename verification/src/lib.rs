//! Signed-distance-field UI: the UI node tree, the GPU records that the SDF
//! shaders read, and the deduplicating chunked buffers that hold the
//! variable-length, shape-specific data of those records.
use vstd::prelude::*;

pub mod chunked;
pub mod data;
pub mod fonts;
pub mod nodes;
pub mod shader;

pub use chunked::{ChunkHandle, ChunkHandleInner, ChunkedBuffer, ChunkedBufferContent, ChunkedBufferError, PendingWrite};
pub use data::{SDFMode, SDFRawStyleHandle, SDFShape};
pub use fonts::{load_face, SDFFontError};
pub use nodes::data::{Align, Display, Interaction, LastState, Overflow, UINode};
pub use nodes::events::{UINodeEndHoverEvent, UINodePressedEvent, UINodeReleasedEvent, UINodeStartHoverEvent};
pub use nodes::{UINodeSDFProvider, UINodeSDFRoot};
pub use shader::{
    pack_half, pack_u32, SDFChunkBuffers, SDFRawBezier, SDFRawGlyph, SDFRawMetadata, SDFRawRectangle, SDFRawShaderData,
    SDFRawShape, SDFRawStyle,
};

verus! {

/// The plugin that registers the GPU resources and the render pass of the
/// SDF UI.
pub struct UIPlugin;

} // verus!
