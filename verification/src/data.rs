//! The element data that drives GPU upload: draw modes, shapes in their GPU
//! record form, and the chunk handles an uploaded element keeps alive.
use vstd::prelude::*;

use crate::chunked::ChunkHandle;
use crate::shader::{SDFRawBezier, SDFRawGlyph, SDFRawRectangle};

verus! {

/// Modes that `SDFMetadata` can use.
#[derive(Debug, Default, Clone, Copy, Hash, PartialEq, Eq)]
pub enum SDFMode {
    #[default]
    Normal,
    HashColor,
}

impl SDFMode {
    /// The number by which the shaders know this mode.
    pub fn code(self) -> (r: u32)
        ensures
            r == (match self {
                SDFMode::Normal => 0u32,
                SDFMode::HashColor => 1u32,
            }),
    {
        match self {
            SDFMode::Normal => 0,
            SDFMode::HashColor => 1,
        }
    }
}

/// The shape of an element, with its geometry already in GPU record form.
pub enum SDFShape {
    Empty,
    Circle,
    Rectangle(SDFRawRectangle),
    Bezier(SDFRawBezier),
    Glyph(Vec<SDFRawBezier>),
}

/// The shape type ID the shaders use: `0` empty, `1` circle, `2` rectangle,
/// `3` bezier, `4` glyph.
pub open spec fn shape_type_id(shape: SDFShape) -> u32 {
    match shape {
        SDFShape::Empty => 0,
        SDFShape::Circle => 1,
        SDFShape::Rectangle(_) => 2,
        SDFShape::Bezier(_) => 3,
        SDFShape::Glyph(_) => 4,
    }
}

/// The chunks that hold the shape-specific data of an uploaded element.
#[derive(Default)]
pub enum SDFRawStyleHandle {
    #[default]
    Empty,
    Rectangle(ChunkHandle<SDFRawRectangle>),
    Curve(ChunkHandle<SDFRawBezier>),
    Glyph(ChunkHandle<SDFRawBezier>, ChunkHandle<SDFRawGlyph>),
}

impl SDFRawStyleHandle {
    /// The index the shape's shader reads its data from: `u32::MAX` for no
    /// data, the record's chunk for rectangles and curves, and the glyph
    /// header (not the curves) for glyphs.
    pub open spec fn ptr(&self) -> u32 {
        match self {
            SDFRawStyleHandle::Empty => u32::MAX,
            SDFRawStyleHandle::Rectangle(h) => h@.start_idx,
            SDFRawStyleHandle::Curve(h) => h@.start_idx,
            SDFRawStyleHandle::Glyph(_, g) => g@.start_idx,
        }
    }

    /// The index the shape's shader reads its data from.
    pub fn handle_ptr(&self) -> (r: u32)
        ensures
            r == self.ptr(),
            self is Empty ==> r == u32::MAX,
            self matches SDFRawStyleHandle::Rectangle(h) ==> r == h@.start_idx,
            self matches SDFRawStyleHandle::Curve(h) ==> r == h@.start_idx,
            self matches SDFRawStyleHandle::Glyph(_, g) ==> r == g@.start_idx,
    {
        match self {
            SDFRawStyleHandle::Empty => u32::MAX,
            SDFRawStyleHandle::Rectangle(chunk_handle) => chunk_handle.start_idx(),
            SDFRawStyleHandle::Curve(chunk_handle) => chunk_handle.start_idx(),
            SDFRawStyleHandle::Glyph(_, ptr) => ptr.start_idx(),
        }
    }
}

} // verus!
