//! GPU-layout records uploaded to the SDF shaders, and the packing of the
//! 16-bit pointers that link them.
//!
//! Every `f32` of a record is held as its IEEE-754 bit pattern, so a record
//! is exactly the words the GPU reads.
use vstd::prelude::*;

use crate::chunked::{chunk_items, free_contains, has_fit, is_default, lemma_free_indices_follow_chunks, lemma_stored_handle_live, ChunkHandle, ChunkedBuffer, ChunkedBufferContent, ChunkedBufferError};
use crate::data::{shape_type_id, SDFRawStyleHandle, SDFShape};

verus! {

/// Bit pattern of `1.0f32`.
pub const ONE_BITS: u32 = 0x3F80_0000;

/// The bit pattern that stands for every NaN in a record (`f32::NAN`).
pub const CANONICAL_NAN_BITS: u32 = 0x7FC0_0000;

/// `bits` is the pattern of a NaN: all exponent bits set and a non-zero
/// fraction.
pub open spec fn is_nan_bits(bits: u32) -> bool {
    bits & 0x7F80_0000u32 == 0x7F80_0000u32 && bits & 0x007F_FFFFu32 != 0
}

/// `bits` is the pattern of `+0.0` or `-0.0`.
pub open spec fn is_zero_bits(bits: u32) -> bool {
    bits & 0x7FFF_FFFFu32 == 0
}

/// The canonical pattern of the float with pattern `bits`: every NaN becomes
/// `CANONICAL_NAN_BITS`, `-0.0` becomes `+0.0`, and any other value keeps
/// its pattern.
pub open spec fn canonical_bits(bits: u32) -> u32 {
    if is_nan_bits(bits) {
        CANONICAL_NAN_BITS
    } else if is_zero_bits(bits) {
        0
    } else {
        bits
    }
}

/// The canonical pattern of an `f32` given by its bits, so that floats that
/// compare equal as ordered floats (all NaNs, both zeros) give equal records,
/// and equal records share one chunk.
pub fn canonical_float_bits(bits: u32) -> (r: u32)
    ensures
        r == canonical_bits(bits),
{
    if bits & 0x7F80_0000 == 0x7F80_0000 && bits & 0x007F_FFFF != 0 {
        CANONICAL_NAN_BITS
    } else if bits & 0x7FFF_FFFF == 0 {
        0
    } else {
        bits
    }
}

/// Two float patterns have the same canonical pattern exactly when they are
/// the same pattern, both zeros, or both NaNs; and a canonical pattern is
/// its own canonical pattern.
pub proof fn lemma_canonical_bits(a: u32, b: u32)
    ensures
        (canonical_bits(a) == canonical_bits(b)) == (a == b || (is_zero_bits(a) && is_zero_bits(b)) || (
        is_nan_bits(a) && is_nan_bits(b))),
        canonical_bits(canonical_bits(a)) == canonical_bits(a),
{
    assert((if a & 0x7F80_0000u32 == 0x7F80_0000u32 && a & 0x007F_FFFFu32 != 0 {
        0x7FC0_0000u32
    } else if a & 0x7FFF_FFFFu32 == 0 {
        0u32
    } else {
        a
    }) == (if b & 0x7F80_0000u32 == 0x7F80_0000u32 && b & 0x007F_FFFFu32 != 0 {
        0x7FC0_0000u32
    } else if b & 0x7FFF_FFFFu32 == 0 {
        0u32
    } else {
        b
    }) <==> (a == b || (a & 0x7FFF_FFFFu32 == 0 && b & 0x7FFF_FFFFu32 == 0) || (a & 0x7F80_0000u32 == 0x7F80_0000u32
        && a & 0x007F_FFFFu32 != 0 && b & 0x7F80_0000u32 == 0x7F80_0000u32 && b & 0x007F_FFFFu32 != 0))) by (bit_vector);
    let c = canonical_bits(a);
    assert(c == 0x7FC0_0000u32 ==> c & 0x7F80_0000u32 == 0x7F80_0000u32 && c & 0x007F_FFFFu32 != 0) by (bit_vector);
    assert(c == 0u32 ==> !(c & 0x7F80_0000u32 == 0x7F80_0000u32 && c & 0x007F_FFFFu32 != 0) && c & 0x7FFF_FFFFu32 == 0) by (bit_vector);
}

/// Everything the shaders read in one binding, by record kind.
#[derive(Debug, Clone, Copy, Hash, PartialEq, Eq)]
pub struct SDFRawShaderData {
    pub metadata: SDFRawMetadata,
    pub shapes: [SDFRawShape; 1000],
    pub styles: [SDFRawStyle; 1000],
    pub rectangles: [SDFRawRectangle; 1000],
    pub bezier: [SDFRawBezier; 1000],
    pub glyphs: [SDFRawGlyph; 1000],
}

/// Per-frame data of the shaders: screen size and time (`f32` bits) and the
/// draw mode's code.
#[derive(Debug, Default, Clone, Copy, Hash, PartialEq, Eq)]
pub struct SDFRawMetadata {
    pub screen_dimensions: (u32, u32),
    pub time: u32,
    pub mode: u32,
}

/// One element of the flattened element tree.
///
/// `shape_ty` is the shape type ID (`0` empty, `1` circle, `2` rectangle,
/// `3` bezier, `4` glyph). `looks_ptrs` packs shape and style indices in the
/// high and low 16 bits respectively. `next_ptrs` packs the next-sibling and
/// first-child tree links in the high and low 16 bits respectively.
#[derive(Debug, Clone, Copy, Hash, PartialEq, Eq)]
pub struct SDFRawShape {
    pub center: (u32, u32),
    pub dimensions: (u32, u32),
    pub shape_ty: u32,
    pub looks_ptrs: u32,
    pub next_ptrs: u32,
    pub _pad0: u32,
}

/// Colors and border of an element; `texture_ptr` is an index into the
/// texture list, or `u32::MAX` when no texture is bound.
#[derive(Debug, Clone, Copy, Hash, PartialEq, Eq)]
pub struct SDFRawStyle {
    pub primary_color: (u32, u32, u32, u32),
    pub border_color: (u32, u32, u32, u32),
    pub border_width: u32,
    pub texture_ptr: u32,
    pub _padding: (u32, u32),
}

/// Corner radii of a rectangle.
#[derive(Debug, Clone, Copy, Hash, PartialEq, Eq)]
pub struct SDFRawRectangle {
    pub radii: (u32, u32, u32, u32),
}

/// A quadratic bezier stroke: three points relative to the element's center
/// and a thickness.
#[derive(Debug, Clone, Copy, Hash, PartialEq, Eq)]
pub struct SDFRawBezier {
    pub a_off: (u32, u32),
    pub b_off: (u32, u32),
    pub c_off: (u32, u32),
    pub thickness: u32,
    pub _pad0: u32,
}

/// A glyph: `start_idx` is the index of the first bezier curve in this
/// glyph, and `length` is the number of curves that follow.
#[derive(Debug, Clone, Copy, Hash, PartialEq, Eq)]
pub struct SDFRawGlyph {
    pub start_idx: u32,
    pub length: u32,
    pub _pad0: u32,
    pub _pad1: u32,
}

impl ChunkedBufferContent for SDFRawStyle {
    fn same_contents(&self, other: &Self) -> (r: bool) {
        self.primary_color.0 == other.primary_color.0 && self.primary_color.1 == other.primary_color.1 && self.primary_color.2 == other.primary_color.2 && self.primary_color.3 == other.primary_color.3 && self.border_color.0 == other.border_color.0 && self.border_color.1 == other.border_color.1 && self.border_color.2 == other.border_color.2 && self.border_color.3 == other.border_color.3 && self.border_width == other.border_width && self.texture_ptr == other.texture_ptr && self._padding.0 == other._padding.0 && self._padding.1 == other._padding.1
    }
}

impl ChunkedBufferContent for SDFRawRectangle {
    fn same_contents(&self, other: &Self) -> (r: bool) {
        self.radii.0 == other.radii.0 && self.radii.1 == other.radii.1 && self.radii.2 == other.radii.2 && self.radii.3 == other.radii.3
    }
}

impl ChunkedBufferContent for SDFRawBezier {
    fn same_contents(&self, other: &Self) -> (r: bool) {
        self.a_off.0 == other.a_off.0 && self.a_off.1 == other.a_off.1 && self.b_off.0 == other.b_off.0 && self.b_off.1 == other.b_off.1 && self.c_off.0 == other.c_off.0 && self.c_off.1 == other.c_off.1 && self.thickness == other.thickness && self._pad0 == other._pad0
    }
}

impl ChunkedBufferContent for SDFRawGlyph {
    fn same_contents(&self, other: &Self) -> (r: bool) {
        self.start_idx == other.start_idx && self.length == other.length && self._pad0 == other._pad0 && self._pad1 == other._pad1
    }
}

impl Default for SDFRawRectangle {
    /// Square corners.
    fn default() -> (r: Self)
        ensures
            r == (SDFRawRectangle { radii: (0, 0, 0, 0) }),
    {
        SDFRawRectangle { radii: (0, 0, 0, 0) }
    }
}

impl Default for SDFRawBezier {
    /// A curve of zero thickness with all points at the center.
    fn default() -> (r: Self)
        ensures
            r == (SDFRawBezier { a_off: (0, 0), b_off: (0, 0), c_off: (0, 0), thickness: 0, _pad0: 0 }),
    {
        SDFRawBezier { a_off: (0, 0), b_off: (0, 0), c_off: (0, 0), thickness: 0, _pad0: 0 }
    }
}

impl Default for SDFRawGlyph {
    /// A glyph of no curves, starting at index 0.
    fn default() -> (r: Self)
        ensures
            r == (SDFRawGlyph { start_idx: 0, length: 0, _pad0: 0, _pad1: 0 }),
    {
        SDFRawGlyph { start_idx: 0, length: 0, _pad0: 0, _pad1: 0 }
    }
}

impl Default for SDFRawShape {
    /// A zero-sized, shapeless element with no links.
    fn default() -> (r: Self)
        ensures
            r == (SDFRawShape {
                center: (0, 0),
                dimensions: (0, 0),
                shape_ty: 0,
                looks_ptrs: u32::MAX,
                next_ptrs: u32::MAX,
                _pad0: 0,
            }),
    {
        SDFRawShape {
            center: (0, 0),
            dimensions: (0, 0),
            shape_ty: 0,
            looks_ptrs: u32::MAX,
            next_ptrs: u32::MAX,
            _pad0: 0,
        }
    }
}

/// The default style record: white, fully transparent, no border and no
/// texture.
pub open spec fn default_style() -> SDFRawStyle {
    SDFRawStyle {
        primary_color: (ONE_BITS, ONE_BITS, ONE_BITS, 0),
        border_color: (ONE_BITS, ONE_BITS, ONE_BITS, 0),
        border_width: 0,
        texture_ptr: u32::MAX,
        _padding: (0, 0),
    }
}

impl Default for SDFRawStyle {
    /// White, fully transparent, no border and no texture.
    fn default() -> (r: Self)
        ensures
            r == default_style(),
    {
        SDFRawStyle {
            primary_color: (ONE_BITS, ONE_BITS, ONE_BITS, 0),
            border_color: (ONE_BITS, ONE_BITS, ONE_BITS, 0),
            border_width: 0,
            texture_ptr: u32::MAX,
            _padding: (0, 0),
        }
    }
}

/// Mask selecting one 16-bit half of a packed pointer word.
pub const HALF_MASK: u32 = 0xFFFF;

/// The "no pointer" sentinel of one 16-bit half.
pub const HALF_NONE: u32 = 0xFFFF;

/// The 16-bit half that stands for `ptr`: `u32::MAX` (no pointer) becomes
/// `HALF_NONE`, every other pointer is its own value.
pub open spec fn half_of(ptr: u32) -> u32 {
    if ptr == u32::MAX { HALF_NONE } else { ptr }
}

/// A pointer that fits in one half of a packed word: either "none" or below 2^16.
pub open spec fn fits_half(ptr: u32) -> bool {
    ptr == u32::MAX || ptr <= HALF_MASK
}

/// Pack a (possibly `u32::MAX`) pointer into its lower 16 bits, mapping
/// `u32::MAX` to `0xFFFF`, the "no pointer" sentinel for a half.
pub fn pack_half(ptr: u32) -> (r: u32)
    requires
        fits_half(ptr),
    ensures
        r == half_of(ptr),
        r <= HALF_MASK,
{
    if ptr == u32::MAX {
        HALF_NONE
    } else {
        assert(ptr & 0xFFFFu32 == ptr) by (bit_vector)
            requires
                ptr <= 0xFFFFu32,
        ;
        ptr & HALF_MASK
    }
}

/// Combine two 16-bit values into a single 32-bit word, `val1` in the high half.
pub fn pack_u32(val1: u16, val2: u16) -> (r: u32)
    ensures
        r == val1 * 65536 + val2,
        r / 65536 == val1,
        r % 65536 == val2,
{
    assert(((val1 as u32) << 16u32) | (val2 as u32) == val1 * 65536 + val2) by (bit_vector);
    ((val1 as u32) << 16) | (val2 as u32)
}

/// The high half of a packed pointer word.
pub open spec fn high_half(word: u32) -> u32 {
    word / 65536
}

/// The low half of a packed pointer word.
pub open spec fn low_half(word: u32) -> u32 {
    word % 65536
}

impl SDFRawShape {
    /// The element's next sibling, as a 16-bit half (`0xFFFF` for none).
    pub open spec fn next_sibling(&self) -> u32 {
        high_half(self.next_ptrs)
    }

    /// The element's first child, as a 16-bit half (`0xFFFF` for none).
    pub open spec fn first_child(&self) -> u32 {
        low_half(self.next_ptrs)
    }

    /// Links the element to its next sibling, keeping its first-child link.
    pub fn set_next_ptr(&mut self, ptr: u32)
        requires
            fits_half(ptr),
        ensures
            final(self).next_ptrs == half_of(ptr) * 65536 + low_half(old(self).next_ptrs),
            final(self).next_sibling() == half_of(ptr),
            final(self).first_child() == old(self).first_child(),
            final(self).center == old(self).center,
            final(self).dimensions == old(self).dimensions,
            final(self).shape_ty == old(self).shape_ty,
            final(self).looks_ptrs == old(self).looks_ptrs,
            final(self)._pad0 == old(self)._pad0,
    {
        let half = pack_half(ptr);
        let word = self.next_ptrs;
        assert((word & 0xFFFFu32) | (half << 16u32) == half * 65536 + word % 65536) by (bit_vector)
            requires
                half <= 0xFFFFu32,
        ;
        assert((half * 65536 + word % 65536) / 65536 == half && (half * 65536 + word % 65536) % 65536 == word % 65536)
            by (nonlinear_arith)
            requires
                half <= 0xFFFFu32,
        ;
        self.next_ptrs = (word & HALF_MASK) | (half << 16);
    }

    /// Links the element to its first child, keeping its next-sibling link.
    pub fn set_child_ptr(&mut self, ptr: u32)
        requires
            fits_half(ptr),
        ensures
            final(self).next_ptrs == high_half(old(self).next_ptrs) * 65536 + half_of(ptr),
            final(self).first_child() == half_of(ptr),
            final(self).next_sibling() == old(self).next_sibling(),
            final(self).center == old(self).center,
            final(self).dimensions == old(self).dimensions,
            final(self).shape_ty == old(self).shape_ty,
            final(self).looks_ptrs == old(self).looks_ptrs,
            final(self)._pad0 == old(self)._pad0,
    {
        let half = pack_half(ptr);
        let word = self.next_ptrs;
        assert((word & (0xFFFFu32 << 16u32)) | half == (word / 65536) * 65536 + half) by (bit_vector)
            requires
                half <= 0xFFFFu32,
        ;
        assert(((word / 65536) * 65536 + half) / 65536 == word / 65536 && ((word / 65536) * 65536 + half) % 65536 == half)
            by (nonlinear_arith)
            requires
                half <= 0xFFFFu32,
        ;
        self.next_ptrs = (word & (HALF_MASK << 16)) | half;
    }
}

/// The chunked buffers that hold the shape-specific data of elements.
pub struct SDFChunkBuffers {
    pub styles_buffer: ChunkedBuffer<SDFRawStyle>,
    pub rectangles_buffer: ChunkedBuffer<SDFRawRectangle>,
    pub bezier_buffer: ChunkedBuffer<SDFRawBezier>,
    pub glyphs_buffer: ChunkedBuffer<SDFRawGlyph>,
}

impl SDFChunkBuffers {
    /// All four buffers are consistent.
    pub open spec fn wf(&self) -> bool {
        &&& self.styles_buffer.wf()
        &&& self.rectangles_buffer.wf()
        &&& self.bezier_buffer.wf()
        &&& self.glyphs_buffer.wf()
    }

    /// No chunk of any buffer has so many handles that one more would
    /// overflow a reference count.
    pub open spec fn handles_below_limit(&self) -> bool {
        &&& self.styles_buffer.handles_below_limit()
        &&& self.rectangles_buffer.handles_below_limit()
        &&& self.bezier_buffer.handles_below_limit()
        &&& self.glyphs_buffer.handles_below_limit()
    }

    /// The chunks of `handle` are live in these buffers.
    pub open spec fn holds(&self, handle: SDFRawStyleHandle) -> bool {
        match handle {
            SDFRawStyleHandle::Empty => true,
            SDFRawStyleHandle::Rectangle(h) => self.rectangles_buffer.holds(h@),
            SDFRawStyleHandle::Curve(h) => self.bezier_buffer.holds(h@),
            SDFRawStyleHandle::Glyph(c, g) => self.bezier_buffer.holds(c@) && self.glyphs_buffer.holds(g@),
        }
    }

    /// Four empty buffers of `max_size` elements each.
    pub fn new(max_size: u32) -> (r: Self)
        ensures
            r.wf(),
            r.styles_buffer.capacity() == max_size,
            r.rectangles_buffer.capacity() == max_size,
            r.bezier_buffer.capacity() == max_size,
            r.glyphs_buffer.capacity() == max_size,
            r.styles_buffer.chunks().dom().is_empty(),
            r.rectangles_buffer.chunks().dom().is_empty(),
            r.bezier_buffer.chunks().dom().is_empty(),
            r.glyphs_buffer.chunks().dom().is_empty(),
            r.styles_buffer.free_ranges() == seq![(0u32, max_size)],
            r.rectangles_buffer.free_ranges() == seq![(0u32, max_size)],
            r.bezier_buffer.free_ranges() == seq![(0u32, max_size)],
            r.glyphs_buffer.free_ranges() == seq![(0u32, max_size)],
            r.styles_buffer.uploads() == seq![(0u32, Seq::new(max_size as nat, |i: int| default_style()))],
            r.rectangles_buffer.uploads() == seq![
                (0u32, Seq::new(max_size as nat, |i: int| SDFRawRectangle { radii: (0, 0, 0, 0) })),
            ],
            r.bezier_buffer.uploads() == seq![
                (
                    0u32,
                    Seq::new(
                        max_size as nat,
                        |i: int| SDFRawBezier { a_off: (0, 0), b_off: (0, 0), c_off: (0, 0), thickness: 0, _pad0: 0 },
                    ),
                ),
            ],
            r.glyphs_buffer.uploads() == seq![
                (0u32, Seq::new(max_size as nat, |i: int| SDFRawGlyph { start_idx: 0, length: 0, _pad0: 0, _pad1: 0 })),
            ],
    {
        let r = SDFChunkBuffers {
            styles_buffer: ChunkedBuffer::new(max_size),
            rectangles_buffer: ChunkedBuffer::new(max_size),
            bezier_buffer: ChunkedBuffer::new(max_size),
            glyphs_buffer: ChunkedBuffer::new(max_size),
        };
        proof {
            let fill = r.styles_buffer.uploads()[0].1;
            assert forall|i: int| 0 <= i < max_size implies #[trigger] fill[i] == default_style() by {
                assert(is_default(fill[i]));
            }
            assert(fill =~= Seq::new(max_size as nat, |i: int| default_style()));
            assert(r.styles_buffer.uploads() =~= seq![(0u32, Seq::new(max_size as nat, |i: int| default_style()))]);
            let rf = r.rectangles_buffer.uploads()[0].1;
            assert forall|i: int| 0 <= i < max_size implies #[trigger] rf[i] == (SDFRawRectangle { radii: (0, 0, 0, 0) }) by {
                assert(is_default(rf[i]));
            }
            assert(rf =~= Seq::new(max_size as nat, |i: int| SDFRawRectangle { radii: (0, 0, 0, 0) }));
            assert(r.rectangles_buffer.uploads() =~= seq![(0u32, rf)]);
            let bf = r.bezier_buffer.uploads()[0].1;
            assert forall|i: int| 0 <= i < max_size implies #[trigger] bf[i] == (SDFRawBezier {
                a_off: (0, 0),
                b_off: (0, 0),
                c_off: (0, 0),
                thickness: 0,
                _pad0: 0,
            }) by {
                assert(is_default(bf[i]));
            }
            assert(bf =~= Seq::new(
                max_size as nat,
                |i: int| SDFRawBezier { a_off: (0, 0), b_off: (0, 0), c_off: (0, 0), thickness: 0, _pad0: 0 },
            ));
            assert(r.bezier_buffer.uploads() =~= seq![(0u32, bf)]);
            let gf = r.glyphs_buffer.uploads()[0].1;
            assert forall|i: int| 0 <= i < max_size implies #[trigger] gf[i] == (SDFRawGlyph {
                start_idx: 0,
                length: 0,
                _pad0: 0,
                _pad1: 0,
            }) by {
                assert(is_default(gf[i]));
            }
            assert(gf =~= Seq::new(max_size as nat, |i: int| SDFRawGlyph { start_idx: 0, length: 0, _pad0: 0, _pad1: 0 }));
            assert(r.glyphs_buffer.uploads() =~= seq![(0u32, gf)]);
        }
        r
    }

    /// Every chunk of `handle` has fewer handles than the most a reference
    /// count can take.
    pub open spec fn can_share(&self, handle: SDFRawStyleHandle) -> bool {
        match handle {
            SDFRawStyleHandle::Empty => true,
            SDFRawStyleHandle::Rectangle(h) => self.rectangles_buffer.chunks()[h@.hash].2 < isize::MAX,
            SDFRawStyleHandle::Curve(h) => self.bezier_buffer.chunks()[h@.hash].2 < isize::MAX,
            SDFRawStyleHandle::Glyph(c, g) => self.bezier_buffer.chunks()[c@.hash].2 < isize::MAX
                && self.glyphs_buffer.chunks()[g@.hash].2 < isize::MAX,
        }
    }

    /// Another handle to the chunks of a shape handle, as cloning it does:
    /// each of its chunks has one more live handle.
    pub fn clone_style_handle(&mut self, handle: &SDFRawStyleHandle) -> (r: SDFRawStyleHandle)
        requires
            old(self).wf(),
            old(self).holds(*handle),
            old(self).can_share(*handle),
        ensures
            final(self).wf(),
            final(self).holds(r),
            r.ptr() == handle.ptr(),
            final(self).styles_buffer == old(self).styles_buffer,
            match *handle {
                SDFRawStyleHandle::Empty => {
                    &&& r is Empty
                    &&& *final(self) == *old(self)
                },
                SDFRawStyleHandle::Rectangle(h) => {
                    &&& r is Rectangle && r->Rectangle_0@ == h@
                    &&& old(self).rectangles_buffer.shared_spec(final(self).rectangles_buffer, h@)
                    &&& final(self).bezier_buffer == old(self).bezier_buffer
                    &&& final(self).glyphs_buffer == old(self).glyphs_buffer
                },
                SDFRawStyleHandle::Curve(h) => {
                    &&& r is Curve && r->Curve_0@ == h@
                    &&& old(self).bezier_buffer.shared_spec(final(self).bezier_buffer, h@)
                    &&& final(self).rectangles_buffer == old(self).rectangles_buffer
                    &&& final(self).glyphs_buffer == old(self).glyphs_buffer
                },
                SDFRawStyleHandle::Glyph(c, g) => {
                    &&& r is Glyph && r->Glyph_0@ == c@ && r->Glyph_1@ == g@
                    &&& old(self).bezier_buffer.shared_spec(final(self).bezier_buffer, c@)
                    &&& old(self).glyphs_buffer.shared_spec(final(self).glyphs_buffer, g@)
                    &&& final(self).rectangles_buffer == old(self).rectangles_buffer
                },
            },
    {
        match handle {
            SDFRawStyleHandle::Empty => SDFRawStyleHandle::Empty,
            SDFRawStyleHandle::Rectangle(h) => SDFRawStyleHandle::Rectangle(self.rectangles_buffer.clone_handle(h)),
            SDFRawStyleHandle::Curve(h) => SDFRawStyleHandle::Curve(self.bezier_buffer.clone_handle(h)),
            SDFRawStyleHandle::Glyph(c, g) => {
                let c2 = self.bezier_buffer.clone_handle(c);
                let g2 = self.glyphs_buffer.clone_handle(g);
                SDFRawStyleHandle::Glyph(c2, g2)
            },
        }
    }

    /// Gives up the chunks of a shape handle, as dropping it does.
    pub fn release_style_handle(&mut self, handle: SDFRawStyleHandle)
        requires
            old(self).wf(),
            old(self).holds(handle),
        ensures
            final(self).wf(),
            final(self).styles_buffer == old(self).styles_buffer,
            match handle {
                SDFRawStyleHandle::Empty => *final(self) == *old(self),
                SDFRawStyleHandle::Rectangle(h) => {
                    &&& old(self).rectangles_buffer.release_spec(final(self).rectangles_buffer, h@)
                    &&& final(self).bezier_buffer == old(self).bezier_buffer
                    &&& final(self).glyphs_buffer == old(self).glyphs_buffer
                },
                SDFRawStyleHandle::Curve(h) => {
                    &&& old(self).bezier_buffer.release_spec(final(self).bezier_buffer, h@)
                    &&& final(self).rectangles_buffer == old(self).rectangles_buffer
                    &&& final(self).glyphs_buffer == old(self).glyphs_buffer
                },
                SDFRawStyleHandle::Glyph(c, g) => {
                    &&& old(self).bezier_buffer.release_spec(final(self).bezier_buffer, c@)
                    &&& old(self).glyphs_buffer.release_spec(final(self).glyphs_buffer, g@)
                    &&& final(self).rectangles_buffer == old(self).rectangles_buffer
                },
            },
    {
        match handle {
            SDFRawStyleHandle::Empty => {},
            SDFRawStyleHandle::Rectangle(h) => self.rectangles_buffer.release(h),
            SDFRawStyleHandle::Curve(h) => self.bezier_buffer.release(h),
            SDFRawStyleHandle::Glyph(c, g) => {
                self.bezier_buffer.release(c);
                self.glyphs_buffer.release(g);
            },
        }
    }
}

/// The packed shape/style word of an element: the shape's data index in the
/// high half and the style's index in the low half, each cut to 16 bits.
pub open spec fn looks_word(shape_ptr: u32, style_ptr: u32) -> u32 {
    ((shape_ptr % 65536) * 65536 + style_ptr % 65536) as u32
}

/// The packed tree-link word of an element.
pub open spec fn links_word(next_ptr: u32, first_child_ptr: u32) -> u32 {
    (half_of(next_ptr) * 65536 + half_of(first_child_ptr)) as u32
}

/// What `new_gpu_type` stores for a shape: nothing for empty shapes and
/// circles, the record of a rectangle or a curve in its buffer, and for a
/// glyph its curves in the bezier buffer and a glyph header pointing at them.
pub open spec fn shape_stored(pre: SDFChunkBuffers, post: SDFChunkBuffers, shape: SDFShape, handle: SDFRawStyleHandle) -> bool {
    match shape {
        SDFShape::Rectangle(r) => {
            &&& handle is Rectangle
            &&& pre.rectangles_buffer.stored(post.rectangles_buffer, seq![r], Ok(handle->Rectangle_0))
            &&& post.bezier_buffer == pre.bezier_buffer
            &&& post.glyphs_buffer == pre.glyphs_buffer
        },
        SDFShape::Bezier(c) => {
            &&& handle is Curve
            &&& pre.bezier_buffer.stored(post.bezier_buffer, seq![c], Ok(handle->Curve_0))
            &&& post.rectangles_buffer == pre.rectangles_buffer
            &&& post.glyphs_buffer == pre.glyphs_buffer
        },
        SDFShape::Glyph(curves) => {
            &&& handle is Glyph
            &&& pre.bezier_buffer.stored(post.bezier_buffer, curves@, Ok(handle->Glyph_0))
            &&& pre.glyphs_buffer.stored(
                post.glyphs_buffer,
                seq![SDFRawGlyph { start_idx: handle->Glyph_0@.start_idx, length: handle->Glyph_0@.size, _pad0: 0, _pad1: 0 }],
                Ok(handle->Glyph_1),
            )
            &&& post.rectangles_buffer == pre.rectangles_buffer
        },
        _ => {
            &&& handle is Empty
            &&& post.rectangles_buffer == pre.rectangles_buffer
            &&& post.bezier_buffer == pre.bezier_buffer
            &&& post.glyphs_buffer == pre.glyphs_buffer
        },
    }
}

/// The index, cut to 16 bits, of the data the shader reads for an element
/// with this shape handle: `0xFFFF` for none, the rectangle's or the curve's
/// chunk, and the glyph header's chunk.
pub open spec fn shape_data_half(handle: SDFRawStyleHandle) -> u32 {
    match handle {
        SDFRawStyleHandle::Empty => 0xFFFF,
        SDFRawStyleHandle::Rectangle(h) => h@.start_idx % 65536,
        SDFRawStyleHandle::Curve(h) => h@.start_idx % 65536,
        SDFRawStyleHandle::Glyph(_, g) => g@.start_idx % 65536,
    }
}

/// The chunks that `new_gpu_type` took for the shape hold the shape's data
/// (the rectangle, the curve, or the glyph's curves and a header that points
/// at them), and every chunk that was live before still holds what it held.
/// The one exception to the first is a buffer in which every content key was
/// already taken.
pub open spec fn shape_data_held(pre: SDFChunkBuffers, post: SDFChunkBuffers, shape: SDFShape, handle: SDFRawStyleHandle) -> bool {
    match shape {
        SDFShape::Rectangle(r) => {
            &&& pre.rectangles_buffer.live_chunks_kept(post.rectangles_buffer)
            &&& post.rectangles_buffer.chunk_holds(handle->Rectangle_0@, seq![r]) || pre.rectangles_buffer.keys_exhausted()
        },
        SDFShape::Bezier(c) => {
            &&& pre.bezier_buffer.live_chunks_kept(post.bezier_buffer)
            &&& post.bezier_buffer.chunk_holds(handle->Curve_0@, seq![c]) || pre.bezier_buffer.keys_exhausted()
        },
        SDFShape::Glyph(curves) => {
            &&& pre.bezier_buffer.live_chunks_kept(post.bezier_buffer)
            &&& post.bezier_buffer.chunk_holds(handle->Glyph_0@, curves@) || pre.bezier_buffer.keys_exhausted()
            &&& pre.glyphs_buffer.live_chunks_kept(post.glyphs_buffer)
            &&& post.glyphs_buffer.chunk_holds(
                handle->Glyph_1@,
                seq![SDFRawGlyph { start_idx: handle->Glyph_0@.start_idx, length: handle->Glyph_0@.size, _pad0: 0, _pad1: 0 }],
            ) || pre.glyphs_buffer.keys_exhausted()
        },
        _ => true,
    }
}

/// What a successful `new_gpu_type` gives: the element's record, with the
/// index of its shape data in the high half of `looks_ptrs` and that of its
/// style in the low half; the shape's data and the style stored in their
/// buffers, each chunk holding what it was asked to hold.
pub open spec fn element_uploaded(
    pre: SDFChunkBuffers,
    post: SDFChunkBuffers,
    center: (u32, u32),
    dimensions: (u32, u32),
    shape: SDFShape,
    style: SDFRawStyle,
    next_ptr: u32,
    first_child_ptr: u32,
    raw: SDFRawShape,
    style_handle: ChunkHandle<SDFRawStyle>,
    shape_handle: SDFRawStyleHandle,
) -> bool {
    let mid = SDFChunkBuffers {
        styles_buffer: pre.styles_buffer,
        rectangles_buffer: post.rectangles_buffer,
        bezier_buffer: post.bezier_buffer,
        glyphs_buffer: post.glyphs_buffer,
    };
    &&& raw == (SDFRawShape {
        center,
        dimensions,
        shape_ty: shape_type_id(shape),
        looks_ptrs: looks_word(shape_handle.ptr(), style_handle@.start_idx),
        next_ptrs: links_word(next_ptr, first_child_ptr),
        _pad0: 0,
    })
    &&& high_half(raw.looks_ptrs) == shape_data_half(shape_handle)
    &&& low_half(raw.looks_ptrs) == style_handle@.start_idx % 65536
    &&& shape_stored(pre, mid, shape, shape_handle)
    &&& shape_data_held(pre, post, shape, shape_handle)
    &&& pre.styles_buffer.stored(post.styles_buffer, seq![style], Ok(style_handle))
    &&& post.styles_buffer.chunk_holds(style_handle@, seq![style]) || pre.styles_buffer.keys_exhausted()
    &&& pre.styles_buffer.live_chunks_kept(post.styles_buffer)
}

/// Every buffer that `shape` needs has a free range long enough for it.
pub open spec fn shape_fits(bufs: SDFChunkBuffers, shape: SDFShape) -> bool {
    match shape {
        SDFShape::Rectangle(_) => has_fit(bufs.rectangles_buffer.free_ranges(), 1),
        SDFShape::Bezier(_) => has_fit(bufs.bezier_buffer.free_ranges(), 1),
        SDFShape::Glyph(curves) => has_fit(bufs.bezier_buffer.free_ranges(), curves@.len() as int) && has_fit(
            bufs.glyphs_buffer.free_ranges(),
            1,
        ),
        _ => true,
    }
}

impl SDFRawShape {
    /// The GPU record of an element at `center` with `dimensions` (`f32`
    /// bits), drawn as `shape` with `style`, linked to `next_ptr` and
    /// `first_child_ptr` (`u32::MAX` for none).  The shape's data and the
    /// style are stored in their chunked buffers; the handles that keep them
    /// alive are returned with the record.  When a buffer is full, the chunks
    /// already taken for this element are given back and the error is
    /// returned.
    pub fn new_gpu_type(
        buffers: &mut SDFChunkBuffers,
        center: (u32, u32),
        dimensions: (u32, u32),
        shape: &SDFShape,
        style: SDFRawStyle,
        next_ptr: u32,
        first_child_ptr: u32,
    ) -> (res: Result<(SDFRawShape, ChunkHandle<SDFRawStyle>, SDFRawStyleHandle), ChunkedBufferError>)
        requires
            old(buffers).wf(),
            old(buffers).handles_below_limit(),
            fits_half(next_ptr),
            fits_half(first_child_ptr),
            shape matches SDFShape::Glyph(curves) ==> curves@.len() <= u32::MAX,
        ensures
            final(buffers).wf(),
            shape_fits(*old(buffers), *shape) && has_fit(old(buffers).styles_buffer.free_ranges(), 1) ==> res is Ok,
            match res {
                Ok((raw, style_handle, shape_handle)) => element_uploaded(
                    *old(buffers),
                    *final(buffers),
                    center,
                    dimensions,
                    *shape,
                    style,
                    next_ptr,
                    first_child_ptr,
                    raw,
                    style_handle,
                    shape_handle,
                ),
                Err(e) => {
                    &&& e == ChunkedBufferError::Full { size: 1 } || (shape matches SDFShape::Glyph(curves) && e
                        == ChunkedBufferError::Full { size: curves@.len() as u32 })
                    &&& final(buffers).styles_buffer.chunks() == old(buffers).styles_buffer.chunks()
                    &&& final(buffers).rectangles_buffer.chunks() == old(buffers).rectangles_buffer.chunks()
                    &&& final(buffers).bezier_buffer.chunks() == old(buffers).bezier_buffer.chunks()
                    &&& final(buffers).glyphs_buffer.chunks() == old(buffers).glyphs_buffer.chunks()
                    &&& forall|i: int| #[trigger] free_contains(final(buffers).styles_buffer.free_ranges(), i)
                        == free_contains(old(buffers).styles_buffer.free_ranges(), i)
                    &&& forall|i: int| #[trigger] free_contains(final(buffers).rectangles_buffer.free_ranges(), i)
                        == free_contains(old(buffers).rectangles_buffer.free_ranges(), i)
                    &&& forall|i: int| #[trigger] free_contains(final(buffers).bezier_buffer.free_ranges(), i)
                        == free_contains(old(buffers).bezier_buffer.free_ranges(), i)
                    &&& forall|i: int| #[trigger] free_contains(final(buffers).glyphs_buffer.free_ranges(), i)
                        == free_contains(old(buffers).glyphs_buffer.free_ranges(), i)
                },
            },
    {
        let shape_ty: u32 = match shape {
            SDFShape::Empty => 0,
            SDFShape::Circle => 1,
            SDFShape::Rectangle(_) => 2,
            SDFShape::Bezier(_) => 3,
            SDFShape::Glyph(_) => 4,
        };

        let shape_handle = match shape {
            SDFShape::Rectangle(rectangle) => {
                let data = vec![*rectangle];
                assert(data@ =~= seq![*rectangle]);
                match buffers.rectangles_buffer.get(data.as_slice()) {
                    Ok(h) => SDFRawStyleHandle::Rectangle(h),
                    Err(e) => {
                        return Err(e);
                    },
                }
            },
            SDFShape::Bezier(curve) => {
                let data = vec![*curve];
                assert(data@ =~= seq![*curve]);
                match buffers.bezier_buffer.get(data.as_slice()) {
                    Ok(h) => SDFRawStyleHandle::Curve(h),
                    Err(e) => {
                        return Err(e);
                    },
                }
            },
            SDFShape::Glyph(curves) => {
                // the curves first, then the glyph header that points at them
                let chunk = match buffers.bezier_buffer.get(curves.as_slice()) {
                    Ok(h) => h,
                    Err(e) => {
                        return Err(e);
                    },
                };
                let header = vec![SDFRawGlyph { start_idx: chunk.start_idx(), length: chunk.size(), _pad0: 0, _pad1: 0 }];
                assert(header@ =~= seq![SDFRawGlyph { start_idx: chunk@.start_idx, length: chunk@.size, _pad0: 0, _pad1: 0 }]);
                match buffers.glyphs_buffer.get(header.as_slice()) {
                    Ok(glyph) => SDFRawStyleHandle::Glyph(chunk, glyph),
                    Err(e) => {
                        buffers.bezier_buffer.release(chunk);
                        proof {
                            assert(buffers.bezier_buffer.chunks() =~= old(buffers).bezier_buffer.chunks());
                    lemma_free_indices_follow_chunks(&buffers.bezier_buffer, &old(buffers).bezier_buffer);
                        }
                        return Err(e);
                    },
                }
            },
            _ => SDFRawStyleHandle::Empty,
        };

        let style_data = vec![style];
        assert(style_data@ =~= seq![style]);
        let style_handle = match buffers.styles_buffer.get(style_data.as_slice()) {
            Ok(h) => h,
            Err(e) => {
                buffers.release_style_handle(shape_handle);
                proof {
                    assert(buffers.rectangles_buffer.chunks() =~= old(buffers).rectangles_buffer.chunks());
                    lemma_free_indices_follow_chunks(&buffers.rectangles_buffer, &old(buffers).rectangles_buffer);
                    assert(buffers.bezier_buffer.chunks() =~= old(buffers).bezier_buffer.chunks());
                    lemma_free_indices_follow_chunks(&buffers.bezier_buffer, &old(buffers).bezier_buffer);
                    assert(buffers.glyphs_buffer.chunks() =~= old(buffers).glyphs_buffer.chunks());
                    lemma_free_indices_follow_chunks(&buffers.glyphs_buffer, &old(buffers).glyphs_buffer);
                }
                return Err(e);
            },
        };

        let shape_ptr = shape_handle.handle_ptr();
        let style_ptr = style_handle.start_idx();
        assert(shape_ptr as u16 == shape_ptr % 65536 && style_ptr as u16 == style_ptr % 65536) by (bit_vector);
        let looks_ptrs = pack_u32(shape_ptr as u16, style_ptr as u16);
        proof {
            assert(shape_ptr % 65536 == shape_data_half(shape_handle));
        }
        let next_half = pack_half(next_ptr);
        let child_half = pack_half(first_child_ptr);
        assert((next_half << 16u32) | child_half == next_half * 65536 + child_half) by (bit_vector)
            requires
                next_half <= 0xFFFFu32,
                child_half <= 0xFFFFu32,
        ;
        let next_ptrs = (next_half << 16) | child_half;
        Ok((
            SDFRawShape { center, dimensions, shape_ty, looks_ptrs, next_ptrs, _pad0: 0 },
            style_handle,
            shape_handle,
        ))
    }
}

/// Linking an element to its next sibling and to its first child gives the
/// same word in either order, and it is the word `new_gpu_type` packs for
/// those two links.
pub proof fn lemma_links_commute(word: u32, next_ptr: u32, first_child_ptr: u32)
    requires
        fits_half(next_ptr),
        fits_half(first_child_ptr),
    ensures
        ({
            let after_next = (half_of(next_ptr) * 65536 + low_half(word)) as u32;
            high_half(after_next) * 65536 + half_of(first_child_ptr)
        }) == ({
            let after_child = (high_half(word) * 65536 + half_of(first_child_ptr)) as u32;
            half_of(next_ptr) * 65536 + low_half(after_child)
        }),
        ({
            let after_next = (half_of(next_ptr) * 65536 + low_half(word)) as u32;
            high_half(after_next) * 65536 + half_of(first_child_ptr)
        }) == links_word(next_ptr, first_child_ptr),
{
    let n = half_of(next_ptr);
    let c = half_of(first_child_ptr);
    assert(n <= 0xFFFF && c <= 0xFFFF);
    assert(((n * 65536 + word % 65536) as u32) / 65536 == n) by (nonlinear_arith)
        requires
            n <= 0xFFFF,
    ;
    assert(((word / 65536 * 65536 + c) as u32) % 65536 == c) by (nonlinear_arith)
        requires
            c <= 0xFFFF,
    ;
}

/// The record that `new_gpu_type` builds points at the element's own data:
/// the low half of `looks_ptrs` indexes a record equal to the element's
/// style, and the high half indexes the rectangle or the curve of the shape,
/// or a glyph header whose range of curves holds exactly the glyph's curves;
/// shapes without data point nowhere (`0xFFFF`).  This holds where the index
/// fits in 16 bits and the buffer still had a content key left.
pub proof fn lemma_element_reads_its_data(
    pre: SDFChunkBuffers,
    post: SDFChunkBuffers,
    center: (u32, u32),
    dimensions: (u32, u32),
    shape: SDFShape,
    style: SDFRawStyle,
    next_ptr: u32,
    first_child_ptr: u32,
    raw: SDFRawShape,
    style_handle: ChunkHandle<SDFRawStyle>,
    shape_handle: SDFRawStyleHandle,
)
    requires
        post.wf(),
        element_uploaded(pre, post, center, dimensions, shape, style, next_ptr, first_child_ptr, raw, style_handle, shape_handle),
    ensures
        style_handle@.start_idx < 65536 && !pre.styles_buffer.keys_exhausted() ==> post.styles_buffer.contents()[low_half(
            raw.looks_ptrs,
        ) as int] == style,
        shape is Rectangle && shape_handle->Rectangle_0@.start_idx < 65536 && !pre.rectangles_buffer.keys_exhausted()
            ==> post.rectangles_buffer.contents()[high_half(raw.looks_ptrs) as int] == shape->Rectangle_0,
        shape is Bezier && shape_handle->Curve_0@.start_idx < 65536 && !pre.bezier_buffer.keys_exhausted()
            ==> post.bezier_buffer.contents()[high_half(raw.looks_ptrs) as int] == shape->Bezier_0,
        shape is Glyph && shape_handle->Glyph_1@.start_idx < 65536
            && !pre.bezier_buffer.keys_exhausted() && !pre.glyphs_buffer.keys_exhausted() ==> ({
            let header = post.glyphs_buffer.contents()[high_half(raw.looks_ptrs) as int];
            chunk_items(post.bezier_buffer.contents(), header.start_idx, header.length) == shape->Glyph_0@
        }),
        shape is Empty || shape is Circle ==> high_half(raw.looks_ptrs) == 0xFFFF,
{
    let mid = SDFChunkBuffers {
        styles_buffer: pre.styles_buffer,
        rectangles_buffer: post.rectangles_buffer,
        bezier_buffer: post.bezier_buffer,
        glyphs_buffer: post.glyphs_buffer,
    };
    lemma_stored_handle_live(pre.styles_buffer, post.styles_buffer, seq![style], Ok(style_handle));
    if style_handle@.start_idx < 65536 && !pre.styles_buffer.keys_exhausted() {
        let items = chunk_items(post.styles_buffer.contents(), style_handle@.start_idx, style_handle@.size);
        assert(items == seq![style]);
        assert(items[0] == style);
    }
    match shape {
        SDFShape::Rectangle(r) => {
            let h = shape_handle->Rectangle_0;
            lemma_stored_handle_live(pre.rectangles_buffer, mid.rectangles_buffer, seq![r], Ok(h));
            if h@.start_idx < 65536 && !pre.rectangles_buffer.keys_exhausted() {
                let items = chunk_items(post.rectangles_buffer.contents(), h@.start_idx, h@.size);
                assert(items == seq![r]);
                assert(items[0] == r);
            }
        },
        SDFShape::Bezier(c) => {
            let h = shape_handle->Curve_0;
            lemma_stored_handle_live(pre.bezier_buffer, mid.bezier_buffer, seq![c], Ok(h));
            if h@.start_idx < 65536 && !pre.bezier_buffer.keys_exhausted() {
                let items = chunk_items(post.bezier_buffer.contents(), h@.start_idx, h@.size);
                assert(items == seq![c]);
                assert(items[0] == c);
            }
        },
        SDFShape::Glyph(curves) => {
            let cs = shape_handle->Glyph_0;
            let g = shape_handle->Glyph_1;
            let header = SDFRawGlyph { start_idx: cs@.start_idx, length: cs@.size, _pad0: 0, _pad1: 0 };
            lemma_stored_handle_live(pre.glyphs_buffer, mid.glyphs_buffer, seq![header], Ok(g));
            if g@.start_idx < 65536 && !pre.bezier_buffer.keys_exhausted() && !pre.glyphs_buffer.keys_exhausted() {
                let items = chunk_items(post.glyphs_buffer.contents(), g@.start_idx, g@.size);
                assert(items == seq![header]);
                assert(items[0] == header);
            }
        },
        _ => {},
    }
}

/// Two elements uploaded one after the other with different styles never
/// share a style chunk: the first element's style chunk still holds its
/// style after the second upload, and the second element's holds the other.
/// (Unless a styles buffer had no content key left.)
pub proof fn lemma_distinct_styles_distinct_chunks(
    b0: SDFChunkBuffers,
    b1: SDFChunkBuffers,
    b2: SDFChunkBuffers,
    center1: (u32, u32),
    dimensions1: (u32, u32),
    shape1: SDFShape,
    style1: SDFRawStyle,
    next_ptr1: u32,
    first_child_ptr1: u32,
    raw1: SDFRawShape,
    style_handle1: ChunkHandle<SDFRawStyle>,
    shape_handle1: SDFRawStyleHandle,
    center2: (u32, u32),
    dimensions2: (u32, u32),
    shape2: SDFShape,
    style2: SDFRawStyle,
    next_ptr2: u32,
    first_child_ptr2: u32,
    raw2: SDFRawShape,
    style_handle2: ChunkHandle<SDFRawStyle>,
    shape_handle2: SDFRawStyleHandle,
)
    requires
        b1.wf(),
        b2.wf(),
        element_uploaded(
            b0, b1, center1, dimensions1, shape1, style1, next_ptr1, first_child_ptr1, raw1, style_handle1, shape_handle1,
        ),
        element_uploaded(
            b1, b2, center2, dimensions2, shape2, style2, next_ptr2, first_child_ptr2, raw2, style_handle2, shape_handle2,
        ),
        !b0.styles_buffer.keys_exhausted(),
        !b1.styles_buffer.keys_exhausted(),
    ensures
        b2.styles_buffer.chunk_holds(style_handle1@, seq![style1]),
        b2.styles_buffer.chunk_holds(style_handle2@, seq![style2]),
        style1 != style2 ==> style_handle1@.start_idx != style_handle2@.start_idx,
        style1 != style2 && style_handle1@.start_idx < 65536 && style_handle2@.start_idx < 65536 ==> low_half(
            raw1.looks_ptrs,
        ) != low_half(raw2.looks_ptrs),
{
    let h1 = style_handle1@;
    let h2 = style_handle2@;
    lemma_stored_handle_live(b0.styles_buffer, b1.styles_buffer, seq![style1], Ok(style_handle1));
    lemma_stored_handle_live(b1.styles_buffer, b2.styles_buffer, seq![style2], Ok(style_handle2));
    assert(b1.styles_buffer.chunks().contains_key(h1.hash));
    let i1 = chunk_items(b2.styles_buffer.contents(), h1.start_idx, h1.size);
    let i2 = chunk_items(b2.styles_buffer.contents(), h2.start_idx, h2.size);
    assert(i1 == seq![style1]);
    assert(i2 == seq![style2]);
    if style1 != style2 && h1.start_idx == h2.start_idx {
        assert(i1[0] == style1 && i2[0] == style2);
    }
}

} // verus!
