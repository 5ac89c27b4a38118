use iso_ui::data::SDFShape;
use iso_ui::shader::{canonical_float_bits, pack_half, pack_u32, SDFChunkBuffers, CANONICAL_NAN_BITS, ONE_BITS};
use iso_ui::{ChunkedBufferError, SDFMode, SDFRawBezier, SDFRawRectangle, SDFRawShape, SDFRawStyle, SDFRawStyleHandle};

fn style() -> SDFRawStyle {
    SDFRawStyle {
        primary_color: (ONE_BITS, 0, 0, ONE_BITS),
        border_color: (0, 0, 0, 0),
        border_width: 0,
        texture_ptr: u32::MAX,
        _padding: (0, 0),
    }
}

fn curve(x: u32) -> SDFRawBezier {
    SDFRawBezier { a_off: (x, 0), b_off: (x, 1), c_off: (x, 2), thickness: ONE_BITS, _pad0: 0 }
}

#[test]
fn pack_half_maps_none_to_the_sentinel() {
    assert_eq!(pack_half(u32::MAX), 0xFFFF);
    assert_eq!(pack_half(7), 7);
    assert_eq!(pack_half(0xFFFF), 0xFFFF);
}

#[test]
fn pack_u32_puts_the_first_value_high() {
    assert_eq!(pack_u32(0x1234, 0xABCD), 0x1234_ABCD);
    assert_eq!(pack_u32(0, 0xFFFF), 0x0000_FFFF);
}

#[test]
fn one_bits_is_one() {
    assert_eq!(ONE_BITS, 1.0f32.to_bits());
}

#[test]
fn default_shape_record_has_no_links() {
    let s = SDFRawShape::default();
    assert_eq!(s.next_ptrs, u32::MAX);
    assert_eq!(s.looks_ptrs, u32::MAX);
    assert_eq!(s.shape_ty, 0);
    assert_eq!(s.center, (0, 0));
}

#[test]
fn default_style_record_is_transparent_white() {
    let s = SDFRawStyle::default();
    assert_eq!(s.primary_color, (ONE_BITS, ONE_BITS, ONE_BITS, 0));
    assert_eq!(s.texture_ptr, u32::MAX);
    assert_eq!(s.border_width, 0);
}

#[test]
fn sibling_and_child_links_are_independent() {
    let mut s = SDFRawShape::default();
    s.set_next_ptr(3);
    assert_eq!(s.next_ptrs, 0x0003_FFFF);
    s.set_child_ptr(5);
    assert_eq!(s.next_ptrs, 0x0003_0005);
    s.set_next_ptr(u32::MAX);
    assert_eq!(s.next_ptrs, 0xFFFF_0005);
}

#[test]
fn links_commute() {
    let mut a = SDFRawShape::default();
    a.set_next_ptr(9);
    a.set_child_ptr(4);
    let mut b = SDFRawShape::default();
    b.set_child_ptr(4);
    b.set_next_ptr(9);
    assert_eq!(a.next_ptrs, b.next_ptrs);
}

#[test]
fn mode_codes() {
    assert_eq!(SDFMode::Normal.code(), 0);
    assert_eq!(SDFMode::HashColor.code(), 1);
    assert_eq!(SDFMode::default(), SDFMode::Normal);
}

#[test]
fn empty_style_handle_points_nowhere() {
    assert_eq!(SDFRawStyleHandle::Empty.handle_ptr(), u32::MAX);
}

#[test]
fn rectangle_record_packs_pointers() {
    let mut buffers = SDFChunkBuffers::new(16);
    let rect = SDFRawRectangle { radii: (1, 2, 3, 4) };
    let (raw, style_handle, shape_handle) =
        SDFRawShape::new_gpu_type(&mut buffers, (10, 20), (30, 40), &SDFShape::Rectangle(rect), style(), u32::MAX, 2)
            .unwrap();
    assert_eq!(raw.shape_ty, 2);
    assert_eq!(raw.center, (10, 20));
    assert_eq!(raw.dimensions, (30, 40));
    assert_eq!(raw.looks_ptrs, 0x0000_0000);
    assert_eq!(raw.next_ptrs, 0xFFFF_0002);
    assert_eq!(style_handle.start_idx(), 0);
    assert_eq!(shape_handle.handle_ptr(), 0);
    let writes = buffers.rectangles_buffer.take_pending_writes();
    assert_eq!(writes.len(), 2);
    assert_eq!(writes[1].data, vec![rect]);
}

#[test]
fn circle_has_no_shape_data() {
    let mut buffers = SDFChunkBuffers::new(16);
    let (raw, _style, shape) =
        SDFRawShape::new_gpu_type(&mut buffers, (0, 0), (0, 0), &SDFShape::Circle, style(), 1, u32::MAX).unwrap();
    assert_eq!(raw.shape_ty, 1);
    assert_eq!(raw.looks_ptrs, 0xFFFF_0000);
    assert_eq!(raw.next_ptrs, 0x0001_FFFF);
    assert_eq!(shape.handle_ptr(), u32::MAX);
}

#[test]
fn glyph_header_points_at_its_curves() {
    let mut buffers = SDFChunkBuffers::new(16);
    // something already in the bezier buffer, so the curves start later
    let _first = buffers.bezier_buffer.get(&[curve(100)]).unwrap();
    let shape = SDFShape::Glyph(vec![curve(1), curve(2), curve(3)]);
    let (raw, _style, handle) =
        SDFRawShape::new_gpu_type(&mut buffers, (0, 0), (0, 0), &shape, style(), u32::MAX, u32::MAX).unwrap();
    assert_eq!(raw.shape_ty, 4);
    match &handle {
        SDFRawStyleHandle::Glyph(curves, header) => {
            assert_eq!((curves.start_idx(), curves.size()), (1, 3));
            assert_eq!(header.start_idx(), 0);
        },
        _ => panic!("expected a glyph handle"),
    }
    let headers = buffers.glyphs_buffer.take_pending_writes();
    assert_eq!(headers[1].data[0].start_idx, 1);
    assert_eq!(headers[1].data[0].length, 3);
    assert_eq!(raw.looks_ptrs, 0x0000_0000);
}

#[test]
fn same_element_twice_shares_chunks() {
    let mut buffers = SDFChunkBuffers::new(16);
    let rect = SDFRawRectangle { radii: (5, 5, 5, 5) };
    let (a, _, _) =
        SDFRawShape::new_gpu_type(&mut buffers, (0, 0), (1, 1), &SDFShape::Rectangle(rect), style(), u32::MAX, u32::MAX)
            .unwrap();
    let (b, _, _) =
        SDFRawShape::new_gpu_type(&mut buffers, (0, 0), (1, 1), &SDFShape::Rectangle(rect), style(), u32::MAX, u32::MAX)
            .unwrap();
    assert_eq!(a.looks_ptrs, b.looks_ptrs);
    // the default fill and one upload each
    assert_eq!(buffers.rectangles_buffer.take_pending_writes().len(), 2);
    assert_eq!(buffers.styles_buffer.take_pending_writes().len(), 2);
}

#[test]
fn full_style_buffer_gives_back_the_shape_chunk() {
    let mut buffers = SDFChunkBuffers::new(1);
    // fill the style buffer with another style
    let mut other = style();
    other.border_width = 7;
    let _taken = buffers.styles_buffer.get(&[other]).unwrap();
    let rect = SDFRawRectangle { radii: (1, 1, 1, 1) };
    let r = SDFRawShape::new_gpu_type(&mut buffers, (0, 0), (1, 1), &SDFShape::Rectangle(rect), style(), u32::MAX, u32::MAX);
    assert_eq!(r.err(), Some(ChunkedBufferError::Full { size: 1 }));
    // the rectangle's chunk was released: the whole rectangle buffer is free again
    let again = buffers.rectangles_buffer.get(&[SDFRawRectangle { radii: (9, 9, 9, 9) }]).unwrap();
    assert_eq!(again.start_idx(), 0);
}

#[test]
fn new_style_buffer_is_filled_with_the_default_style() {
    let mut buffers = SDFChunkBuffers::new(3);
    let writes = buffers.styles_buffer.take_pending_writes();
    assert_eq!(writes.len(), 1);
    assert_eq!(writes[0].start_idx, 0);
    assert_eq!(writes[0].data, vec![SDFRawStyle::default(); 3]);
    assert_eq!(writes[0].data[2].texture_ptr, u32::MAX);
}

#[test]
fn canonical_bits_merge_zeros_and_nans() {
    assert_eq!(canonical_float_bits((-0.0f32).to_bits()), 0);
    assert_eq!(canonical_float_bits(0.0f32.to_bits()), 0);
    assert_eq!(canonical_float_bits(f32::NAN.to_bits()), CANONICAL_NAN_BITS);
    assert_eq!(canonical_float_bits(0x7FC0_1234), CANONICAL_NAN_BITS);
    assert_eq!(canonical_float_bits(0xFF80_0001), CANONICAL_NAN_BITS);
    assert_eq!(canonical_float_bits(f32::INFINITY.to_bits()), f32::INFINITY.to_bits());
    assert_eq!(canonical_float_bits(1.5f32.to_bits()), 1.5f32.to_bits());
    assert_eq!(CANONICAL_NAN_BITS, f32::NAN.to_bits());
}

#[test]
fn default_records_are_zero() {
    assert_eq!(SDFRawRectangle::default(), SDFRawRectangle { radii: (0, 0, 0, 0) });
    assert_eq!(
        SDFRawBezier::default(),
        SDFRawBezier { a_off: (0, 0), b_off: (0, 0), c_off: (0, 0), thickness: 0, _pad0: 0 }
    );
}

#[test]
fn cloned_style_handle_keeps_the_chunk_alive() {
    let mut buffers = SDFChunkBuffers::new(1);
    let rect = SDFRawRectangle { radii: (3, 3, 3, 3) };
    let (_, style_handle, shape_handle) =
        SDFRawShape::new_gpu_type(&mut buffers, (0, 0), (1, 1), &SDFShape::Rectangle(rect), style(), u32::MAX, u32::MAX)
            .unwrap();
    let copy = buffers.clone_style_handle(&shape_handle);
    assert_eq!(copy.handle_ptr(), shape_handle.handle_ptr());
    buffers.release_style_handle(shape_handle);
    // the copy still holds the only rectangle slot
    let other = buffers.rectangles_buffer.get(&[SDFRawRectangle { radii: (4, 4, 4, 4) }]);
    assert_eq!(other.err(), Some(ChunkedBufferError::Full { size: 1 }));
    buffers.release_style_handle(copy);
    buffers.styles_buffer.release(style_handle);
    assert!(buffers.rectangles_buffer.get(&[SDFRawRectangle { radii: (4, 4, 4, 4) }]).is_ok());
}
