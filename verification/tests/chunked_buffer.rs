use iso_ui::{ChunkedBuffer, ChunkedBufferError, SDFRawGlyph};

fn glyph(n: u32) -> SDFRawGlyph {
    SDFRawGlyph { start_idx: n, length: n + 1, _pad0: 0, _pad1: 0 }
}

fn place(r: &Result<iso_ui::ChunkHandle<SDFRawGlyph>, ChunkedBufferError>) -> (u32, u32) {
    match r {
        Ok(h) => (h.start_idx(), h.size()),
        Err(e) => panic!("unexpected error {:?}", e),
    }
}

#[test]
fn new_buffer_has_its_size() {
    let buffer: ChunkedBuffer<SDFRawGlyph> = ChunkedBuffer::new(10);
    assert_eq!(buffer.size(), 10);
    assert_eq!(buffer.max_size(), 10);
}

#[test]
fn first_chunk_starts_at_zero() {
    let mut buffer = ChunkedBuffer::new(10);
    let r = buffer.get(&[glyph(1), glyph(2), glyph(3)]);
    assert_eq!(place(&r), (0, 3));
}

#[test]
fn different_contents_get_consecutive_chunks() {
    let mut buffer = ChunkedBuffer::new(10);
    let a = buffer.get(&[glyph(1), glyph(2), glyph(3)]);
    let b = buffer.get(&[glyph(4), glyph(5)]);
    assert_eq!(place(&a), (0, 3));
    assert_eq!(place(&b), (3, 2));
    assert_ne!(a.unwrap().hash(), b.unwrap().hash());
}

#[test]
fn same_contents_get_the_same_chunk() {
    let mut buffer = ChunkedBuffer::new(10);
    let a = buffer.get(&[glyph(1), glyph(2)]);
    let b = buffer.get(&[glyph(1), glyph(2)]);
    assert_eq!(place(&a), (0, 2));
    assert_eq!(place(&b), (0, 2));
    assert_eq!(a.unwrap().hash(), b.unwrap().hash());
    // the default fill and one upload: the duplicate queued none
    assert_eq!(buffer.take_pending_writes().len(), 2);
}

#[test]
fn full_buffer_reports_the_size_asked_for() {
    let mut buffer = ChunkedBuffer::new(4);
    let r = buffer.get(&[glyph(1), glyph(2), glyph(3), glyph(4), glyph(5)]);
    assert_eq!(r.err(), Some(ChunkedBufferError::Full { size: 5 }));
    // only the default fill is queued
    assert_eq!(buffer.take_pending_writes().len(), 1);
}

#[test]
fn exact_fit_uses_up_the_range() {
    let mut buffer = ChunkedBuffer::new(3);
    let a = buffer.get(&[glyph(1), glyph(2), glyph(3)]);
    assert_eq!(place(&a), (0, 3));
    let b = buffer.get(&[glyph(9)]);
    assert_eq!(b.err(), Some(ChunkedBufferError::Full { size: 1 }));
}

#[test]
fn released_range_is_reused_first() {
    let mut buffer = ChunkedBuffer::new(10);
    let a = buffer.get(&[glyph(1), glyph(2), glyph(3)]).unwrap();
    let b = buffer.get(&[glyph(4), glyph(5)]).unwrap();
    assert_eq!((b.start_idx(), b.size()), (3, 2));
    buffer.release(a);
    let c = buffer.get(&[glyph(6), glyph(7), glyph(8)]).unwrap();
    assert_eq!((c.start_idx(), c.size()), (0, 3));
}

#[test]
fn chunk_with_other_handles_stays() {
    let mut buffer = ChunkedBuffer::new(10);
    let a = buffer.get(&[glyph(1), glyph(2)]).unwrap();
    let a2 = buffer.get(&[glyph(1), glyph(2)]).unwrap();
    buffer.release(a);
    // a2 still holds indices 0..2
    let b = buffer.get(&[glyph(3)]).unwrap();
    assert_eq!((b.start_idx(), b.size()), (2, 1));
    buffer.release(a2);
    let c = buffer.get(&[glyph(4), glyph(5)]).unwrap();
    assert_eq!((c.start_idx(), c.size()), (0, 2));
}

#[test]
fn cloned_handle_keeps_the_chunk() {
    let mut buffer = ChunkedBuffer::new(6);
    let a = buffer.get(&[glyph(1), glyph(2), glyph(3)]).unwrap();
    let a2 = buffer.clone_handle(&a);
    assert_eq!(a2.inner(), a.inner());
    buffer.release(a);
    let b = buffer.get(&[glyph(4), glyph(5), glyph(6), glyph(7)]);
    assert_eq!(b.err(), Some(ChunkedBufferError::Full { size: 4 }));
    buffer.release(a2);
    let c = buffer.get(&[glyph(4), glyph(5), glyph(6), glyph(7)]).unwrap();
    assert_eq!((c.start_idx(), c.size()), (0, 4));
}

#[test]
fn released_neighbours_fuse_back_into_one_range() {
    let mut buffer = ChunkedBuffer::new(9);
    let a = buffer.get(&[glyph(1), glyph(2), glyph(3)]).unwrap();
    let b = buffer.get(&[glyph(4), glyph(5), glyph(6)]).unwrap();
    let c = buffer.get(&[glyph(7), glyph(8), glyph(9)]).unwrap();
    buffer.release(a);
    buffer.release(c);
    buffer.release(b);
    let whole: Vec<SDFRawGlyph> = (0..9).map(glyph).collect();
    let d = buffer.get(&whole).unwrap();
    assert_eq!((d.start_idx(), d.size()), (0, 9));
}

#[test]
fn release_merges_with_the_range_before() {
    let mut buffer = ChunkedBuffer::new(6);
    let a = buffer.get(&[glyph(1), glyph(2)]).unwrap();
    let b = buffer.get(&[glyph(3), glyph(4)]).unwrap();
    let c = buffer.get(&[glyph(5), glyph(6)]).unwrap();
    buffer.release(a);
    buffer.release(b);
    // 0..4 is one free range again
    let d = buffer.get(&[glyph(7), glyph(8), glyph(9), glyph(10)]).unwrap();
    assert_eq!((d.start_idx(), d.size()), (0, 4));
    buffer.release(c);
}

#[test]
fn pending_writes_carry_place_and_data() {
    let mut buffer = ChunkedBuffer::new(10);
    let _a = buffer.get(&[glyph(1), glyph(2)]).unwrap();
    let _b = buffer.get(&[glyph(3)]).unwrap();
    let writes = buffer.take_pending_writes();
    assert_eq!(writes.len(), 3);
    assert_eq!(writes[1].start_idx, 0);
    assert_eq!(writes[1].data, vec![glyph(1), glyph(2)]);
    assert_eq!(writes[2].start_idx, 2);
    assert_eq!(writes[2].data, vec![glyph(3)]);
    assert!(buffer.take_pending_writes().is_empty());
}

#[test]
fn empty_data_gets_an_empty_chunk() {
    let mut buffer: ChunkedBuffer<SDFRawGlyph> = ChunkedBuffer::new(4);
    let a = buffer.get(&[]).unwrap();
    assert_eq!((a.start_idx(), a.size()), (0, 0));
    let b = buffer.get(&[glyph(1), glyph(2), glyph(3), glyph(4)]).unwrap();
    assert_eq!((b.start_idx(), b.size()), (0, 4));
}

#[test]
fn get_then_release_gives_the_space_back() {
    let mut buffer = ChunkedBuffer::new(5);
    let a = buffer.get(&[glyph(1), glyph(2), glyph(3), glyph(4), glyph(5)]).unwrap();
    buffer.release(a);
    let b = buffer.get(&[glyph(6), glyph(7), glyph(8), glyph(9), glyph(10)]).unwrap();
    assert_eq!((b.start_idx(), b.size()), (0, 5));
}

#[test]
fn new_buffer_is_filled_with_the_default_record() {
    let mut buffer: ChunkedBuffer<SDFRawGlyph> = ChunkedBuffer::new(5);
    let writes = buffer.take_pending_writes();
    assert_eq!(writes.len(), 1);
    assert_eq!(writes[0].start_idx, 0);
    assert_eq!(writes[0].data, vec![SDFRawGlyph::default(); 5]);
}
