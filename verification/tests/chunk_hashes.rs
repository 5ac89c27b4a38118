use iso_ui::{ChunkedBuffer, ChunkedBufferError, SDFRawRectangle};

fn rect(n: u32) -> SDFRawRectangle {
    SDFRawRectangle { radii: (n, n, n, n) }
}

#[test]
fn known_hash_hands_out_the_stored_chunk() {
    let mut buffer = ChunkedBuffer::new(8);
    let a = buffer.get_with_hash(42, &[rect(1), rect(2)]).unwrap();
    // same hash: the stored chunk comes back, whatever the data
    let b = buffer.get_with_hash(42, &[rect(9)]).unwrap();
    assert_eq!((a.start_idx(), a.size(), a.hash()), (0, 2, 42));
    assert_eq!((b.start_idx(), b.size(), b.hash()), (0, 2, 42));
    assert_eq!(buffer.take_pending_writes().len(), 2);
}

#[test]
fn new_hash_takes_the_first_range_that_fits() {
    let mut buffer = ChunkedBuffer::new(8);
    let a = buffer.get_with_hash(1, &[rect(1), rect(2)]).unwrap();
    let b = buffer.get_with_hash(2, &[rect(3), rect(4), rect(5)]).unwrap();
    let c = buffer.get_with_hash(3, &[rect(6)]).unwrap();
    assert_eq!((b.start_idx(), b.size()), (2, 3));
    buffer.release(a);
    // free: 0..2 and 6..8; three elements only fit nowhere, one fits at 0
    let d = buffer.get_with_hash(4, &[rect(7), rect(8), rect(9)]);
    assert_eq!(d.err(), Some(ChunkedBufferError::Full { size: 3 }));
    let e = buffer.get_with_hash(5, &[rect(10)]).unwrap();
    assert_eq!(e.start_idx(), 0);
    let f = buffer.get_with_hash(6, &[rect(11), rect(12)]).unwrap();
    assert_eq!(f.start_idx(), 6);
    buffer.release(c);
    buffer.release(e);
    buffer.release(f);
    buffer.release(b);
    let g = buffer.get_with_hash(7, &[rect(0); 8]).unwrap();
    assert_eq!((g.start_idx(), g.size()), (0, 8));
}

#[test]
fn releasing_a_shared_chunk_needs_every_handle() {
    let mut buffer = ChunkedBuffer::new(4);
    let a = buffer.get_with_hash(9, &[rect(1), rect(2), rect(3), rect(4)]).unwrap();
    let b = buffer.get_with_hash(9, &[rect(1), rect(2), rect(3), rect(4)]).unwrap();
    buffer.release(a);
    assert_eq!(buffer.get_with_hash(10, &[rect(5)]).err(), Some(ChunkedBufferError::Full { size: 1 }));
    buffer.release(b);
    assert_eq!(buffer.get_with_hash(10, &[rect(5)]).unwrap().start_idx(), 0);
}

#[test]
fn zero_sized_buffer_holds_only_empty_chunks() {
    let mut buffer: ChunkedBuffer<SDFRawRectangle> = ChunkedBuffer::new(0);
    assert_eq!(buffer.get_with_hash(1, &[rect(1)]).err(), Some(ChunkedBufferError::Full { size: 1 }));
    let a = buffer.get_with_hash(2, &[]).unwrap();
    assert_eq!((a.start_idx(), a.size()), (0, 0));
    buffer.release(a);
    let b = buffer.get_with_hash(3, &[]).unwrap();
    assert_eq!((b.start_idx(), b.size()), (0, 0));
}

#[test]
fn released_empty_chunk_leaves_room_for_full_requests() {
    let mut buffer = ChunkedBuffer::new(4);
    let empty = buffer.get_with_hash(1, &[]).unwrap();
    let a = buffer.get_with_hash(2, &[rect(1), rect(2)]).unwrap();
    assert_eq!((a.start_idx(), a.size()), (0, 2));
    buffer.release(empty);
    let b = buffer.get_with_hash(3, &[rect(3), rect(4)]).unwrap();
    assert_eq!((b.start_idx(), b.size()), (2, 2));
}
