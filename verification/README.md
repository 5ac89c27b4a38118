# iso_ui

A signed-distance-field UI library. The verified library in `src/` holds:

- `chunked` — `ChunkedBuffer`, a deduplicating arena of variable-length chunks
  in one fixed-size GPU buffer: a first-fit free list of index ranges, live
  chunks keyed by content hash with handle counts, merging of released ranges
  with their neighbours, and the queue of writes the GPU still has to receive.
  Every operation keeps the free ranges and the live chunks a partition of the
  buffer.
- `shader` — the GPU records (every `f32` held as its bit pattern), the 16-bit
  pointer packing of the element tree, the canonical bit pattern of a float
  (one pattern for all NaNs and for both zeros), and `SDFRawShape::new_gpu_type`, which
  stores an element's shape data and style in the chunked buffers.
- `data` — draw modes, shapes in record form, and the handles an uploaded
  element keeps.
- `fonts` — loading a font face from TTF bytes through `ttf-parser`.
- `nodes` — the `UINode` tree (IDs, style, children) and the layout enums.

`app/` holds what stays outside the proofs: the ECS plugin and render pass,
GPU buffer creation and uploads, floating-point layout, and fonts.
