# marigold

The CPU-side logic of the marigold path tracer, written in Verus and proved
against its contracts.

- `src/` is the verified library:
  - `bvh`, `scene_bvh`, `tree`: construction of the bounding volume
    hierarchies of meshes and of the scene, driven as a state machine by the
    caller that evaluates split costs; every object ends up in exactly one
    leaf and a hierarchy of `n` leaves has `2n - 1` nodes.
  - `font`: reading the debug font's hexadecimal glyph rows and laying out
    text lines for the GPU.
  - `input`, `time`, `profile`, `debug_profiler`: button state, the frame
    clock, rolling frame times and pass-time averages, timestamp-query slots.
  - `geometry`, `geometry_u16`, `gpu_vec`, `scene`, `post`, `util`, `vulkan`:
    scene buffers, GPU buffer sizing, texture ping-pong and small renderer
    decisions.
  - `duration`: the few `std::time` calls the library makes, with the
    contracts it relies on.
- `app/` holds what is floating point or touches the outside world: the
  split-cost search of the hierarchies, bounding boxes, asset paths, the font
  file and logging.
- `tests/` exercises the library on concrete values.
