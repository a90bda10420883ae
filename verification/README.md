# toybox

The core of a small game engine toolkit: resource scopes, borrow tracking, the audio node
graph and how it is scheduled, mesh building, shader import resolution, raw input tracking
and layered config. The logic lives in `src/` and is verified with Verus; `app/` holds what
talks to the machine (OpenGL, SDL audio and input, files, threads) and the signal processing,
which works on floating point.

## Layout

- `src/utility` — resource scope ids and tokens, borrow state, shared/exclusive lock counts.
- `src/audio` — the connectivity of the node graph (`connectivity`), which nodes are
  finished (`node_graph`), the execution plan with its workgroups and buffer reuse
  (`execution_graph`), the intermediate and scratch buffer caches, the producer's pacing, pitch classes, and the plain parts of
  the nodes.
- `src/gfx` — buffers, vertex layouts and VAO setup, meshes and fan indices, the draw
  command recorder, resource scopes with the texture and framebuffer tables they
  release from, the reading of GL debug messages, and the shader manager with `#import` resolution.
- `src/input` — raw button and mouse state, context groups, which contexts are active and
  in what order of priority, and the frame-to-frame states
  of button actions, resolved through the active contexts' bindings.
- `src/cfg` — dotted keys, command line arguments, nested config tables and their layers.
- `src/text.rs` — the character-level helpers the parsers share.
- `tests/` — tests of the library on concrete values.
- `app/` — the engine around the library: GL calls, SDL, the audio thread, DSP, reading and writing the config file.

Outside crates the library calls: `petgraph` (the graph the audio nodes live in), `slotmap`
(the texture and framebuffer tables) and `toml`
(reading and writing config tables), through trusted wrappers whose contracts state what
the crates' source shows.
