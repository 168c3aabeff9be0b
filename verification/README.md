# webrender_surface

Surfaces of a renderer, and the graph of render tasks that draws them.

A frame is drawn by tasks that depend on each other. Content that cannot be drawn
straight to the screen, such as a tile of a picture cache, a group with an
opacity or a filter, is drawn to a surface first. `SurfaceBuilder` keeps the
stack of the surfaces that are being built. It tells which command buffers a
primitive is drawn from, and sets up the tasks and their dependencies when a
surface is finished.

The most involved of these is a backdrop filter. It reads back what has been
drawn below it, so it splits the surface below: one task draws what comes before
the filter, another one what comes after, to the same place.

- `src/` is the library. Its functions are verified with Verus against contracts
  that say what they return and change. What is said of the hasher of
  `rustc-hash`, in `fx_hash`, is trusted.
  - `surface`, `surface_info`: the stack of surfaces, and what is known of each.
  - `splice`, `merge`, `finish`, `resolve`, `filter_chain`: what finishing a
    surface does to the tasks.
  - `routing`, `command_buffer`, `tile`: tiles, and the buffers that commands go
    to.
  - `backdrop`, `fx_hash`: what a filter reads of the slices behind it.
  - `render_task_graph`, `spatial`, `geometry`, `scalar`: the data.
  - `laws`, `merge_laws`, `waiting_laws`, `dependency_laws`, `deferral`, `growth`:
    what holds over more than one step.
- `app/` computes with single-precision numbers what the library is told: mapped,
  scaled and rounded rectangles. The library holds such numbers by their bits; it
  compares and selects, but does not compute with them.
- `tests/` runs the library on concrete frames.
