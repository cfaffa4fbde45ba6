# midi_bounce

A square bounces off a wall on every note of a song. This crate is the
verified core of the game, written in Verus:

- `src/midi.rs` reads note times out of a Standard MIDI File (through
  `midly`), merges the tracks into one timeline sorted by tick, and walks it
  with the tempo map. Times are exact integers (microseconds times ticks per
  beat); `src/timeline_laws.rs` proves that the timeline is the stable sort of
  all tracks' events, that the note times are ordered and free of
  duplicate ticks, and that each is the sum of the tick gaps before it at
  the tempo in force.
- `src/level.rs` plans a level by backtracking search, with the geometry
  handed in as closures; its termination is proved, and every outcome is
  the end of a run of search rounds: a level, or a refusal with every
  standing bounce already flipped.
- `src/mesh.rs` builds indexed triangle meshes, quadrilateral by
  quadrilateral.
- `src/control.rs` holds the decisions of the window loop.

`app/` is the game around the library: the window (`winit`), rendering
(`wgpu`), audio (`rodio`), file dialogs (`rfd`), and the floating-point
geometry of the level (`glam`).
