# game_engine_rs

A small game engine whose bookkeeping is verified with Verus.

- `src/` is the verified library: the scene that runs entity lifecycle hooks
  in ID order (`scene`, `entity`, `id_order`, with the cross-operation laws in
  `lifecycle`), mesh validation and the layout of the built-in shapes
  (`geometry`, `model`, `renderer`), the glyph atlas packer and vertex buffer
  growth of the text renderer with its glyph cache (`text`), the colors
  entities are drawn in (`color`), and the pointer stroke tracker behind
  swipe gestures (`gesture`). Mesh coordinates are single-precision numbers
  held by their bit patterns. Entity hooks are user code: the `Entity`
  trait describes what each hook may do by a spec function that an
  implementation can narrow, and the scene records every call it makes.
- `app/` is the engine around it: the window and event loop (winit), cameras
  (cgmath), floating point geometry, gesture classification, font metrics and
  rasterization (ab_glyph), model files (tobj), GPU layouts (wgpu), and a
  paddle-and-ball demo game.
- `tests/` exercises the library.

## Collections

The scene and the glyph cache keep their entries in `Vec`s rather than in a
`BTreeMap<String, _>` and a `HashMap<(u16, u8), _>`. vstd gives map lookups a
meaning only for key types it knows to compare and hash by value (the
integer types, `bool` and boxes of them); a `String` or a tuple key is not
among them, and asserting it is not an option in this crate. So the scene
holds its IDs in a sorted `Vec` (with the UTF-8 byte order proved to be the
order of `str`, so entities still run in string-ID order and each ID occurs
once), and the glyph cache holds its keys with their placements in a `Vec`
searched from the newest entry.
