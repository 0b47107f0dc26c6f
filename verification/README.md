# gate_render

The logic of a voxel renderer, written and proved in Verus.

Voxels live in chunks of 256 voxels per edge, each a tree of nodes with 64 cells. The library turns
them into the words that shaders read, keeps those words up to date under edits and uploads what
has changed, decides what is resident, schedules the passes of a frame, and walks rays
through the trees. Everything that is measured in floating point, and everything that talks to a
graphics card or a disk, stands around it in `app/`.

## Layout

- `src/` is the library.
  - `brickmap/` holds the trees (`tree`, `lookup`), their words (`wire`, `block`, `arena`, `batch`,
    `builder`, `volumes`, `view`, `laws`), uploads (`queue`, `extract`, `upload`, `dump`), residency (`residency`),
    rays (`raytrace`, `mov`), light per face (`face_light`, `face_cache`) and the tracing passes
    (`dda`).
  - `ddgi/` places light probes and schedules their passes, `gi` the illumination from the screen.
  - `pbr_texture/` packs material pictures, `requests` merges what rays ask for.
- `tests/` runs the compiled library.
- `app/` is the renderer around it: plugins, buffers, textures and distances along rays.

Contracts are stated over sequences, maps and integers. What relates several functions stands as a
public proof function next to them, or in `brickmap/laws`: that a view reads back the trees that
were built, that an edit uploads only its path, that marked pieces bring an old copy up to date, that
culling never skips a voxel.
