# tungsten_core

The core of the Tungsten 2D engine as a Verus library: the data structures,
rules and algorithms of the engine, each with a contract that Verus proves.

## Layout

- `src/` — the verified library.
  - `ecs/` — generational entity handles, archetypal component storage, the
    world with resources and queries, deferred command buffers and the
    two-window event queues.
  - `config.rs`, `display.rs` — configuration sections with their defaults,
    environment overrides and validation; how the `display` section overrides
    the legacy window/render fields, and which overrides deserve a warning.
  - `input/` — key, mouse and scroll state per frame, action bindings, their
    text names, and the in-place patching of the `actions` object of a
    bindings file.
  - `assets/` — registries (animations, tilemaps, shaders, materials,
    sprites, fonts, sounds, particle configs), the shelf atlas packer, manifest
    merging, Tiled map conversion, and the decisions of the audio decoding
    loop.
  - `physics/` — body and pair keys, union-find islands, island sleep state
    and the broadphase's cell grid.
  - `post.rs` — post-processing modes, pass kinds and the reorderable stack.
  - `rng.rs`, `text.rs` — the deterministic generators and decimal text.
  - `laws.rs` — properties that relate several operations.
- `tests/` — tests of the library through its public interface.
- `app/` — what stays outside the proofs: file and environment I/O, serde
  shapes of the library's types, audio decoding with symphonia, and the
  floating-point parts (cameras, collision, the physics step with its soft
  contact solver and island sleeping, pointer motion, post-processing
  parameters, particle curves, lighting, debug drawing).
