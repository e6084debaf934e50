# vtt

The verified core of a small virtual tabletop: a map editor built from
signed-distance zones, with a WebSocket host and clients that relay
messages between players.

## Layout

- `src/` is the library, written in Verus. Its functions carry contracts
  that Verus proves; the few calls into `url` and `serde_json` go through
  trusted wrappers in `connection`, whose contracts state what those
  crates document.
  - `zone_ordering`: the numeric id of a zone from its order in each layer
    of the zone tree, and the nearest zone two ids share.
  - `zone_hierarchy`: the chain of parents of every zone, and which zones
    must be rebuilt when a brush changes.
  - `object_zones`, `active_zones`: how signed-distance objects are laid
    out by the spatial zones they reach.
  - `sdf_tree`: the flat, GPU-ready layout of an object's node tree and
    the headers that point each brush at its nodes.
  - `communication`, `connection`, `decimal`: the connection window's state
    machine, the addresses it yields, and one step of each network link,
    with messages framed as JSON by `serde_json`, and the in-game client's
    link step.
  - `map_zones`, `camera_controls`, `hello`: small pieces of the editor,
    the camera and the client library.
- `tests/` runs the library on concrete values.
- `app/` is the ordinary Rust around it: the server program, the
  WebSocket tasks, and the Bevy game (UI, camera and the floating-point
  geometry), which hands the library plain values. The GPU renderer's
  pipelines and buffers are not part of this crate.
