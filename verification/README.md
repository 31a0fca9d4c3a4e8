# bevy_stage

Loading glTF levels with artist-authored metadata: tags read from node names,
from a discriminator property in a node's `extras`, and from reflected
component properties; several levels resident at once, placed against each
other by named anchors; level-of-detail groups; and a record of what changed
in a level so it is still changed when the player returns.

The library under `src/` holds the logic, verified with Verus:

- `text`, `assoc` — characters, trimming, ordering of keys, float literal
  grammar, decimal numbers, and small verified maps and sets of text.
- `decimal` — whether a decimal literal rounds to zero as an `f64`, decided
  exactly on its digits.
- `tag` — the value model (`value`), the `serde_json` boundary (`json`), the
  parsers for node names and `extras` (`parse`), the records baked into an
  asset (`component`), resolution against the registry (`registry`) and the
  resolution queue, unknown-name record and events (`resolve`).
- `loader` — what is baked onto each node as the asset loads.
- `stage` — the stage manager (`manager`) and reading anchors out of a
  level's node graph (`scan`).
- `view` — level-of-detail names and groups.
- `persist` — what is remembered about levels that are not in the world.
- `plugin` — the plugin's settings.

`app/` wires the library into Bevy: components and resources, the systems,
the glTF loader hook, and everything measured in floating point (placement
maths, distances, visibility ranges).
