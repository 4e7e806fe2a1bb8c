# ename

The decision-making core of a game engine's content and tooling layers, written in Verus with
its contracts proved: addressing assets by alias, resolving content packages into a load order,
folding them into one alias index, a bounded ring of log events, and the small state machines
an editor and a coding agent's tool server run on.

## Layout

- `src/alias` -- aliases and the index they resolve through; folder rules (`_alias_rules.toml`),
  `.alias` sidecars, and the walk that discovers assets under a tree.
- `src/package` -- package manifests, requirements, `after`/`before` constraints, the resolver
  that puts packages in load order (and reports loops), the fold into the index with contested
  aliases explained, and the reader-facing listing rules.
- `src/asset_content` -- where the two meet: the package scan as a whole, and manifest asset
  sections applied to an index.
- `src/content`, `src/game` -- the loader's and the game's lifecycle states.
- `src/engine` -- the log ring with its interned targets, and time control (pause, resume, step).
- `src/editor` -- the console's row text and selection, gizmo shortcuts, camera keys, viewport.
- `src/remote`, `src/mcp` -- what the agent-facing server decides: log queries, entity
  listings, run-state requests, run ids, entity selectors, refused writes, schema selection.
- `src/text.rs` -- character-level helpers shared by the above.
- `app/` -- the file system, TOML decoding, the shared log buffer and the process's run id.
- `tests/` -- scenarios, over hand-built values and an in-memory file tree.
