# lunar_interface

The contract data structures and the topography engine of the LunarAST
ecosystem, written in Verus: every function of the library carries a contract
over a mathematical model of its data, and Verus proves the code against it.

## Layout

- `src/route.rs` — route segments and entries; the brace-style and colon-style
  paths, structural identities and aligned parameter names.
- `src/diff.rs` — comparing two versions of a route; indexing routes by their
  structural identity.
- `src/intent.rs` — parsing declared paths into segments and merging a declared
  intent overlay into the extracted facts.
- `src/schema.rs` — the map's types (projects, alignments, edges, anomalies) and
  their models.
- `src/names.rs` — the order of project names and sorting a listing by name.
- `src/align.rs` — matching one consumed route against the servers' exposed
  routes (the candidate server with the least name wins, so the result does not
  depend on how the projects are listed); alignment statuses and their
  aggregation.
- `src/map.rs` — building the whole map, over the projects sorted by name.
- `src/map_laws.rs` — properties of the map proved over the models, among
  them that the map does not depend on the order of the projects.
- `src/outside.rs`, `src/text.rs` — the declared outside type and text helpers.
- `app/` — the serde forms of the documents and of the map, and the map built
  from hash maps; not verified.
