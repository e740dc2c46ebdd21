# rentt

Building blocks of an entity–component store, verified with Verus.

- `entity_fields`: entity identifiers (`Id12`, `Id24`, `Id48`, checked through
  `nonmax`) and versions (`Ver4`, `Ver8`, `Ver16`) that wrap from their maximum
  back to one.
- `entity`, `entity::entity`: entity handles packing an identifier and a
  version into one non-zero integer.
- `entity_map`: a sparse map from entities to values, split into pools of
  consecutive identifiers; `Pool` is a dense pool with swap removal.
- `containers`: a second, fixed-block entity map over `Subscript` indices.
- `bit_set`: a set of small integers in one machine word.
- `utils::hive`: a slot block that reuses the most recently freed slot.
- `component`: the storage of one component type, and the interface the
  world uses to manage storages of any type.
- `world`: entity allocation with identifier recycling, and the tree of
  component storages whose subtree signs let removing an entity visit only
  the storages that hold it.

`src/` is the verified library. `app/` holds the typed worlds (`World16`,
`World32`, `World64`), the process-wide component registry and queries, which
rely on run-time type recovery and iterators.
