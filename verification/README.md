# lol_engine

The discrete rules of a build-enumeration fight engine, verified with Verus.

- `src/combinations.rs`: every k-element combination of a list, in
  lexicographic order of positions, and the proof that this listing is the
  only one.
- `src/pool.rs`: the enumeration context built from an item pool: which item
  groups a build can violate, their dense numbering and caps, and the law
  that the other groups never matter.
- `src/enumerate.rs`: the work of one task (the item combinations of a block,
  or named builds), group-cap legality, budgets, boots partitions, and each
  build's place in the enumeration order.
- `src/fx.rs`: the damage-source label table and the merge of item effects.
- `src/prep.rs`: the passive flags, damage-amp and burn-cap decisions that
  set up a fight.
- `src/fight.rs`: the scheduler's event kinds, their packed tie-break ranks,
  and the pick of a kit's rotation.
- `app/`: the Python extension around the library (reading pools and tasks,
  the process-wide label table, and the floating-point ranking of fights).
