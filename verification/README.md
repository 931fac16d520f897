# libopendrive

An OpenDRIVE (`.xodr`) importer whose decisions are proved.

- `src/` is the verified library. It reads the XML document into a tree
  (through `roxmltree`), and decides everything about it that is not
  arithmetic on coordinates: lane and object types, which `<lane>`s a lane
  section has and in what order they lie outward from the reference line,
  travel directions and lane-change neighbours, `<validity>` ranges, which
  `<object>` an `<objectReference>` names, which corners a marking or a
  border runs through, and which entries are tunnels and bridges. It also
  holds the integer side of the ground-plane index (spans, buckets, rings),
  of the tessellator (fans, hole splicing) and lookup by identity. Every
  function carries a contract, and the laws that tie them together are
  proof functions beside them.
- `app/` is the importer around it: the floating-point geometry (reference
  lines, profiles, lanes, objects, meshes) and file I/O, calling the library
  for every decision.
- `tests/` exercise the library on concrete values.
