# oxdb_engine

Core of the oxdb storage engine, written in Verus.

- `src/oxdbin/` — oxdbin, the binary value format (`basebin`), its
  big-endian integer layouts (`bigendian`), the value type (`value`) and the
  proof that decoding an encoding gives the value back (`roundtrip`).
- `src/doc/` — slotted page packing (`sp`), the block size fallback
  (`prop`) and the block geometry of a document file (`io`).
- `src/config/` — default block size and page length.
- `app/` — the program: JSON conversion through serde_json, the file-backed
  `DocBlock`, and probing the file system for its block size.
