# thumbchanger

Replace the embedded cover artwork of an MP4 file (`moov/udta/meta/ilst/covr`)
without re-encoding or moving the media data.

The library under `src/` is written in Verus: every function carries a
contract over a mathematical model of the bytes it reads and writes, and the
laws that tie the pieces together are proved.

- `mp4::be`, `mp4::box_header`, `mp4::finder` — big-endian fields, box
  headers (32-bit, `largesize`, `size == 0`), sibling scans, and the walks to
  the chunk offset tables and to the cover items.
- `mp4::artwork` — image sniffing and the serialized `covr` box.
- `mp4::rebuild` — the in-memory rewrite of `moov`: the new cover replaces the
  old ones, missing `udta/meta/ilst` are created, everything else is copied.
- `mp4::planner` — how a change of `moov` size is absorbed (same size, `moov`
  last, resized or inserted `free`, or shifted `mdat` with patched offsets),
  and the list of output segments.
- `mp4::verify` — the checks run on the written output: `mdat` pairing,
  the `moov` comparison, FNV-1a.
- `mp4::pieces`, `mp4::cover_law`, `mp4::tables_law`, `mp4::shift_law`,
  `mp4::frame_law`, `mp4::check_law` — the proofs: a rebuilt `moov` holds
  exactly the new cover, keeps every chunk offset table, and patching moves
  exactly the offsets past the old `moov`, so the planned `moov` passes the
  comparison run on the output. The cover laws are stated for a `moov` in
  which no child in the `size == 0` form stands where a box gets appended
  after it, no `udta`/`meta`/`ilst` past the first of its type at a level
  holds a cover (and every such `meta` has room for its version-field
  sniff), a `meta` whose `ilst` comes first does not get a rebuilt `ilst`
  whose size field reads as `hdlr`.
- `wire` — the byte formats exchanged with a shell that owns the file IO
  (the browser build).

`app/` is the command-line program (argument handling, file IO, reporting)
and the WebAssembly exports, both thin shells over the library.
