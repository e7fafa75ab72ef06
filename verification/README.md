# npktool

Reads NPK archives of NetEase's NeoX engine: the archive header, the index
table in each of the four entry layouts, the unpacking of entry contents
(LZ4 or zlib), the file list that maps name hashes to file names, and the
names under which unpacked files are written.

- `src/` is the library, verified with Verus:
  - `wire.rs` — little-endian integers read from byte slices (byteorder);
  - `index.rs` — the entry layouts and content unpacking;
  - `codec.rs` — LZ4 and zlib decoding (compress), and which LZ4 blocks the
    decoder reads without a fault;
  - `inflate.rs` — which zlib streams the inflater reads without a fault;
  - `header.rs` — the header, version detection and the index table;
  - `filelist.rs` — file lists and path hashing (murmur3);
  - `lines.rs` — the lines of a file list's text;
  - `naming.rs` — output file names (tree_magic for content types);
  - `error.rs` — error types.
- `app/main.rs` is the command-line tool (`npktool x <archives> -d <dir> [-f <filelist>]`),
  which does the file I/O, progress display and logging.
- `tests/` exercises the library on concrete archives and records.
