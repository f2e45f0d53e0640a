# rzx

A library and command-line tool for `.rzx` archives: a header, a metadata
block that lists every entry (encrypted if the archive is), and the stored
data of each file (compressed with DEFLATE, LZMA or Zstandard, then
encrypted with AES-256-GCM if the archive is encrypted).

- `src/` is the library, verified with Verus.
  - `rzx_core/` holds the algorithms and file types, the header and
    metadata encodings (little-endian, fixed-width integers, length-prefixed
    strings), the per-file compression and encryption pipeline, CRC-32
    checks, and the component-wise path rules used for entry paths.
  - `formats/rzx.rs` holds the archive writer and reader and the
    create/extract/list/test/info operations on archive bytes;
    `formats/find_common_ancestor.rs` finds the deepest common directory of
    a list of paths.
  - `cli.rs` describes the commands.
- `app/` is the `rzx` program: command-line parsing, walking and reading the
  inputs, writing archives and extracted files, progress bars, and the
  floating-point statistics.
- `tests/` exercises the library on concrete values.
