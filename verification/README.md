# loomovie

Merges fragmented MP4 streams (an init segment and chunk files per stream)
into a progressive "hybrid" MP4 whose `moov` indexes the samples where they
sit inside the embedded chunk files. Two outputs are built:

- `plan`: a recipe (`recipe.pb`) of inline data and references to the source
  files, describing a file that is both an MP4 and a ZIP archive (chunk files
  and init segments stored, HLS playlists deflated, directory at the end);
- `bin`: the bytes of any range of the file a recipe describes, each chunk
  checked against its size and CRC-32 before use.

The library also builds the hybrid MP4 directly (an init file ending with a
`sidx` that indexes the data file, a data file, and the list of where each
source went) and checks such a list against the
ZIP directory of a file.

## Layout

- `src/` — the library, verified with Verus: box parsing and writing
  (`mp4_box`), fragment and init segment parsing, sample tables, the moov,
  the layout of the embedded files, ZIP records, HLS master playlists, the
  recipe, byte-range reads, and the ZIP directory reader.
- `app/` — the command line: file and standard-output I/O, JSON and protocol
  buffer encoding, and the floating-point HLS figures (peak bandwidth, media
  playlists).
- `tests/` — tests of the library on concrete values, including whole
  synthetic streams run through planning, reading and generating.

CRC-32, SHA-256 and DEFLATE are computed by `crc32fast`, `sha2` and `flate2`;
the library states what it relies on from each in `src/digest.rs`.
