# playlist_tidy

Normalizes M3U, PLS and XSPF playlists into strict M3U, either rejecting
malformed input (strict mode) or repairing it and reporting each repair
(lenient mode). Messages name the line of the input, counting every line,
blank ones included. The library is written in Verus: every public function has a
contract over a mathematical model of its input and output, and Verus proves
the code against it.

## Layout

- `src/lib.rs`: the public entry points `format`, `format_pls`,
  `format_xspf` / `try_format_xspf` and `detect_input_format`, and the types
  they exchange.
- `src/text.rs`: character-level primitives (trimming, searching, line
  splitting, case folding, decimal rendering and parsing), each a spec
  function with an executable counterpart.
- `src/m3u.rs`, `src/pls.rs`, `src/xspf.rs` (with `src/xml.rs`): the readers
  of the three formats, each modelled as a run of steps over its lines or
  tracks.
- `src/detect.rs`: picking the input format from the file name or content.
- `src/paths.rs`: the local paths of a normalized playlist, and the lexical
  rewriting of relative paths when a playlist is written to another
  directory.
- `src/laws.rs`: properties of the library as a whole, proved once for all
  inputs (output always starts with `#EXTM3U`; strict output carries no
  warnings; the output of every formatter, in either mode, is a strict M3U
  playlist that strict normalization gives back unchanged wherever the
  titles and paths it writes are clean lines; lenient mode agrees with
  strict mode wherever strict mode succeeds; a repaired `#EXTINF` line
  parses to itself; blank lines change only the line numbers in messages,
  and line endings change nothing). The laws about rewritten paths stand in `src/paths.rs`.
- `src/batch.rs`: the decisions of a run over a directory of playlists
  (counting each file's outcome, whether to write, the exit status), with
  their laws.
- `app/main.rs`: the command-line front end (argument handling, file and
  directory I/O, `--check`, `--verify`, batch mode).
- `tests/`: tests of the library on concrete inputs.
