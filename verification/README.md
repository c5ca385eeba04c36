# tsumugi

The decisions behind a Markdown editor's windows and its edit history, as a library verified with
Verus.

- `src/` is the library: functions with contracts, and laws about them, that Verus has proved.
  - `text`, `lines`, `order`, `string_map`, `stable_hash`: strings, lines, sorting, maps, hashing.
  - `delta`, `line_diff`: differences between two versions of a document.
  - `history`, `history_diff`, `history_file`: the entries of a history, the versions and changes
    that they hold, and what is dropped from a history file.
  - `store`, `store_laws`: what is recorded and what the index says, and what holds of the
    histories that come of it.
  - `paths`, `window`, `startup`, `pdf`: which files may be touched, the state of the windows, the
    start of the program, and printing.
- `tests/` runs the library.
- `app/` is the application around it: the disk, the command line, processes, and what the desktop
  framework is asked for.

What the library takes on trust is marked `#[verifier::external_body]` or `assume_specification`,
with a comment that says what is claimed of the function outside.
