# hsharp_runtime

The runtime behind H# programs compiled to `wasm32`: C-string handling,
arrays, structs, closures and arenas for the `hsh_*` entry points, and the
`hweb_*` bridge to the browser.

- `src/` is the library, written in Verus. It works on plain values: the
  bytes behind a C string, the values of an array, the books of an arena.
  - `cstr`: reading C-string bytes as text (leniently, as UTF-8) and
    writing text back as C-string bytes.
  - `cbytes`: byte-level string functions (length, search, slicing).
  - `text`: character-level string functions (trim, replace, split, ...).
  - `number`: decimal and hexadecimal parsing and writing.
  - `arena`: bump allocation over an arena and the stack of current arenas.
  - `array`, `sort`: growable arrays of 64-bit values and the stable string
    sort.
  - `record`: structs and closures.
  - `bridge`: the browser bridge's truth values, random hex text and UUIDs.
- `app/` is the C ABI: the exported `hsh_*`/`hweb_*` functions over raw
  memory, the JavaScript imports, floating point and closure calls.
- `tests/` runs the library on concrete values.
