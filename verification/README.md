# json-sort

Sorts the keys of JSON objects (comments allowed) while keeping the text as
written: whitespace, comments, numbers, strings and array order stay, and the
trivia around each member keeps its position in the object.

Layout:

- `src/grammar.rs`: the accepted language and the sorted text, as spec functions over characters.
- `src/parser.rs`, `src/tree.rs`, `src/order.rs`: the parser, the tree and its rendering, the stable sort of members; each proved against the grammar.
- `src/reparse.rs`, `src/preserve.rs`, `src/laws.rs`: what holds of sorting as a whole (idempotence, key order, stability, every character kept).
- `src/decode.rs`: the one call into `serde_json`, which decodes keys with escapes.
- `src/inputs.rs`: how command-line arguments are read: glob patterns, standard input, inputs that match no file, files named twice.
- `src/run.rs`: the decisions of a run: check or fix, each file's status, whether the run fails.
- `app/`: the command-line tool (file, glob and directory I/O, standard input, parallel processing, the WebAssembly exports).
