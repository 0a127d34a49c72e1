# json_match

Matches JSON documents against sets of field patterns in one pass.

A pattern set lists fields: a path through the document (object keys,
fixed array indices, or "any element"), the type the value must have (or
an exact literal text), an optional regex predicate, whether to capture the
value, and whether an object or array must contain nothing but what the
set's fields cover. A set matches when all of its fields are satisfied.
Many sets compile into one `MatchMachine`; `match_string` walks the input
once, descending only where some field's path leads and validating
everything else without interpreting it.

The library under `src/` is written in Verus and verified:

- `lex`, `validate`, `unescape`, `number`: the JSON grammar, validation of
  skipped values with an explicit depth-limited stack, string decoding, and
  the exact test for number literals beyond the finite `f64` range; with
  the laws that validation with its explicit stack accepts exactly the
  recursive JSON grammar (`json_value`), that validating an escape agrees
  with decoding it, and that decoding undoes writing any text as JSON
  string content (each character as itself or as a `\u` escape).
- `patterns`, `trie`: the rules a pattern set must follow to compile, the
  numbering of its captures (proved gap-free within each set), and the
  trie its paths are compiled into (wildcard subtrees merged into fixed
  indices, so that each array element resolves to one node holding the
  fields of its index and of the wildcard).
- `scan`: what a match does, as spec functions over the input bytes; a
  model of where a value sits in a document (concrete paths of member keys
  and element indices); and the laws proved of a match: only JSON is
  accepted, and all JSON is when what it validates outside the pattern's
  paths nests within the depth limit, a satisfied field stays satisfied and
  keeps its captures, and a
  field is satisfied exactly when some value at a path the trie resolves to
  it meets all of its conditions.
- `machine`: the compiled machine, the state a match runs in, and the
  executable compile and match, each proved against its spec; and the same
  laws stated over the patterns themselves (what a match means, what the
  value slot and each named-group slot of a field capture, no capture slot
  shared by two fields).
- `predicate`, `bits`, `text`: the trusted boundary to the `regex` and
  `bitvec` crates and to a few `std` string operations.

`app/` holds what stays ordinary Rust: serde forms of the pattern types,
`std::error::Error` forms of the error types, and reading a captured number
as an `f64`.
