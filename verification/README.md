# astdiff

Structural analysis, lineage and comparison of JavaScript sources, as a Verus
library. Every function of the library carries a contract over mathematical
models, and Verus proves that its code meets it.

## Layout

- `src/syntax.rs`, `src/parser.rs`: syntax trees as rows in pre-order, and the
  one place where a parser is called.
- `src/scope/`: scopes, bindings and lexical references.
- `src/analysis/`: language-neutral facts of one source, their validation, and
  their columns on disk.
- `src/lineage/`: matching of the symbols of two sources, by shape, context and
  source map origin.
- `src/naming/`, `src/render.rs`: documents of semantic names, their review and
  propagation, and sources recreated with approved names.
- `src/sourcemap/`: source maps, lookups, composition, and sidecar columns.
- `src/diff/`: declarations, their fingerprints and matches, and reports on how
  two sources differ.
- `src/dump/`: comparisons that are kept on disk.
- `src/canonicalizer.rs`, `src/pretty.rs`: canonical names and layout.
- `src/envelope.rs`, `src/json.rs`: the integrity-protected container of files,
  and compact JSON.
- `src/cli.rs`, `src/commands/`: what commands decide between reading their
  inputs and writing their outputs.
- `tests/`: the behaviour of the library on concrete sources.
- `app/`: the command line program. It reads and writes files, prints, and
  computes the similarity scores, which are floating-point numbers.

## Reading the contracts

Most types have a model, which is their view. A function that can refuse its
input names the refusal in a spec function that ends in `_fault`, and its
contract says that it fails exactly where there is a fault, with that fault.
Properties that relate several functions are public proof functions whose names
begin with `law_`.

What the library takes on trust is marked `external_body` or
`assume_specification`: the parser, the SHA-256 digest, the line differ, the
compressor, the text of a date, the YAML text of a mapping, and a few functions
of the standard library.
