# ssa

Control-flow and data-flow analysis of Solidity contracts, working on the
legacy JSON AST that `solc --combined-json ast` prints.

The library (`src/`) is written in Verus; every function there carries a
contract. All are verified but for a few small wrappers around calls into std
and the `regex` and `json` crates (marked `#[verifier::external_body]`), whose
contracts are trusted: extending a string, the `Debug` form of a string, a
regular expression capture, and reading the compiler's JSON output (parsing
it, what one place of a JSON value holds, and its fields and elements). What a
JSON value holds is modelled as plain values (`JsonDoc`), and the reading of
each AST out of it is verified against that model.

- `ast`, `text`: the AST as plain values, and string helpers.
- `shared`: the walker over the AST, the dictionary of nodes by id, the
  contracts of a program, variables, assignments, and the data flow pieces.
- `cfg`: the blocks of a function (`graph`, `splitter`, `call_split`), the
  control flow graph (`flow`), and what every graph built keeps (`edges`,
  `paths`).
- `dfg`: the backward propagation of uses and kills that finds the data links
  (`flow`), and what every link found keeps (`laws`).
- `graph`, `analyzer`, `dot`: the graph handed to analyzers, the data flow and
  dot analyzers.
- `loader`: the compiler options and output, the choice of the compiler
  release from a contract's pragma, and the reading of the compiler's JSON into
  the AST of each source file.

`app/` is the command-line program: it downloads and runs the compiler, has
the library read its JSON into the AST, and prints the control flow graph of one
function with its execution paths.
