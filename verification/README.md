# ll1_parser

An LL(1) parser generator and driver, verified with Verus.

From a grammar given as four line-based files (terminals, their symbolic
spellings, non-terminals, and rules written `A: x y | z;`), the library
numbers the symbols, removes immediate left recursion, finds the nullable
symbols, computes FIRST and FOLLOW sets, builds the parse table, lexes a
C-like source text and parses it into a tree.

Layout:

- `src/` — the verified library. Each stage has an exact specification as a
  spec function (`construct_model`, `first_sets`, `follow_sets`,
  `table_spec`, `lex_spec`, `parse_spec`, `run_spec`), and the proof
  functions named `lemma_*` state and prove what the stages keep: no left
  recursion after construction, FIRST and FOLLOW sets of terminals only,
  table cells that name productions, parse trees whose nodes are expanded by
  productions and whose leaves are the tokens read.
- `app/` — the program: it reads the files, calls the library, writes the
  rules and the FIRST and FOLLOW sets under `iofiles/`, and prints the tree
  in colour.
- `tests/` — tests of the library on small grammars.

## Symbol tables

The symbol table (names to numbers, `SymbolTable`) and the keyword table
(spellings to terminal names, `KeywordTable`) are keyed by text. They are
kept as vectors of pairs, each with an exact `Map` view, rather than as
`HashMap<String, _>` or `HashSet<&str>`: Verus's specifications of the std
hash collections let a proof follow a map whose keys are integers, but say
nothing that a proof can use of one keyed by `String` or `&str`, so no
contract that speaks of a symbol's number could be proved over them. The
sets of symbol numbers (nullable symbols, terminals, FIRST and FOLLOW
sets) are integer-keyed and stay `HashSet<i32>`.

The tree printer in `app/` takes its lines from `tree_lines`, and the
terminals printed while the parse table is filled from
`printed_terminals`; only colour and output are left to it.
