# gll_codegen

Generates GLL parsers in Rust from grammars, with Verus proofs of what it generates.

A grammar is a list of named rules, some places of which may be named fields. From it,
`generate::generate` writes source code that

- declares a type for each rule: a structure of its fields, or an enumeration of its cases,
- reads values of these types from a parse forest, one or all of them,
- prints them,
- and fills the forest by running pieces of code that are known by labels.

## Layout

- `src/` is the library. Each function states what it returns; the contracts speak of source code
  as a list of tokens, of rules as mathematical trees, and of the rules without a name as a table
  that only grows.
- `src/balance.rs`, `src/account.rs`, `src/mentions.rs`, `src/hereditary.rs`, `src/closure.rs`,
  `src/labels.rs`, `src/nodes.rs`, `src/declared.rs` and `src/paths.rs` prove what holds of the
  generated code as a whole: its steps can always be taken, each label that is declared has code
  exactly once, the code goes only to labels and speaks only of kinds of nodes that are declared,
  and the shape of a rule says, at the place that a path leads to, whether what is there may be
  missing.
- `src/maps.rs` holds what is believed of the maps and sets of `indexmap`, and `src/tokens.rs` what
  is believed of `proc_macro2`. The latter is used without its feature `proc-macro`, so that what it
  prints and splits does not depend on a compiler.
- `tests/` runs the library.
- `app/` generates parsers for the grammars of the `grammer` crate.
