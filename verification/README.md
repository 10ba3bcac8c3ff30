# toml_syntax

A parser for TOML that never gives up: it turns any text into a `rowan` green
tree that holds every byte of the text, and lists the syntax errors that it met
on the way. The parser is verified with Verus.

- `src/lexical.rs` cuts a text into tokens, `src/lexer.rs` hands them out.
- `src/parser.rs` is the parser; `src/model.rs` says what each of its functions
  does to the state of a parse, and its contracts are stated over that model.
- `src/tree.rs` is the boundary to `rowan`, the only code that is trusted.
- `src/grammar.rs` is the grammar of documents, and `src/derivation.rs` says
  which nodes its rules give.
- `src/laws.rs`, `src/acceptance.rs` and `src/under_root.rs` state what holds of
  every parse: nothing of the text is lost, the tree has one root, its leaves
  are the tokens of the text, errors lie in the text and have known messages,
  exactly the documents of the grammar have no errors, their trees are their
  derivations, the root holds entries and headers alone, an entry takes all of
  its line, and line breaks stand between entries.
- `app/lib.rs` wraps the results into the typed nodes of `rowan` and into errors
  with the traits of the standard library.

Two things about what is accepted are easily overlooked. An array or an inline
table that is still open where the text ends is no error. Two commas in a row
are an error in an array, and none in an inline table.
