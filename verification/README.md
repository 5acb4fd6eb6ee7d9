# razbor

Loading, naming and typing of binary format descriptions written as
m-expressions, with its logic verified by Verus.

A description is a tree of modules, one per `.mexpr` file, tied together by
`import[...]`. The library

- parses m-expression text (`grammar`) and reads it as expressions (`expr`);
- decides, step by step, which files to load for the imports of a module tree,
  while the caller does the reading (`expr::ExprLoader`, with `files` for paths);
- turns the modules into a table of paths (`path::ExprConverter`) and resolves
  the names used in it (`path::NameResolver`), with the conditions a caller
  tests first in `guards`;
- reads the rows of a table as types and writes them as Makam terms (`types`);
- cuts out the source lines around an error for a report (`report`).

`order` and `sort` hold the orders on paths and the stable sort by path;
`properties` states what reading, converting and resolving give as a whole.

Layout: `src/` is the verified library, `tests/` its tests, and `app/` the
program that reads files from disk and prints the reports with
`annotate-snippets`.
