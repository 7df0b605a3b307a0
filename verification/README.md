# slite

A small SQLite-like database engine: a command line that takes `.insert` and
`.select` statements and meta commands (`_exit`, `_cl`, `_btree`,
`_constants`), and stores rows in fixed-size pages of a database file, as
cells of B-tree leaf nodes.

The library in `src/` is verified with Verus:

- `text`, `cmd`, `statements`: command lines split into words, meta commands
  and statements parsed, statements run at a cursor (`exec_statement`), with
  what a select reads stated over the page cache.
- `data`: the row and its on-page encoding; the table (a pager and its root).
- `pager`: the page cache over the database file's pages, modelled as a
  `PagerView`.
- `cursor`: positions in the table, leaf search, insert and leaf split.
- `trees`: the page layout, page accessors, and the laws of leaf inserts and
  splits.
- `codec`: little-endian integers and fixed-width text fields.

`app/` holds the program around it: the read-eval-print loop, the input
thread, signal handling, and reading and writing the database file. `tests/`
runs the library on concrete values.
