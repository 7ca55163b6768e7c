# tinydb

A small storage engine: slotted pages, a heap of pages, a B+ tree index, row
encoding, a SQL lexer and parser for `INSERT` and `SELECT ... WHERE id = ..`,
an executor, and write-ahead-log transactions. The library in `src/` is
verified with Verus; `app/` holds the file I/O and the REPL.

| Module | What it holds |
|---|---|
| `page` | 8192-byte slotted page: slot entries grow from the front, tuples from the back; reading a page back from its bytes |
| `heap` | pages numbered from 0, first-fit insertion |
| `btree` | arena B+ tree from `i64` keys, nodes split above `order` keys, leaves linked left to right |
| `row` | row image: id, field count, length-prefixed UTF-8 fields |
| `table` | heap plus index; rebuilding the index from a heap |
| `query` | lexer and parser |
| `executor` | running a statement against a table |
| `wal` | log records and transactions |
| `error` | `DbError` |

Main proved properties: a tree, a table and a page give back what was
written to them; a row image decodes to its row; a committed transaction
leaves each id with the last row written under it; a table built by inserts
under distinct ids and read back from its pages has the same rows; the
leaves of a tree are linked in key order; a page after any run of inserts
and deletes holds what the run describes, and deleting gives no space back.
