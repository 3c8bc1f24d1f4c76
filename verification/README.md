# DeepSQL

An embedded SQL database: a paged file format, a B+Tree of records, a SQL
lexer and parser, a planner and optimizer, and a compiler from plans to
virtual-machine instructions. The library under `src/` is written in Verus;
each public function carries a contract over a mathematical model of its
data, and the laws that tie functions together are proof functions or
clauses of those contracts.

## Layout

- `src/storage/`: varints, records and their byte encoding, the database
  header, slotted pages, the pager (a cache over a file image, with
  transaction shadows), and the B+Tree (`btree/`: node layout, search,
  insert, delete, cursor, bulk load, workload analysis).
- `src/sql/`: tokens, the lexer, the AST, the grammar as spec functions, and
  the recursive-descent parser proved against it.
- `src/planner/`: logical and physical plans, the plan builder, the
  optimizer's rewrite rules, and the compiler to instructions (`src/vm/`).
- `src/catalog/`, `src/index/`, `src/execution/`: table and index schemas,
  index lookups, and the insert, update, delete, order-by and limit
  executors.
- `src/sql_engine.rs`: from SQL text to a compiled program or a catalog
  change.
- `src/locking.rs`, `src/cli/`: the decisions of the file lock and of the
  interactive shell, as functions from state and event to the next state
  and action.
- `app/`: the command-line program: argument handling, files, the line
  editor, the lock system call, table formatting and the floating-point
  policies.
- `tests/`: tests of the library through its public interface.
