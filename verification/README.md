# rsql

A small SQL engine with an interactive shell. A line of input is lexed into
tokens, parsed into statements and run against an in-memory database.

- `src/` is the library, verified with Verus:
  - `text` — the character and string primitives the lexer uses (Unicode
    classification and upper-casing come from `std`; on ASCII they are stated
    in full, beyond ASCII their results are named);
  - `lexer` — source text to tokens with their locations;
  - `ast` and `parser` — tokens to `CREATE TABLE`, `SELECT` and `INSERT`
    statements;
  - `backend` — the database, which runs `CREATE TABLE`;
  - `error` and `repl` — running a whole line: lex, parse, execute.
- `app/` is the shell: it reads lines, runs them and prints the results.
- `tests/` holds the tests.

Each stage states what it computes as spec functions (`lex_from`,
`statements_from`, `create_table_in`, `run_source`), and the laws of the library
are proof functions next to them (`law_*`).
