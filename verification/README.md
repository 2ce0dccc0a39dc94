# sqlx_inline_fmt

Finds the SQL string literals of `sqlx::query*!` macro invocations in Rust
source files, hands each one to an external SQL formatter (on its standard
input, with `-` appended to the command) and rewrites the literals in place.

## Layout

- `src/` is the library, verified with Verus:
  - `capture`: picking the literal of every query macro invocation from the
    tree-sitter matches, and reading it (`litrs`) at character positions;
  - `normalize`: the text a literal hands to the formatter (its value without
    the literal's own layout);
  - `literal`: writing the formatter's output back as a regular or raw
    string literal;
  - `plan`: what each formatter answer means (rewrite, report, error);
  - `splice`: applying the rewrites to a file;
  - `paths`: which files are scanned, in which order;
  - `command`: the formatter command line;
  - `formatter`: the state of one run;
  - `text`, `utf8`, `order`: text, encoding and ordering helpers with their
    lemmas;
  - `roundtrip`: proofs that a literal the tool wrote reads back as the
    formatter output it was written for, so a second run with a formatter
    that keeps its own output leaves it as it is (single-line literals, and
    multi-line output in canonical shape);
  - `external`: the trusted calls into `litrs`, `shlex`, `tree-sitter` and
    `tree-sitter-rust`.
- `app/` is the command-line program: arguments, the file system, running the
  formatter process and printing.
- `tests/` runs the library on concrete inputs.
