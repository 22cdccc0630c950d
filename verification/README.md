# rsh

A small Unix-style shell. The library under `src/` holds the shell's logic,
verified with Verus; `app/` holds the interactive program around it (prompt,
processes, files, terminal output).

## Library modules

- `text`: characters of a string, Unicode white space, trimming.
- `parser`: splitting a command line into words (quotes, backslash escapes).
- `pipeline`: splitting a line at its unquoted pipes into stages.
- `aliases`: the alias table.
- `builtins`: shell state, the builtin command table, and the decisions of
  the builtins (`cd`, `echo`, `alias`, `list` ordering, `exit`).
- `executor`: alias expansion, pipeline preparation, command dispatch.
- `shell`: what the shell does with one line of input.

Each public function states its result in its contract; the `law_*` proof
functions state properties that relate several calls (for example, that
words written with quotes or escapes split back into the same words, or
that expanding an expanded command changes nothing).
