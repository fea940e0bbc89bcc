# rust_shell

A small interactive shell whose command-line logic is verified with Verus.

- `src/` — the verified library:
  - `lexer.rs`: the lexer, a function on the bytes of a command buffer (words,
    operators, quoted strings, heredocs, groups), with the state that tells the
    prompt loop what is missing from an incomplete buffer;
  - `parser.rs`: the recursive-descent parser that builds programs, builtins,
    pipelines, `&&`/`||` chains and subshells, stated against a grammar over
    the token sequence;
  - `executor.rs`: the runner that decides which unit runs next from the exit
    codes of the units before it, and the plans for redirections;
  - `builtins.rs`, `prompt.rs`, `repl.rs`: `cd` and `history`, the prompts,
    and what the prompt loop does with a typed line;
  - `frontend.rs`: the OSC 133 shell-state machine a terminal front end
    follows, and the reading of the saved command history;
  - `fscheck.rs`: the record of asking the file system whether a name is a
    file, which ties each answer to the name asked about;
  - `text.rs`: string helpers stated over UTF-8 bytes.
- `app/` — the program around it: the prompt loop (rustyline), processes,
  pipes, files, and the JSON hand-over of trees to subshells (serde).
- `tests/` — tests of the library.
