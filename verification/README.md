# historypwd

Completion candidates for the command line: the paths that earlier commands named, newest first,
out of a log that holds, line by line, a stamp, a directory and the command that was given there.

- `src/` is the library. It is verified with Verus and does no input or output.
  `session` goes from the log to the candidates in steps: it says what it needs to know
  (`Action`), and goes on with the reply. `outcome` says what a run prints altogether.
- `app/` is the program: it answers the session from the file system and prints.
- `tests/` runs the library, the session against a file system in memory.

```
historypwd [-c|--color] kind [dir [leftover [display_prefix]]]
```

`kind` is `path` or `dir`. Candidates are under `dir`, and what follows `dir` in them begins with
`leftover`. `display_prefix` is how `dir` was typed: candidates are shown from `~` where it begins
there.

The environment sets `ZSH_PWD_HISTORY_FILE` (the log; else `.zsh_history_pwd` beside `HISTFILE`),
`FZF_HISTORY_COMPLETION_LINES` and `FZF_HISTORY_COMPLETION_MAX_CANDIDATES` (3000 each where they
are not set), and `LS_COLORS`.

Paths are those of Unix: sequences of bytes, with `/` between names.
