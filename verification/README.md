# padloper

A minimalist sqlite-backed shell-history recorder and searcher, with its logic verified in Verus.

- One row per distinct command. Running a command again refreshes its row.
- `padloper init bash|zsh|fish` prints the snippet that hooks recording, ctrl+r, and the up arrow
  into a shell.
- `padloper import` merges history from Atuin, then `$HISTFILE`, then the default history file of
  `$SHELL`, and is safe to run more than once.
- `padloper list` prints the newest commands, `padloper search` opens the picker.

## Layout

- `src/` is the library. Its functions carry contracts that Verus proves, from what is stated next
  to the few calls into other crates, the clock, and the standard library. Start with
  `src/table.rs` for what history means, `src/search.rs` for the picker, and `src/import.rs` for
  what an import does.
- `app/` is the program: arguments, the database file, other shells' files, and the terminal.
- `tests/` runs the library.

Contracts are stated over mathematical models: texts are sequences of characters, the history table
is the sequence of its rows in order of arrival, the picker is a `Search`, and a frame is a sequence
of drawing steps. Public proof functions state what holds of several operations together, such as
that importing the same history twice is the same as importing it once.
