# shell

A small interactive shell. The library in `src/` holds its logic, proved with
Verus: splitting a command line into pipeline stages and words, quotes and
escapes, redirections and background jobs, `$NAME` expansion, the builtins'
decisions, pipeline plans, job ids and the job table, completion scripts,
and the line editor with tab completion. `app/main.rs` drives the terminal,
starts processes, opens files and reads the environment.

Modules: `text` (characters, UTF-8 widths, decimal numbers, trimming),
`order` (string order, sorting without duplicates), `strmap` (string maps),
`parser`, `state`, `executor`, `editor`, `utils`.
