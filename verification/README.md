# ccs

A terminal browser for the session history of a coding agent: a picker over
every recorded session, a transcript viewer with folding, marks, search and
copy-to-clipboard, and live tailing of a session that is still being written.

## Layout

- `src/` — the verified library. Every function carries a contract that Verus
  proves; laws that relate several functions are public proof functions
  (their names start with `law_`).
  - `jsonl`, `json` — the event model of a session file and the JSON values
    the library looks into.
  - `transcript` — events folded into a transcript of messages.
  - `layout`, `markdown`, `style` — the line cache the viewer scrolls over.
  - `state`, `keymap`, `search`, `hits`, `render`, `yank`, `clipboard` — the
    viewer.
  - `picker`, `metadata`, `session` — choosing a session.
  - `tail`, `screen` — live tailing and the moves between screens.
  - `checkpoints` — marks and the marks file's contents.
  - `text`, `logging` — string helpers and the log format choice.
- `app/` — the program around the library: argument parsing, logging, file
  and terminal I/O, drawing with ratatui.
- `tests/` — tests of the library.

## Running

The program finds sessions under `$CCS_AGENT_HOME/projects` (one directory
per project, one `.jsonl` file per session) and keeps marks in
`$CCS_AGENT_HOME/scrollback/marks.json`.
