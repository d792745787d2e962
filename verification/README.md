# todo_cli

A command-line and terminal task list whose tasks form a forest (each task
may name a parent task), kept in SQLite.

`src/` is the verified library (Verus):

- `model`: the task table as a sequence of tasks with distinct ids.
- `tree`, `search`: depth-first listings of the forest, with or without a
  search filter, and the laws that they are complete and show no task twice.
- `render`: the table listing, the tree listing and the Markdown export.
- `csv_io`, `markdown`: the CSV export records, the CSV and Markdown import
  plans (the `csv` and `pulldown-cmark` crates do the encoding and parsing).
- `ops`: subtree deletion and completion, and the walks up the ancestors.
- `edit`, `tui`: the line editor and the state machine of the terminal
  interface.
- `screen`: the texts the terminal interface draws.
- `deadline`: due tasks, reminder texts, pid-file parsing.
- `cli`: the commands and the file-format dispatch.

`app/` is the program: command-line parsing (clap), the database (rusqlite),
file I/O, the terminal (crossterm, ratatui) and the reminder daemon
(daemonize, notify-rust, chrono).
