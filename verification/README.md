# td

A minimalist terminal todo list with vim-style keys, a history swept by
hand, and projects with a free-form log, written as a library verified with
Verus and a thin program around it.

## Layout

- `src/` is the verified library:
  - `text.rs`: white space, trimming, lines and digits on characters;
  - `config.rs`: theme, sort order and sweep phrase, the config file's text,
    and where the files live;
  - `date.rs`: calendar dates, natural-language due dates and their labels;
  - `stamp.rs`: moments in time and their RFC 3339 text;
  - `model.rs`: todos, their one-line file format, and the store of list and
    history with filing, restoring, sweeping and sorting;
  - `project.rs`: projects and their file;
  - `key.rs`, `prompt.rs`, `editor.rs`: key presses, the prompt line and the
    small modal editor for a project's log;
  - `layout.rs`: truncation and word wrap;
  - `ui.rs`: what each key does on the main screen, what it asks, and what
    must be written afterwards, plus the text each part of the screen shows.
- `app/` is the program: arguments, files, the terminal, drawing, and the
  loops that feed keys to the library and carry out the effects it returns.
- `tests/` exercises the library on concrete values.

## Files

Todos live in `~/.local/share/td/todos.txt`, or under `$XDG_DATA_HOME`, one
per line (`TD_FILE` points elsewhere); projects in `projects.txt` next to
them; settings in `~/.config/td/config`, or under `$XDG_CONFIG_HOME`, as
`key=value` lines where `#` starts a comment.
