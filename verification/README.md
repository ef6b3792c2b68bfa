# gitu

The logic of a terminal user interface for git, written in Rust and proved with
Verus: what its screens show, how the cursor and the viewport move over them, how
the output of diff renderers is read back, and which git commands are put.

- `src/` is the library. Every function in it is verified against its contract.
  - `text`, `style`, `spans`, `sgr`, `osc`, `ansi`: text, styled ranges of it, and
    escape sequences.
  - `diff`, `diff_renderer`, `diff_colorizer`, `delta_highlight`, `highlight`:
    patches, and what renderers and highlighters make of them.
  - `item`, `item_data`, `diff_items`, `log_items`, `rendered_log`, `pager`: the rows
    of the screens.
  - `frame` and `place`: what walking, folding and scrolling mean, and `reach`: which
    rows that has to measure. Nothing in them runs; `screen`, `screen_nav` and
    `screen_search` are measured against them.
  - `calling_process`, `render_command`, `rebase_todo`, `capped_input`, `cli`,
    `tide`: the commands that are run, and what is read of other programs.
  - `prompt`, `text_input`, `ui`: lines being typed, and how things are laid out.
  - `ops`: what the user can do.
- `app/` is ordinary Rust around it: processes, the repository, the terminal, files,
  and the session that holds the screens and waits for keys.
- `tests/` runs the library.

Calls into other crates go through small functions and declarations whose contracts
are taken on trust; each says above it what it claims of the outside function.
