# xob

A terminal editor of text boxes: blocks of text drawn as boxes of
box-drawing characters on a character canvas, joined by paths found with
A* search.

- `src/` is the library, verified with Verus:
  - `text.rs`: UTF-8 byte lengths, lines, words and greedy word wrapping;
  - `xob.rs`: `boxify`, the canvas (`Canvas`, `create_grid`, `place_block`,
    `place_border`, `place_point`), colour escapes and block edges;
  - `route.rs`: neighbours on the canvas, the A* search (through the
    `pathfinding` crate) and the drawing of paths;
  - `controls.rs`: Control-Backspace;
  - `editor.rs`: the editor state and what each key does to it;
  - `render.rs`: drawing the state on a canvas and the canvas for the terminal.
- `app/` is the terminal front end (raw mode, key events, the debug file),
  built on `crossterm`.
- `tests/` exercise the library on concrete values.
