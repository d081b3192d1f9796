# matterless_view

The parts of the Matterless message window that decide things, with their
behaviour stated as contracts and proved with Verus.

- `src/` is the library. Each module holds one concern and the laws that
  concern keeps, as public proof functions:
  - `places`: where the reader has been, back and on again.
  - `rest`: how long the "New messages" divider stays once it can be seen.
  - `moving`: which frame of a moving picture is due, what is uploaded, and
    what is dropped when room runs out.
  - `pack`: the byte layout of the picture pack -- records, the directory at
    its tail, rebuilding a lost directory, and compaction.
  - `input`, `menu`, `menus`, `offer`, `picker`, `rail`, `profile`: what a
    frame's input does to the window's lists and cards, and which rows a menu
    offers.
  - `sidebar`: the rows of the list down the left, with what is waiting
    lifted to the top newest first; `rail_tiles` in `rail` counts the same
    rows per team.
  - `open`: which links are worth handing to the shell.
  - `session`, `text`: small decisions about a session, the measuring driver,
    and white space and words as the standard library has them.
- `tests/` runs the library on concrete values.
- `app/` is the rest of the program that needs the world: the pack's file,
  handing a link to the shell, and the driver asked for through the
  environment.
