# Librarian

A file manager for Windows. Everything it decides is in a library that is verified with Verus;
a thin program around it draws the window and talks to the system.

## Layout

- `src/` — the library. `librarian.rs` holds the state of the window, `message.rs` what can
  happen to it and what it can ask for, `update.rs` the step from one state to the next. The
  state as plain values, and every step on it, is specified in `desk.rs`; `promises.rs` proves
  what holds of all steps. `screen.rs` says what the window shows. The other modules are the
  parts: paths, sorting, history, selection, tree, caches, search, configuration, pixels, text.
- `app/` — the program: the `iced` window, the Windows shell, ripgrep, and the file system.
- `tests/` — tests of the library on concrete values.

## Conventions

- Lengths on the screen are whole numbers of 1/256 pixel.
- Times are ticks of 100 nanoseconds since 1970, and click times are nanoseconds.
- Column widths are the bits of an `f32`; the library carries, compares and rounds them, and
  reads whole ones. The program reads any other number.
- Paths are Unicode text, read as Windows reads them.
- Images are numbers; the program keeps what they stand for.
