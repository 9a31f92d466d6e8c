# Eternal Game

A puzzle game about drawing surfaces and building charge. The player paints
solid cells on a 160×120 board; a ball walks clockwise around the solid it is
stuck to, gaining a unit of charge for every cell it moves down and spending
one for every cell up (a level move takes the sign of the vertical move before
it). A level is solved when the ball returns to a `(cell, anchor)` state it
has visited before with at least the charge it had then: a loop that can run
forever.

## Layout

- `src/` — the game's rules, verified with Verus:
  - `grid.rs` the board, painting (with locked level solids), lines,
    bounding boxes, centring;
  - `components.rs` the 8-connected solid masses;
  - `ball.rs` the ball's step, charge, loop closure, laps and victory;
    `ball_laws.rs` what every step keeps;
  - `text.rs`, `config.rs` the plain-text level format, its reader and
    writer, the board picture; `config_laws.rs` proves that a written board
    reads back unchanged;
  - `levels.rs` the level list, tutorial detection, saved progress;
  - `game.rs` the game state: pen and run modes, loading, stepping;
  - `menu.rs`, `tutorial.rs`, `paint.rs`, `explosion.rs`, `rain.rs` the
    title menu, the tutorial checklist, the pen, the victory bursts and the
    rain's random numbers.
- `app/` — the Bevy program around it: window, input, sprites, particles,
  files, and `--replay [file] [steps]`, which prints a saved configuration's
  board and the ball's path step by step.
- `tests/` — the library's tests.

To open a window the app needs Bevy's `bevy_winit` feature and a windowing
backend (`x11` or `wayland`).
