# breeze

A modal text editor for the terminal, with several selections at once. The
editing core is a verified library; the terminal around it is ordinary Rust.

- `src/rope.rs`, `src/lines.rs`, `src/idx.rs`, `src/coord.rs`: texts, their
  lines, positions and coordinates
- `src/selection.rs`, `src/order.rs`, `src/edits.rs`, `src/buffer.rs`:
  selections, and what editing at all of them does
- `src/mode.rs`, `src/breeze.rs`, `src/ansi.rs`: keys, the editor instance and
  the screen it draws
- `src/laws.rs`, `src/places.rs`, `src/cursors.rs`, `src/session.rs`,
  `src/drawing.rs`: what holds of all this together
- `app/`: the program, which reads keys and writes screens

In normal mode `h`, `j`, `k`, `l` and the arrows move, `w` and `b` go by words,
`x` takes a line; the capital letters extend. `'` swaps the ends of a selection,
`y` yanks, `d` deletes, `c` changes, `p` and `P` paste, `i` starts to insert and
`q` quits. `Esc` leaves insert mode.
