# ttfx

Terminal text effects: the text read from standard input is laid out on a canvas and
animated frame by frame (`ttfx --list` names the effects).

The crate is written in Verus.

- `src/` is the verified library: text layout and ANSI parsing (`terminal`), the canvas
  and frame composition (`canvas`), character visuals and scenes (`animation`), colors and
  gradients (`graphics`), easing names (`easing`), integer geometry (`geometry`),
  orderings and groupings (`sorting`), and, under `effects/`, the discrete parts of each
  effect: its random generators, palettes, groupings, orderings and per-frame state
  machines. Every public function carries a contract, and the public proof functions
  state the laws that hold across calls.
- `app/` is the command-line program: argument parsing, terminal size and output, and
  the frame loops of the effects, which move characters along floating-point paths with
  floating-point easing.
- `tests/` exercises the library on concrete values.
