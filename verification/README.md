# rough-wasm

The stroke-geometry core of a RoughJS-style sketch generator, compiled to
WebAssembly. The library in `src/` is verified with Verus; `app/` holds the
WebAssembly entry points and the floating-point geometry.

## Layout

- `src/random.rs` — the seeded Park-Miller generator (wrapping 32-bit multiply
  by 48271) whose draws drive every random offset; laws on zero and non-zero seeds.
- `src/path/preprocess.rs` — path-data preprocessing (line feeds to spaces, one
  whitespace byte dropped after each `-`).
- `src/path/lexer.rs` — the SVG number grammar, command parameter counts, and
  the tokenizer; number tokens are spans of the source text.
- `src/path/parser.rs` — the segment parser, with the exact behaviour on data
  that does not start with a moveto and a characterisation of the inputs on
  which parsing never ends (a number right after a closepath).
- `src/shapes.rs` — the edges that a linear path or closed polygon draws.
- `src/ops.rs` — the op tags and the stride of the flat op buffer.
- `app/lib.rs` — `#[wasm_bindgen]` exports and the floating-point work:
  offsets, sketchy lines, ellipses, curves, absolute/normalized path segments,
  arcs, and reading number texts as `f64`.
- `tests/` — tests of the library on concrete values.
