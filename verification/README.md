# mmdr

The text, font and styling logic behind an SVG renderer for Mermaid-style
diagrams, written in Verus: the functions in `src/` are proved against their
contracts, apart from a few trusted wrappers (the `ttf-parser` calls in
`src/ttf.rs` and `String::push` in `src/text.rs`), whose contracts are
stated in their doc comments.

The SVG renderer itself (`render_svg` and the per-diagram drawing code) is
not here: it is built on the diagram layout, parser and configuration
modules, which are not part of this code base, and it works in
floating-point geometry. What it takes from this library (escaping, CSS,
font faces, label parsing, colours, wrapping) is here.

## Layout

- `src/text.rs` — string helpers (trimming, splitting, case mapping, joining)
  with their specifications over `Seq<char>`.
- `src/fonts.rs` — font family lists: generic fallbacks, cache keys, which
  faces to look up, and the cache of embeddable font bytes.
- `src/css.rs` — CSS identifiers and strings, font-family lists, Base64 and
  the `@font-face` rules of a stylesheet.
- `src/markup.rs` — XML escaping, links, tree-view icons, Venn set keys.
- `src/labels.rs` — label text: C4 technology lines, class annotations,
  entity-relationship attribute rows, kanban metadata, word wrapping.
- `src/colors.rs` — hex colour parsing, theme names, edge strokes, Gantt and
  Cynefin colours.
- `src/c4.rs` — C4 shape styling and the fonts a diagram embeds.
- `src/wrap.rs` — word wrapping by measured width: the caller measures each
  candidate line, the library decides where lines break.
- `src/order.rs` — string order and sorting.
- `src/rng.rs` — the hand-drawn style: its xorshift generator, the seed of a
  shape, and the split of path data into numbers and commands.
- `src/ttf.rs` — glyph metrics read with `ttf-parser`.
- `app/` — the unverified rest: font discovery on disk, float text
  measurement, themes with their floating-point settings, and file output.
- `tests/` — tests of the library on concrete values.
