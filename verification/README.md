# skribo

The verified core of a HarfBuzz-based text layout engine.

- `src/` is the library, verified with Verus:
  - `script`: script lookup in a sorted range table, the itemizer that
    splits text into script runs, and `itemize`, which collects all runs (common and inherited characters join the run
    around them);
  - `ranges`: byte ranges that tile a text, and moving a piece's ranges into
    the whole text;
  - `table`: sorted codepoint tables with binary search;
  - `unicode_funcs`: the Unicode functions a shaper asks for: combining class,
    composition and decomposition (Hangul by the Unicode algorithm), mirroring
    and script;
  - `shape`: glyph records from HarfBuzz's glyph infos and positions, in font
    units.
- `app/` is the unverified layer: HarfBuzz FFI (buffers, fonts, Unicode
  callbacks), font fallback and the floating-point layout of fragments and
  glyphs.

The Unicode data tables (scripts, decompositions, mirrors) are passed in by
the caller through `ScriptTable` and `CodepointMap`.
