# svgy

Generate icons from one SVG: an optimized `.svg`, a `.png`, a Windows `.ico` and a macOS `.icns`.

The crate is a library verified with Verus, and a command line around it.

- `src/` is the library, verified by Verus. Its functions state their results exactly, except
  where a result is what `oxvg` writes: `oxvg` walks hash sets, so nothing fixes its text, and
  the contracts there state only what holds whatever it writes (`svg_optimize`). It covers:
  - the byte formats of the icon files (`packbits`, `bmp`, `palette`, `ico`, `icns`, `bytes`,
    `pixels`, `png`);
  - the naming and sizing rules of the command line (`cli`, `naming`);
  - the passes over an SVG document that need no floating point, built on the events that
    `quick-xml` reads (`xml`, `strip`, `retag`, `svg_text`, `svg_image`, `svg_namespace`, `svg_id`,
    `svg_gradient`, `svg_style`, `svg_optimize`, `svg_mix`, `svg_resize`, `affine`, `numeric`,
    `text`).

  Calls into `quick-xml`, `tiny-skia`, `oxipng` and `oxvg` go through small trusted functions,
  each with a doc comment that says what its contract claims of the outside code.
- `app/` is the command line: argument parsing with `clap`, reading and writing files, rendering
  with `resvg`, and the work that is done in floating point (the new values of the resize, the fit
  into a circle, the folding of a `gradientTransform`, the rounding of opacities, and the precision
  search). The resize, the fold and the rounding hand their new tags to `retag`, which reads and
  writes the document.
- `tests/` runs the library on concrete documents and images.
