# ankimarkable

A review client for Anki collections on the reMarkable Paper Pro, with a pen
whiteboard over the card.

- `src/` is the library. Its functions are specified and proved with Verus: the
  session and its touch targets, the whiteboard, gestures, pen events, the panel
  server's messages, the HTML around cards, formulas, the deck list, statistics and
  the decisions of a sync.
- `app/` is the program: the panel's socket and framebuffer, the pen's device, HTML
  rendering, the collection, and the helper that renders formulas.
- `tests/` runs the library on concrete values.

Zoom is counted in thousandths, scroll offsets and content heights in hundredths of
a pixel, and finger distances as squares, so that the library needs no floating
point.

## Settings

| Variable | Default | Meaning |
|---|---|---|
| `ANKIMARKABLE_COL` | `/home/root/.ankimarkable/collection.anki2` | collection |
| `ANKIMARKABLE_DECK` | `uni` | initial deck scope |
| `AM_MATHPNG` | `/home/root/.ankimarkable/bin/mathpng` | formula helper |
| `AM_MATHPNG_RES` | `/home/root/.ankimarkable/microtex-res` | the helper's fonts |
| `AM_MATH_CACHE` | `/home/root/.ankimarkable/math-cache` | the helper's images |
