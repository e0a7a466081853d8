# Hokusai

A brush engine: pen events go in, dabs of paint come out on a canvas of tiles.
The library is written in Verus; what each function does is stated in its
contract and proved.

## Numbers

Brushes work in binary floating point. The library has its own: `single` and
`double` hold numbers as bit patterns and round every operation to the nearest
number, ties to even. Every NaN that an operation gives is the same one. The
exponential, the logarithm, the trigonometric functions and the square root
come from the caller, as two closures in `elementary::Elementary`; the
contracts speak of their answers.

## Layout

- `setting`, `input`, `mapping`, `values`, `brush`, `evaluator`: what a brush is
  and how its settings follow the pen.
- `state`, `dynamics`, `angles`, `offsets`, `smudge`, `dab`, `stroke`: from a pen
  event to the dabs that are due, and what the brush remembers; `dab_count`,
  `counting` and `pace`: how many dabs that makes.
- `surface`, `dab_surface`, `tile`, `tile_mem`: what a brush paints on.
- `geometry`, `mask`, `draw`, `blend`, `spectral`, `brushmodes`: how a dab lands
  on the pixels; `bounds` and `luminance`: what it keeps within bounds.
- `sampling`, `pigment`, `mixing`, `pickup`, `rand`, `rng`: colours picked up
  from the canvas, and the random numbers.
- `fix15`, `color`, `rounding`, `range`: arithmetic.
- `myb`, `text`: brush files, between parsed JSON and a brush.
- `render`, `report`, `canvas`, `pixmap`: scripted strokes, comparisons, a canvas
  for a drawing program, and images of it.
- `keeping`: what whole dabs and strokes leave as it was.

Laws that tie several functions together are public proof functions whose names
begin with `law_`. Everything that is believed without proof is in `pixmap`,
which writes into the pixmaps of `tiny_skia`.

`app/` holds what is not logic: reading and writing files, JSON and PNG, the
command line and the bindings for a browser.
