# colr_paint

A verified painter of color glyphs: it draws what an OpenType `COLR` version 1 paint graph asks
for into a buffer of premultiplied pixels, and hands out a picture in straight sRGB alpha.

## Layout

- `src/` is the library. Everything in it is verified with Verus, but for the six functions at
  the head of `src/font.rs` that ask skrifa what a font holds: their results are given names, and
  nothing else is taken for granted of them.
  - `binary32.rs`, `arith.rs`, `consts.rs`: IEEE 754 single precision arithmetic on integers,
    rounded to nearest, ties to even. `rounding.rs`, `order.rs`, `accuracy.rs`, `bounds.rs` and
    `reals.rs` hold what is proved of it, the last against exact real numbers.
  - `color.rs`, `affine.rs`, `gradient.rs`, `blend.rs`, `composite.rs`, `path.rs`: the parts that
    painting is made of.
  - `canvas.rs` is the state of a painter as mathematics, with what each step does to it;
    `painter.rs` is the painter, proved to do that.
  - `frame.rs`, `font.rs`: the canvas of a glyph, its palette, and the beginning and the end of
    painting it.
  - `laws/`: what holds of the library as a whole.
- `app/` is the ordinary Rust around it: skrifa walks the paint graph and draws outlines, zeno
  rasterizes them, and both are handed to the library.
- `tests/` runs the library on concrete values, against the floating-point unit, and on a small
  font that is put together in the test.

## What is proved

Every function states exactly what it computes. Beyond that:

- the arithmetic is correctly rounded, keeps order, and is exact where it should be;
- the pixels of a canvas stay premultiplied through every fill, layer and composite mode;
- compositing colors never leaves the numbers between zero and one;
- a mode that keeps one side gives back every pixel of that side exactly;
- transforms, clips and layers nest, fills stay within the clip, and a layer that nothing is
  painted on leaves no trace;
- color lines are sorted and stable, end in their colors exactly, and take the upper of the
  stops that share an offset;
- a parameter within one is kept by every mode of extension, and repeating and reflecting have
  their periods;
- a sweep whose angles are a turn further fills a canvas from the same ramp, and away from its
  seam at parameters within a stated bound;
- a point lies on the circle at the parameter that a radial gradient finds for it, within a
  stated bound;
- opaque colors blend to the blend of their channels, and where one side is missing the other
  shows, but for rounding;
- a color moved to a luminosity has it and lies in range, so that the blends by hue, saturation,
  color and luminosity keep the light of one side, within a stated bound;
- the inverse of a transform undoes it, within a stated bound, wherever nothing leaves the range
  of numbers;
- a glyph none of whose paints asks for the color of the text comes out the same for every one;
- the canvas of a glyph holds its box with a pixel to spare.

The arc tangent of sweep gradients comes from the caller: it is the one function whose result
differs from platform to platform.
