# toolbox

Four small libraries, each verified with Verus:

- `timestack`: a stack whose earlier states stay readable. Every `Time`
  handed out keeps naming the items that were visible then; `warp` jumps back
  to an earlier time.
- `arena`: a heterogeneous bump arena. Values are stored as bytes from the end
  of a region downwards and addressed by 4-byte indices that stay valid when
  the region grows.
- `calculator` (with `text`): an `a + b` calculator and a reverse Polish
  notation calculator over `i32`.
- `mandelbrot`: the escape time of the Mandelbrot iteration in 8.24 fixed
  point arithmetic.

`src/` holds the verified library, `tests/` its tests, and `app/` the command
line programs (`calculator [simple|rpn]`, `mandelbrot <naive|optimized|integers>`)
that read input, print, and draw with floating point.
