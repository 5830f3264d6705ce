# imgpyr

Gaussian and Laplacian image pyramids (Burt & Adelson, 1983), with the
kernel `[1, 4, 6, 4, 1] / 16` and OpenCV's `pyrDown`/`pyrUp` conventions for
borders and phase.

The library is written in Verus. Everything that decides *which* samples a
pass reads and *where* its results go is verified: border resolution, the
tap layout of decimation and interpolation, the span of destinations that
need no border handling, the rolling window of filtered rows, the strips,
the pyramid bookkeeping. The arithmetic on samples is the caller's: each
pass hands a `blend` closure the taps that reach a destination, as
`(weight, sample)` pairs in tap order, together with the pass's gain, and
stores what it returns. Planes are generic over their sample type.

- `src/border.rs`: `Border` and `resolve`, with the laws of both modes.
- `src/kernel.rs`: the kernel's weights and the two tap layouts (`Taps`).
- `src/plane.rs`: `Plane<T>` and its view.
- `src/rows.rs`: taps of a destination, the interior span, filtering a row,
  and the window of filtered rows.
- `src/ops.rs`: `reduce`, `expand` and the strip-by-strip resampling behind
  them; determinism and constant-preservation of resampling.
- `src/pyramid.rs`: `GaussianPyramid`, `LaplacianPyramid`, and the proof that
  collapsing a Laplacian pyramid restores its source whenever `add` undoes
  `subtract` and the blend is deterministic.
- `src/exact.rs`: with an exact weighted-sum blend, the two separable passes
  equal the unfactored 5x5 kernel, and affine planes are reproduced away from
  the edges.
- `src/strips.rs`: rows per strip, sequentially or across a rayon pool, and
  the tiling of the rows into strips.
- `app/lib.rs`: the `f32` weighted mean and the single-precision entry points,
  and strips spread over a rayon pool.
