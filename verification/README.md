# novafractal

Escape-time fractals: the renderers, the sharing of a frame between a device and
the CPU, the viewer's state and the benchmark's bookkeeping, with their behaviour
stated in contracts and proved by Verus.

## Layout

- `src/` is the verified library.
  - `fractal` renders frames: plainly, along a Hilbert curve, by subdivision, in
    blocks of pixels, by moving an earlier frame, and against reference orbits.
  - `scheduler` shares a frame between a device and the CPU.
  - `gpu` decides what is launched and uploaded on a device.
  - `gui` holds the state of the viewer: camera, palettes, cached frames, settings.
  - `bench` reads the benchmark's command line and counts what it reports.
  - `grid`, `func` and `float_bits` are what the others are stated with: frames as
    rows of values, functions as values, and floating-point numbers as bit patterns.
- `tests/` runs the library.
- `app/` is the program around it: floating-point kernels, devices, threads, window
  and printing.

## Floating point

The library does no floating-point arithmetic. It carries numbers as their bit
patterns, compares and rounds them, and takes the arithmetic of a pixel as a
function. Its contracts say which pixels the function is applied to and where the
results go, for every such function.

## What is trusted

Three calls into other crates: a parallel map over a range of indices (`rayon`), and
the reading of words as bytes and of bytes as words (`bytemuck`).
