# rustwood

Histogram-based gradient boosting with oblivious trees, verified with Verus. A forest can be
fitted on the host, spread over threads, or by kernel launches on a device; both leave arrays of
the same shape, which are scored on the host or by a launch, and saved to and loaded from a `.rwood`
file.

## Layout

- `src/` is the verified library.
  - `float`, `arith`, `order`, `words`, `text`: numbers as bit patterns, the arithmetic on them,
    sorting, little-endian words, numerals.
  - `config`, `data`, `encoding`, `binning`: settings, data sets, bin boundaries, categories.
  - `objective`, `sampling`, `histogram`, `split`, `leaf`, `cpu`: a round of boosting on the host.
  - `gpu`: the plan of launches for a round, what each kernel computes, and the run of a plan.
  - `forest`, `model`, `booster`: scoring, files, and the booster itself.
  - `exact`, `folds`, and their counterparts under `gpu`: what sums hold where none is rounded.
  - `importance`: what the importance of a feature says of the splits.
  - `metrics`, `ranks`, `report`, `serve`: measures, what is reported, and the worker's requests.
- `tests/` runs the library on the arithmetic of the machine.
- `app/` is the program: arguments, files, standard streams, threads and, with the `gpu`
  feature, CUDA.

## Numbers

Floating-point numbers are held as bit patterns. Comparing, clamping and rounding them is
verified down to the bits. Adding, multiplying and the like come from an implementation of
`Arith`, of which the library assumes nothing. Contracts state exactly which operations are
applied to what, and in which order; they hold for every arithmetic that gives one result for
given operands.

## Trust

One function is trusted: `par::par_map`, which hands a closure to `rayon`.
