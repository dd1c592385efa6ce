# reductos

A small rough-set toolkit whose computational core is verified with Verus.

* `src/` — the verified library:
  * `float_order` — `f32` comparisons carried out exactly on bit patterns;
    the library handles real-valued data as `u32` bit patterns.
  * `testors` — the depth-first testor search (`lex_algorithm`) and the
    reduct / indiscernibility checks it uses.
  * `thresholds` — row threshold tests and the counts behind the fitness of
    a chromosome.
  * `population` — positions of ones, per-column counts and sums over a
    population, placement of ones in a chromosome, duplicate removal.
  * `columns` — column maxima, minima and middles (stable sort), and
    binarisation of rows against per-column thresholds.
  * `matrices` — discernibility pairs, dropping rows below a threshold, and
    the basic-matrix reduction.
  * `text` — reading a table of unsigned integers from its text.
  * `random` — random 0/1 matrices (through `rand`), chromosomes from draws.
* `app/` — the command-line programs (`umda`, `binarize`, `lex`,
  `random-data`, `reductos`): file and console I/O, progress bars, CSV
  writing, and the floating-point arithmetic (means, averages, distances,
  fitness weights).
* `tests/` — tests of the library on concrete values.
