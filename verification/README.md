# binaml

Verified building blocks for online learning over streams of binary
features: two-input boolean gates stored as four-bit truth tables, batch
learners that compose them into boolean functions or conjunctions, the
compaction of a built function into an evaluable graph, layered feature
learning, and streaming circuit learners with their byte-input linear
counterparts.

- `src/` is the library, written and proved with Verus.
- `tests/` exercises it on concrete batches and streams.
- `app/` is the experiment runner (command line, timing, parallel seeds,
  CSV output, floating-point summaries) and the floating-point regression
  and classification heads that weight the functions of the ensemble core.
