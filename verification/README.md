# cctag

Detector of concentric-circle (CCTag) fiducial markers, split in two:

* `src/` — the verified library (Verus): image planes, gray conversion and
  2x2 box down-scaling, the Canny non-maxima suppression and hysteresis,
  LUT thinning, edge-point collections and voter lists, vote tallying and
  seed ordering, segment labels, the PCG32 generator and its bounded and
  five-distinct-index draws, epoch sets and visited maps, the stage-dump
  byte format, the text format of marker banks, the layout of the
  `FileLog` XML, and gray planes from decoded image bytes (the decoding
  itself is the `image` crate's, behind one trusted wrapper). Each public function
  states its result in its contract; the `lemma_*` proof functions state
  the laws that relate several calls (round trips of codes and dumps,
  read-after-write of sets and maps, the shape of Canny edges, the order
  of sorted seeds).
* `app/` — the floating-point stages around it (gradients, geometry, robust
  fits, ellipse growing, identification), file I/O, and the
  `Detector` that drives the pipeline.

`tests/` exercises the library on concrete values.
