# facefeature

Local face geometry, tracking and identity logic, verified with Verus.

The library turns what a face-landmark detector reports into geometry and measurements, follows
faces from frame to frame under stable numbers, recognizes them against a gallery of embeddings,
guides the capture of new persons, and builds the meshes and labels of a live overlay. All of it is
computed on IEEE floating-point numbers whose rounding is part of the contracts, so that a formula
in a contract is the formula that runs.

## Layout

- `src/double.rs`, `src/single.rs`: double and single precision numbers, on `rounding`, `patterns`
  and `root`; `src/fixed.rs` prints them with a fixed number of decimals; `src/bounds.rs` says what
  holds of sums, products and quotients without working them out.
- `src/model.rs`, `src/detector.rs`: face geometry, and what is made of a backend's report;
  `src/scaling.rs`, `src/shifting.rs`: measurements are the same at another power of two and after
  an exact shift; `src/similarity.rs`, on `lengths` and `reals`: at any scale and position they
  agree up to rounding.
- `src/assignment.rs`, `src/weight.rs`, `src/tracker.rs`, `src/motion.rs`: minimum-cost assignment,
  tracking with stable numbers, smoothing and prediction.
- `src/face_id/`: alignment, embeddings, consensus over several frames, the gallery and its
  database rows, guided capture, and the state that camera and worker share.
- `src/camera/`: options, pacing of frames, labels, triangulation, meshes, lighting and benchmark
  reports; `delaunay`, on `pencil`, says which triangles a triangulation has.
- `src/cli.rs`, `src/text.rs`, `src/clock.rs`: arguments, text and time.
- `tests/`: the library in use, with an SQLite database where there is one in the program.
- `app/`: the two programs. `facefeature` prints the faces of an image as JSON;
  `facefeature-camera` opens the camera window. Vision, AVFoundation and AppKit need macOS.

Times are nanoseconds from a start that the caller chooses. Sines, cosines and exponentials are
handed in by the caller.
