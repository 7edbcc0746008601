# envi

The verified core of the ENVI outdoor sound-propagation engine, with the
floating-point acoustics and geodesy around it.

- `src/` is the library, checked by Verus. It holds the discrete machinery of
  the engine: the 105-point 1/12-octave band grid and its 1/3-octave picks,
  UTM zone selection and the pinned per-project coordinate reference system
  (built through `proj4rs`), the count checks of terrain profiles and
  directivity grids, the row-major transfer-tensor store with its chunk sink
  and gain checks, the chunked fill loop of the tensor-fill solver (it takes
  each job's band rows from a caller-supplied computation, and its contract
  says that on a fresh sink every cell ends up holding the last job's rows
  for it, whatever the chunk size), and the screen grouping and
  classification of terrain interpretation.
- `tests/` exercise the library on concrete values.
- `app/` is ordinary Rust on top of the library: everything that computes in
  floating point (centre frequencies, coordinate transforms, geometry, ground,
  diffraction, coherence, refraction, transmission, forest, directivity,
  readouts, the per-pair physics of the solver). It calls the library for
  every discrete decision it makes.
- Not in this crate: the flat-ground sub-models for one and several ground
  types, the valley/hill sub-model, the screen paths and the per-band
  terrain-effect dispatch. Their sources need pieces that are not available
  here (the Fresnel-zone functions, curved-ray pairs), so `solve` takes a
  job's terrain effect from its caller.
