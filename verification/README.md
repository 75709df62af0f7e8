# temporal_pattern

A video filter that conveys grey levels with black and white patterns spread over space and
time: cells of 2 by 2 pixels in 2 consecutive frames (8 pixels) represent 8 levels of grey.

- `src/` is the verified library (Verus): the patterns and their names, the order in which the
  pixels of a cell light up, finding and grouping the input frames from a file name template,
  the layout of the GPU read back buffer and the compute dispatch, and the decisions of the
  decoding and transforming threads, and the width of the progress counter.
- `app/` is the command line program around it: argument parsing, directory listing, image
  decoding and encoding, the GPU device and its compute shader (the WGSL source in
  `app/shaders.rs` is this crate's own), and the thread pipeline.
- `tests/` exercise the library on concrete values.
