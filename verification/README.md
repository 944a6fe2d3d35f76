# image_processing

A plugin-based image-processing system, with its logic verified in Verus.

- `src/blur.rs` — the blur plugin: its parameters and the weighted circular
  blur, specified as a sequence of pixel steps (row-major, in place, repeated
  `iterations` times) over the neighbourhood of each pixel within the radius.
  The weighted average itself is computed in floating point and is handed in
  by the caller as a function.
- `src/blur_laws.rs` — proved properties of every blur result: zero radius or
  zero iterations change nothing, a single pixel is kept, a one-colour image is
  kept, only the pixel bytes change, every averaged neighbour lies within the
  radius, and the result is determined when the weighted mean is.
- `src/mirror.rs` — the mirror plugin's parameters.
- `src/host.rs` — the host's rule for the path of a plugin library.
- `app/` — the command-line host (argument parsing, image files, dynamic
  loading of plugins), the plugins' C entry point, their YAML parameter
  parsing and the floating-point weighted mean.
