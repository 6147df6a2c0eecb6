# tracy

A ray tracer built on a verified core.

- `src/` is the verified library (Verus): the pixel canvas and its PPM encoding (with lines of at
  most 70 characters), the storage, transposition and submatrices of square matrices, the world's
  object and light containers with stable object handles, the set of objects a refracted ray is
  inside of, and the order in which scanlines are handed out to render workers.
- `app/` is the floating-point side that builds on it: points and vectors, transformation
  matrices and their inverses, colors, patterns, materials, Phong lighting, ray/shape
  intersection, shading, and the camera that renders scanlines in parallel.
- `tests/` exercises the library on concrete values.
