# raytracer

A small path tracer whose scene bookkeeping is verified with Verus.

- `src/` is the verified library. Numbers are held by their IEEE 754
  double-precision bit patterns (`scalar`), so that comparisons, minima and
  maxima are proved to follow IEEE semantics exactly, NaN and signed zeros
  included. On top of that stand intervals (`interval`), axis-aligned boxes
  (`aabb`), rays (`ray`), the material records (`material`) and the bounding
  volume hierarchy builder (`bvh`), whose trees are proved to hold every
  object once, to keep each node's box around everything below it, to split
  every node in halves separated along an axis, and to have logarithmic
  height.
- `app/` is the renderer: the floating-point arithmetic (ray-object
  intersection, scattering, the camera, widening flat boxes), the trait objects that make up a
  scene, and the image output.
- `tests/` runs the library on concrete scenes.
